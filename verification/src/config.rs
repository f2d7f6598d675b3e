//! The accumulated configuration record and the directive dispatcher.
//!
//! A [`FivemConfig`] is built up line by line. Each tokenized line either
//! mutates the record, requests the inclusion of another file, or reports a
//! malformed `sv_maxclients` value; everything else is ignored. The exact
//! behaviour of one line is the spec function [`line_effect`], and the
//! executable dispatcher [`apply_tokens`] is proved to follow it.

use vstd::prelude::*;
use crate::numbers::{parse_u16, u16_of_string, valid_u16_string};
use crate::strings::str_eq;
use crate::tokenize::tokenize;

verus! {

/// The mathematical content of a configuration record.
#[verifier::ext_equal]
pub ghost struct ConfigView {
    pub hostname: Seq<char>,
    pub resources: Seq<Seq<char>>,
    pub convars: Map<Seq<char>, Seq<char>>,
    pub convars_replicated: Map<Seq<char>, Seq<char>>,
    pub allow_scripthook: bool,
    pub rcon_password: Seq<char>,
    pub licensekey: Seq<char>,
    pub server_icon: Seq<char>,
    pub max_clients: u16,
}

/// The record every parse starts from: empty strings, no resources, no
/// convars, script hooks allowed, zero max clients.
pub open spec fn empty_config() -> ConfigView {
    ConfigView {
        hostname: Seq::empty(),
        resources: Seq::empty(),
        convars: Map::empty(),
        convars_replicated: Map::empty(),
        allow_scripthook: true,
        rcon_password: Seq::empty(),
        licensekey: Seq::empty(),
        server_icon: Seq::empty(),
        max_clients: 0,
    }
}

/// The map an association list denotes; a later entry for a key wins.
pub open spec fn assoc_map(s: Seq<(Seq<char>, Seq<char>)>) -> Map<Seq<char>, Seq<char>>
    decreases s.len(),
{
    if s.len() == 0 {
        Map::empty()
    } else {
        assoc_map(s.drop_last()).insert(s.last().0, s.last().1)
    }
}

/// No two entries of the association list share a key.
pub open spec fn unique_keys(s: Seq<(Seq<char>, Seq<char>)>) -> bool {
    forall|i: int, j: int| 0 <= i < j < s.len() ==> (#[trigger] s[i]).0 != (#[trigger] s[j]).0
}

proof fn lemma_unique_prefix(s: Seq<(Seq<char>, Seq<char>)>)
    requires
        unique_keys(s),
        s.len() > 0,
    ensures
        unique_keys(s.drop_last()),
{
    assert(forall|i: int|
        0 <= i < s.drop_last().len() ==> s.drop_last()[i] == #[trigger] s[i]);
}

/// A key is in the association map exactly when some entry holds it.
proof fn lemma_assoc_contains(s: Seq<(Seq<char>, Seq<char>)>, k: Seq<char>)
    ensures
        assoc_map(s).contains_key(k) <==> exists|i: int| 0 <= i < s.len() && (#[trigger] s[i]).0 == k,
    decreases s.len(),
{
    if s.len() > 0 {
        lemma_assoc_contains(s.drop_last(), k);
        if s.last().0 == k {
            assert(s[s.len() - 1].0 == k);
        } else if assoc_map(s).contains_key(k) {
            let i = choose|i: int| 0 <= i < s.drop_last().len() && (#[trigger] s.drop_last()[i]).0 == k;
            assert(s[i].0 == k);
        } else {
            assert(forall|i: int| 0 <= i < s.drop_last().len() ==> s.drop_last()[i] == #[trigger] s[i]);
        }
    }
}

/// In a unique-keyed association list, entry `i` gives the map's value at its key.
proof fn lemma_assoc_index(s: Seq<(Seq<char>, Seq<char>)>, i: int)
    requires
        unique_keys(s),
        0 <= i < s.len(),
    ensures
        assoc_map(s).contains_key(s[i].0),
        assoc_map(s)[s[i].0] == s[i].1,
    decreases s.len(),
{
    if i == s.len() - 1 {
    } else {
        lemma_unique_prefix(s);
        assert(s.drop_last()[i] == s[i]);
        lemma_assoc_index(s.drop_last(), i);
        assert(s[i].0 != s.last().0);
    }
}

/// Removing entry `i` of a unique-keyed list removes its key from the map.
proof fn lemma_assoc_remove(s: Seq<(Seq<char>, Seq<char>)>, i: int)
    requires
        unique_keys(s),
        0 <= i < s.len(),
    ensures
        assoc_map(s.remove(i)) == assoc_map(s).remove(s[i].0),
    decreases s.len(),
{
    if i == s.len() - 1 {
        assert(s.remove(i) =~= s.drop_last());
        lemma_unique_prefix(s);
        lemma_assoc_contains(s.drop_last(), s[i].0);
        assert(forall|j: int| 0 <= j < s.drop_last().len() ==> s.drop_last()[j] == #[trigger] s[j]);
        assert(!assoc_map(s.drop_last()).contains_key(s[i].0));
        assert(assoc_map(s.drop_last()).insert(s.last().0, s.last().1).remove(s[i].0) =~= assoc_map(
            s.drop_last(),
        ));
    } else {
        lemma_unique_prefix(s);
        assert(s.drop_last()[i] == s[i]);
        lemma_assoc_remove(s.drop_last(), i);
        assert(s.remove(i).drop_last() =~= s.drop_last().remove(i));
        assert(s.remove(i).last() == s.last());
        assert(s[i].0 != s.last().0);
        assert(assoc_map(s.drop_last()).remove(s[i].0).insert(s.last().0, s.last().1) =~= assoc_map(
            s.drop_last(),
        ).insert(s.last().0, s.last().1).remove(s[i].0));
    }
}

/// Find the index of the entry whose key equals `name`, if any.
fn assoc_find(v: &Vec<(String, String)>, name: &str) -> (r: Option<usize>)
    ensures
        match r {
            Some(i) => i < v.len() && v.deep_view()[i as int].0 == name@,
            None => forall|i: int| 0 <= i < v.len() ==> (#[trigger] v.deep_view()[i]).0 != name@,
        },
{
    let n = v.len();
    let mut i: usize = 0;
    while i < n
        invariant
            i <= n,
            n == v.len(),
            forall|j: int| 0 <= j < i ==> (#[trigger] v.deep_view()[j]).0 != name@,
        decreases n - i,
    {
        if str_eq(v[i].0.as_str(), name) {
            proof {
                assert(v.deep_view()[i as int].0 == v@[i as int].0@);
            }
            return Some(i);
        }
        proof {
            assert(v.deep_view()[i as int].0 == v@[i as int].0@);
        }
        i = i + 1;
    }
    None
}

/// Insert or overwrite `name`, keeping the keys unique.
fn assoc_set(v: &mut Vec<(String, String)>, name: String, value: String)
    requires
        unique_keys(old(v).deep_view()),
    ensures
        unique_keys(final(v).deep_view()),
        assoc_map(final(v).deep_view()) == assoc_map(old(v).deep_view()).insert(name@, value@),
{
    let ghost dv0 = v.deep_view();
    let found = assoc_find(v, name.as_str());
    match found {
        Some(i) => {
            v.remove(i);
            proof {
                assert(v.deep_view() =~~= dv0.remove(i as int));
                lemma_assoc_remove(dv0, i as int);
                assert(forall|a: int, b: int|
                    0 <= a < b < v.deep_view().len() ==> (#[trigger] v.deep_view()[a]).0 != (
                    #[trigger] v.deep_view()[b]).0) by {
                    assert(forall|a: int|
                        0 <= a < v.deep_view().len() ==> #[trigger] v.deep_view()[a] == if a < i {
                            dv0[a]
                        } else {
                            dv0[a + 1]
                        });
                }
                assert(forall|a: int|
                    0 <= a < v.deep_view().len() ==> (#[trigger] v.deep_view()[a]).0 != name@) by {
                    assert(forall|a: int|
                        0 <= a < v.deep_view().len() ==> #[trigger] v.deep_view()[a] == if a < i {
                            dv0[a]
                        } else {
                            dv0[a + 1]
                        });
                    assert(forall|a: int| 0 <= a < dv0.len() && a != i ==> (#[trigger] dv0[a]).0 != name@);
                }
            }
            let ghost dv1 = v.deep_view();
            v.push((name, value));
            proof {
                assert(v.deep_view() =~~= dv1.push((name@, value@)));
                assert(v.deep_view().drop_last() =~= dv1);
                assert(assoc_map(v.deep_view()) == assoc_map(dv1).insert(name@, value@));
                assert(assoc_map(dv1).insert(name@, value@) =~= assoc_map(dv0).insert(
                    name@,
                    value@,
                ));
                assert(forall|a: int|
                    0 <= a < dv1.len() ==> v.deep_view()[a] == #[trigger] dv1[a]);
            }
        },
        None => {
            v.push((name, value));
            proof {
                assert(v.deep_view() =~~= dv0.push((name@, value@)));
                assert(v.deep_view().drop_last() =~= dv0);
                assert(forall|a: int|
                    0 <= a < dv0.len() ==> v.deep_view()[a] == #[trigger] dv0[a]);
            }
        },
    }
}

/// Look a key up in a unique-keyed association list.
fn assoc_get<'a>(v: &'a Vec<(String, String)>, name: &str) -> (r: Option<&'a String>)
    requires
        unique_keys(v.deep_view()),
    ensures
        match r {
            Some(s) => assoc_map(v.deep_view()).contains_key(name@) && s@ == assoc_map(
                v.deep_view(),
            )[name@],
            None => !assoc_map(v.deep_view()).contains_key(name@),
        },
{
    let found = assoc_find(v, name);
    proof {
        lemma_assoc_contains(v.deep_view(), name@);
    }
    match found {
        Some(i) => {
            proof {
                lemma_assoc_index(v.deep_view(), i as int);
                assert(v.deep_view()[i as int].1 == v@[i as int].1@);
            }
            Some(&v[i].1)
        },
        None => None,
    }
}

/// A configuration record accumulated from `.cfg` files.
///
/// The convar tables are association lists with unique keys; their meaning as
/// maps is given by [`assoc_map`].
#[derive(Debug)]
pub struct FivemConfig {
    /// The hostname of the server.
    pub hostname: String,
    /// The resources the server will attempt to use, in declaration order,
    /// duplicates kept.
    pub resources: Vec<String>,
    /// The convars set in the config, keys unique.
    pub convars: Vec<(String, String)>,
    /// The convars replicated both server- and client-side, keys unique.
    pub convars_replicated: Vec<(String, String)>,
    /// Whether ScriptHook plugins are permitted by the server.
    pub allow_scripthook: bool,
    /// The RCON password used by the server.
    pub rcon_password: String,
    /// The license key used by the server.
    pub licensekey: String,
    /// The relative path of the icon used by the server.
    pub server_icon: String,
    /// The maximum number of clients permitted on the server.
    pub max_clients: u16,
}

impl View for FivemConfig {
    type V = ConfigView;

    open spec fn view(&self) -> ConfigView {
        ConfigView {
            hostname: self.hostname@,
            resources: self.resources.deep_view(),
            convars: assoc_map(self.convars.deep_view()),
            convars_replicated: assoc_map(self.convars_replicated.deep_view()),
            allow_scripthook: self.allow_scripthook,
            rcon_password: self.rcon_password@,
            licensekey: self.licensekey@,
            server_icon: self.server_icon@,
            max_clients: self.max_clients,
        }
    }
}

impl FivemConfig {
    /// Both convar tables have unique keys.
    pub open spec fn wf(&self) -> bool {
        unique_keys(self.convars.deep_view()) && unique_keys(self.convars_replicated.deep_view())
    }

    /// A record with all the documented defaults.
    pub fn new() -> (c: FivemConfig)
        ensures
            c.wf(),
            c@ == empty_config(),
    {
        let c = FivemConfig {
            hostname: String::new(),
            resources: Vec::new(),
            convars: Vec::new(),
            convars_replicated: Vec::new(),
            allow_scripthook: true,
            rcon_password: String::new(),
            licensekey: String::new(),
            server_icon: String::new(),
            max_clients: 0,
        };
        proof {
            assert(c.resources.deep_view() =~~= Seq::<Seq<char>>::empty());
            assert(c.convars.deep_view() =~~= Seq::<(Seq<char>, Seq<char>)>::empty());
            assert(c.convars_replicated.deep_view() =~~= Seq::<(Seq<char>, Seq<char>)>::empty());
            assert(c@ =~~= empty_config());
        }
        c
    }

    /// The value of a convar, if it was ever set.
    pub fn get_convar<'a>(&'a self, name: &str) -> (r: Option<&'a String>)
        requires
            self.wf(),
        ensures
            match r {
                Some(s) => self@.convars.contains_key(name@) && s@ == self@.convars[name@],
                None => !self@.convars.contains_key(name@),
            },
    {
        assoc_get(&self.convars, name)
    }

    /// The value of a replicated convar, if it was ever set.
    pub fn get_replicated_convar<'a>(&'a self, name: &str) -> (r: Option<&'a String>)
        requires
            self.wf(),
        ensures
            match r {
                Some(s) => self@.convars_replicated.contains_key(name@) && s@
                    == self@.convars_replicated[name@],
                None => !self@.convars_replicated.contains_key(name@),
            },
    {
        assoc_get(&self.convars_replicated, name)
    }
}

/// What one tokenized line does to the record.
pub ghost enum LineEffect {
    /// No state change: empty line, unknown directive, or missing argument.
    Keep,
    /// The record becomes this new value.
    Update(ConfigView),
    /// The named file is to be parsed into the same record.
    Include(Seq<char>),
    /// The `sv_maxclients` argument is not a number; the parse aborts.
    Fail,
}

/// The value a `set` or `setr` line assigns: its third token, or the empty
/// string when only the key is given.
pub open spec fn set_value(parts: Seq<Seq<char>>) -> Seq<char> {
    if parts.len() >= 3 {
        parts[2]
    } else {
        Seq::empty()
    }
}

/// The directive table: what a tokenized line does to the record `c`.
///
/// The first token selects the directive, case-sensitively. A recognized
/// directive whose argument is missing is tolerated as a no-op. Unrecognized
/// directives are ignored. Only a non-numeric `sv_maxclients` argument fails.
pub open spec fn dispatch_effect(c: ConfigView, parts: Seq<Seq<char>>) -> LineEffect {
    if parts.len() == 0 {
        LineEffect::Keep
    } else if parts[0] == "sv_hostname"@ {
        if parts.len() >= 2 {
            LineEffect::Update(ConfigView { hostname: parts[1], ..c })
        } else {
            LineEffect::Keep
        }
    } else if parts[0] == "start"@ || parts[0] == "ensure"@ {
        if parts.len() >= 2 {
            LineEffect::Update(ConfigView { resources: c.resources.push(parts[1]), ..c })
        } else {
            LineEffect::Keep
        }
    } else if parts[0] == "set"@ {
        if parts.len() >= 2 {
            LineEffect::Update(
                ConfigView { convars: c.convars.insert(parts[1], set_value(parts)), ..c },
            )
        } else {
            LineEffect::Keep
        }
    } else if parts[0] == "setr"@ {
        if parts.len() >= 2 {
            LineEffect::Update(
                ConfigView {
                    convars_replicated: c.convars_replicated.insert(parts[1], set_value(parts)),
                    ..c
                },
            )
        } else {
            LineEffect::Keep
        }
    } else if parts[0] == "sv_scriptHookAllowed"@ {
        if parts.len() >= 2 {
            LineEffect::Update(ConfigView { allow_scripthook: parts[1] == "1"@, ..c })
        } else {
            LineEffect::Keep
        }
    } else if parts[0] == "rcon_password"@ {
        if parts.len() >= 2 {
            LineEffect::Update(ConfigView { rcon_password: parts[1], ..c })
        } else {
            LineEffect::Keep
        }
    } else if parts[0] == "sv_licenseKey"@ {
        if parts.len() >= 2 {
            LineEffect::Update(ConfigView { licensekey: parts[1], ..c })
        } else {
            LineEffect::Keep
        }
    } else if parts[0] == "load_server_icon"@ {
        if parts.len() >= 2 {
            LineEffect::Update(ConfigView { server_icon: parts[1], ..c })
        } else {
            LineEffect::Keep
        }
    } else if parts[0] == "sv_maxclients"@ {
        if parts.len() >= 2 {
            if valid_u16_string(parts[1]) {
                LineEffect::Update(ConfigView { max_clients: u16_of_string(parts[1]), ..c })
            } else {
                LineEffect::Fail
            }
        } else {
            LineEffect::Keep
        }
    } else if parts[0] == "exec"@ {
        if parts.len() >= 2 {
            LineEffect::Include(parts[1])
        } else {
            LineEffect::Keep
        }
    } else {
        LineEffect::Keep
    }
}

/// What one raw line does to the record: a line whose first character is `#`
/// is a comment; every other line is tokenized and dispatched.
pub open spec fn line_effect(c: ConfigView, line: Seq<char>) -> LineEffect {
    if line.len() > 0 && line[0] == '#' {
        LineEffect::Keep
    } else {
        dispatch_effect(c, tokenize(line))
    }
}

/// The dispatcher's report about one tokenized line.
pub enum DispatchOutcome {
    /// The line was applied (possibly as a no-op).
    Applied,
    /// The line asks for this file to be parsed into the same record.
    Include(String),
    /// The `sv_maxclients` argument is not a number.
    BadMaxClients,
}

/// Apply one tokenized line to the record, following [`dispatch_effect`].
pub fn apply_tokens(config: &mut FivemConfig, parts: &Vec<String>) -> (r: DispatchOutcome)
    requires
        old(config).wf(),
    ensures
        final(config).wf(),
        match dispatch_effect(old(config)@, parts.deep_view()) {
            LineEffect::Keep => r is Applied && final(config)@ == old(config)@,
            LineEffect::Update(c2) => r is Applied && final(config)@ == c2,
            LineEffect::Include(p) => final(config)@ == old(config)@ && (r matches
            DispatchOutcome::Include(f) && f@ == p),
            LineEffect::Fail => r is BadMaxClients && final(config)@ == old(config)@,
        },
{
    if parts.len() == 0 {
        return DispatchOutcome::Applied;
    }
    proof {
        assert(parts.deep_view()[0] == parts@[0]@);
        if parts.len() >= 2 {
            assert(parts.deep_view()[1] == parts@[1]@);
        }
        if parts.len() >= 3 {
            assert(parts.deep_view()[2] == parts@[2]@);
        }
    }
    let ghost c0 = old(config)@;
    let d = parts[0].as_str();
    if str_eq(d, "sv_hostname") {
        if parts.len() >= 2 {
            config.hostname = parts[1].clone();
            proof {
                assert(config@ =~~= (ConfigView { hostname: parts.deep_view()[1], ..c0 }));
            }
        }
        DispatchOutcome::Applied
    } else if str_eq(d, "start") || str_eq(d, "ensure") {
        if parts.len() >= 2 {
            config.resources.push(parts[1].clone());
            proof {
                assert(config.resources.deep_view() =~~= c0.resources.push(parts.deep_view()[1]));
                assert(config@ =~~= (ConfigView {
                    resources: c0.resources.push(parts.deep_view()[1]),
                    ..c0
                }));
            }
        }
        DispatchOutcome::Applied
    } else if str_eq(d, "set") {
        if parts.len() >= 2 {
            let value = if parts.len() >= 3 {
                parts[2].clone()
            } else {
                String::new()
            };
            assoc_set(&mut config.convars, parts[1].clone(), value);
            proof {
                assert(config@ =~~= (ConfigView {
                    convars: c0.convars.insert(parts.deep_view()[1], set_value(parts.deep_view())),
                    ..c0
                }));
            }
        }
        DispatchOutcome::Applied
    } else if str_eq(d, "setr") {
        if parts.len() >= 2 {
            let value = if parts.len() >= 3 {
                parts[2].clone()
            } else {
                String::new()
            };
            assoc_set(&mut config.convars_replicated, parts[1].clone(), value);
            proof {
                assert(config@ =~~= (ConfigView {
                    convars_replicated: c0.convars_replicated.insert(
                        parts.deep_view()[1],
                        set_value(parts.deep_view()),
                    ),
                    ..c0
                }));
            }
        }
        DispatchOutcome::Applied
    } else if str_eq(d, "sv_scriptHookAllowed") {
        if parts.len() >= 2 {
            config.allow_scripthook = str_eq(parts[1].as_str(), "1");
            proof {
                assert(config@ =~~= (ConfigView {
                    allow_scripthook: parts.deep_view()[1] == "1"@,
                    ..c0
                }));
            }
        }
        DispatchOutcome::Applied
    } else if str_eq(d, "rcon_password") {
        if parts.len() >= 2 {
            config.rcon_password = parts[1].clone();
            proof {
                assert(config@ =~~= (ConfigView { rcon_password: parts.deep_view()[1], ..c0 }));
            }
        }
        DispatchOutcome::Applied
    } else if str_eq(d, "sv_licenseKey") {
        if parts.len() >= 2 {
            config.licensekey = parts[1].clone();
            proof {
                assert(config@ =~~= (ConfigView { licensekey: parts.deep_view()[1], ..c0 }));
            }
        }
        DispatchOutcome::Applied
    } else if str_eq(d, "load_server_icon") {
        if parts.len() >= 2 {
            config.server_icon = parts[1].clone();
            proof {
                assert(config@ =~~= (ConfigView { server_icon: parts.deep_view()[1], ..c0 }));
            }
        }
        DispatchOutcome::Applied
    } else if str_eq(d, "sv_maxclients") {
        if parts.len() >= 2 {
            match parse_u16(parts[1].as_str()) {
                Some(v) => {
                    config.max_clients = v;
                    proof {
                        assert(config@ =~~= (ConfigView {
                            max_clients: u16_of_string(parts.deep_view()[1]),
                            ..c0
                        }));
                    }
                    DispatchOutcome::Applied
                },
                None => DispatchOutcome::BadMaxClients,
            }
        } else {
            DispatchOutcome::Applied
        }
    } else if str_eq(d, "exec") {
        if parts.len() >= 2 {
            DispatchOutcome::Include(parts[1].clone())
        } else {
            DispatchOutcome::Applied
        }
    } else {
        DispatchOutcome::Applied
    }
}

/// A `set` line inserts its key and value into the convar map.
proof fn lemma_dispatch_set(c: ConfigView, k: Seq<char>, v: Seq<char>)
    ensures
        dispatch_effect(c, seq!["set"@, k, v]) == LineEffect::Update(
            ConfigView { convars: c.convars.insert(k, v), ..c },
        ),
{
    reveal_strlit("set");
    reveal_strlit("sv_hostname");
    reveal_strlit("start");
    reveal_strlit("ensure");
    let p = seq!["set"@, k, v];
    assert(p[0] == "set"@ && p[1] == k && p[2] == v);
    assert("set"@.len() == 3);
    assert("sv_hostname"@.len() == 11);
    assert("start"@.len() == 5);
    assert("ensure"@.len() == 6);
    assert(set_value(p) == v);
}

/// Setting the same convar twice keeps only the later value: after
/// `set k v1` and then `set k v2`, the convar map holds `v2` at `k`,
/// and is exactly the prior map with that one insertion.
pub proof fn lemma_set_last_write_wins(c: ConfigView, k: Seq<char>, v1: Seq<char>, v2: Seq<char>)
    ensures
        ({
            let c1 = ConfigView { convars: c.convars.insert(k, v1), ..c };
            let c2 = ConfigView { convars: c1.convars.insert(k, v2), ..c1 };
            &&& dispatch_effect(c, seq!["set"@, k, v1]) == LineEffect::Update(c1)
            &&& dispatch_effect(c1, seq!["set"@, k, v2]) == LineEffect::Update(c2)
            &&& c2.convars.contains_key(k)
            &&& c2.convars[k] == v2
            &&& c2.convars == c.convars.insert(k, v2)
        }),
{
    lemma_dispatch_set(c, k, v1);
    let c1 = ConfigView { convars: c.convars.insert(k, v1), ..c };
    lemma_dispatch_set(c1, k, v2);
    assert(c.convars.insert(k, v1).insert(k, v2) =~= c.convars.insert(k, v2));
}

/// A `start` line appends its argument to the resource list.
proof fn lemma_dispatch_start(c: ConfigView, name: Seq<char>)
    ensures
        dispatch_effect(c, seq!["start"@, name]) == LineEffect::Update(
            ConfigView { resources: c.resources.push(name), ..c },
        ),
{
    reveal_strlit("start");
    reveal_strlit("sv_hostname");
    let p = seq!["start"@, name];
    assert(p[0] == "start"@ && p[1] == name);
    assert("start"@.len() == 5);
    assert("sv_hostname"@.len() == 11);
}

/// Starting the same resource twice appends it twice: the resource list is
/// not deduplicated, and declaration order is kept.
pub proof fn lemma_start_no_dedup(c: ConfigView, name: Seq<char>)
    ensures
        ({
            let c1 = ConfigView { resources: c.resources.push(name), ..c };
            let c2 = ConfigView { resources: c1.resources.push(name), ..c1 };
            &&& dispatch_effect(c, seq!["start"@, name]) == LineEffect::Update(c1)
            &&& dispatch_effect(c1, seq!["start"@, name]) == LineEffect::Update(c2)
            &&& c2.resources == c.resources.push(name).push(name)
            &&& c2.resources.len() == c.resources.len() + 2
            &&& c2.resources[c.resources.len() as int] == name
            &&& c2.resources[c.resources.len() + 1 as int] == name
        }),
{
    lemma_dispatch_start(c, name);
    let c1 = ConfigView { resources: c.resources.push(name), ..c };
    lemma_dispatch_start(c1, name);
}

/// A line whose first character is `#` is a comment and changes nothing.
pub proof fn lemma_comment_no_effect(c: ConfigView, line: Seq<char>)
    requires
        line.len() > 0,
        line[0] == '#',
    ensures
        line_effect(c, line) == LineEffect::Keep,
{
}

} // verus!
