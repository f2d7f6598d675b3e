//! A client for the artifact (server-build) distribution server.
//!
//! The server publishes a text/HTML index. Two regular expressions extract
//! from it the available artifacts and the recommended build number; what
//! those extractions return is named by [`artifact_matches`] and
//! [`recommended_matches`] and trusted, while everything built on top of
//! them — deduplication, URL assembly, caching, lookup — is verified.
//! Fetching the index is the caller's business: the text is handed in with
//! [`ArtifactServer::set_body`], and every query degrades to an empty result
//! when no body is available.

use vstd::prelude::*;
use vstd::string::*;
use crate::numbers::{parse_u16, u16_of_string, valid_u16_string};

verus! {

/// An artifact as found on the artifact server.
#[derive(Clone, Debug, Hash, PartialEq, Eq)]
pub struct Artifact {
    /// The URL for the artifact folder.
    pub url: String,
    /// The artifact publishing number; higher is more recent.
    pub num: u16,
    /// The hash of the artifact.
    pub hash: String,
}

/// The mathematical content of an [`Artifact`].
#[verifier::ext_equal]
pub ghost struct ArtifactView {
    pub url: Seq<char>,
    pub num: u16,
    pub hash: Seq<char>,
}

impl View for Artifact {
    type V = ArtifactView;

    open spec fn view(&self) -> ArtifactView {
        ArtifactView { url: self.url@, num: self.num, hash: self.hash@ }
    }
}

impl DeepView for Artifact {
    type V = ArtifactView;

    open spec fn deep_view(&self) -> ArtifactView {
        self.view()
    }
}

impl Artifact {
    /// A field-for-field copy of the artifact.
    pub fn duplicate(&self) -> (r: Artifact)
        ensures
            r == *self,
    {
        Artifact { url: self.url.clone(), num: self.num, hash: self.hash.clone() }
    }
}

/// The `(number text, hash text)` capture pairs that the artifact pattern
/// finds in an index body, in order of appearance.
pub uninterp spec fn artifact_matches(body: Seq<char>) -> Seq<(Seq<char>, Seq<char>)>;

/// The digit strings that the recommended-build pattern finds in an index
/// body, in order of appearance.
pub uninterp spec fn recommended_matches(body: Seq<char>) -> Seq<Seq<char>>;

/// Relies on `regex::Regex::captures_iter` with the artifact pattern
/// `(\d+)\-([\da-f]+)/fx\.tar\.xz`: which capture pairs occur, and in which
/// order, is a function of the haystack text alone.
#[verifier::external_body]
fn find_artifact_matches(body: &str) -> (r: Vec<(String, String)>)
    ensures
        r.deep_view() == artifact_matches(body@),
{
    let re = regex::Regex::new(r"(\d+)\-([\da-f]+)/fx\.tar\.xz").unwrap();
    let mut out = Vec::new();
    for caps in re.captures_iter(body) {
        out.push((caps[1].to_string(), caps[2].to_string()));
    }
    out
}

/// Relies on `regex::Regex::captures_iter` with the recommended-build
/// pattern `RECOMMENDED \((\d+)\)`: which digit strings are captured, and in
/// which order, is a function of the haystack text alone.
#[verifier::external_body]
fn find_recommended_matches(body: &str) -> (r: Vec<String>)
    ensures
        r.deep_view() == recommended_matches(body@),
{
    let re = regex::Regex::new(r"RECOMMENDED \((\d+)\)").unwrap();
    let mut out = Vec::new();
    for caps in re.captures_iter(body) {
        out.push(caps[1].to_string());
    }
    out
}

/// The folder URL of one artifact: the server URL, the number text, a dash,
/// the hash, and a trailing slash.
pub open spec fn artifact_url(base: Seq<char>, numtxt: Seq<char>, hash: Seq<char>) -> Seq<char> {
    base + numtxt + "-"@ + hash + "/"@
}

/// The artifacts denoted by a list of capture pairs: pairs whose number text
/// is not a `u16` are skipped, and only the first pair for each number is
/// kept.
pub open spec fn extract_rec(
    base: Seq<char>,
    ms: Seq<(Seq<char>, Seq<char>)>,
    seen: Set<u16>,
) -> Seq<ArtifactView>
    decreases ms.len(),
{
    if ms.len() == 0 {
        Seq::empty()
    } else {
        let m = ms.first();
        if valid_u16_string(m.0) && !seen.contains(u16_of_string(m.0)) {
            seq![
                ArtifactView {
                    url: artifact_url(base, m.0, m.1),
                    num: u16_of_string(m.0),
                    hash: m.1,
                },
            ] + extract_rec(base, ms.drop_first(), seen.insert(u16_of_string(m.0)))
        } else {
            extract_rec(base, ms.drop_first(), seen)
        }
    }
}

/// Every artifact an index body lists, deduplicated by number.
pub open spec fn artifacts_of(base: Seq<char>, body: Seq<char>) -> Seq<ArtifactView> {
    extract_rec(base, artifact_matches(body), Set::empty())
}

/// The recommended build number an index body names: the first match of the
/// recommended-build pattern, or zero when there is none (or its digits do
/// not fit a `u16`).
pub open spec fn latest_of(body: Seq<char>) -> u16 {
    let ms = recommended_matches(body);
    if ms.len() > 0 && valid_u16_string(ms.first()) {
        u16_of_string(ms.first())
    } else {
        0
    }
}

/// The first artifact with the given build number, if any.
pub open spec fn find_by_num(arts: Seq<ArtifactView>, num: u16) -> Option<ArtifactView>
    decreases arts.len(),
{
    if arts.len() == 0 {
        None
    } else if arts.first().num == num {
        Some(arts.first())
    } else {
        find_by_num(arts.drop_first(), num)
    }
}

proof fn lemma_find_by_num_at(arts: Seq<ArtifactView>, num: u16, k: int)
    requires
        0 <= k < arts.len(),
        arts[k].num == num,
        forall|j: int| 0 <= j < k ==> (#[trigger] arts[j]).num != num,
    ensures
        find_by_num(arts, num) == Some(arts[k]),
    decreases k,
{
    assert(arts.first() == arts[0]);
    if k > 0 {
        let tail = arts.drop_first();
        assert(tail[k - 1] == arts[k]);
        assert(forall|j: int| 0 <= j < k - 1 ==> (#[trigger] tail[j]) == arts[j + 1]);
        lemma_find_by_num_at(tail, num, k - 1);
    }
}

proof fn lemma_find_by_num_none(arts: Seq<ArtifactView>, num: u16)
    requires
        forall|j: int| 0 <= j < arts.len() ==> (#[trigger] arts[j]).num != num,
    ensures
        find_by_num(arts, num) is None,
    decreases arts.len(),
{
    if arts.len() > 0 {
        assert(arts.first() == arts[0]);
        let tail = arts.drop_first();
        assert(forall|j: int| 0 <= j < tail.len() ==> (#[trigger] tail[j]) == arts[j + 1]);
        lemma_find_by_num_none(tail, num);
    }
}

/// Concatenate the parts of an artifact folder URL.
fn build_url(base: &str, numtxt: &str, hash: &str) -> (r: String)
    ensures
        r@ == artifact_url(base@, numtxt@, hash@),
{
    let mut u = String::from_str(base);
    u.append(numtxt);
    u.append("-");
    u.append(hash);
    u.append("/");
    proof {
        assert(u@ =~= artifact_url(base@, numtxt@, hash@));
    }
    u
}

fn contains_u16(v: &Vec<u16>, x: u16) -> (r: bool)
    ensures
        r == v@.contains(x),
{
    let n = v.len();
    let mut i: usize = 0;
    while i < n
        invariant
            i <= n,
            n == v@.len(),
            forall|j: int| 0 <= j < i ==> v@[j] != x,
        decreases n - i,
    {
        if v[i] == x {
            return true;
        }
        i = i + 1;
    }
    proof {
        assert(!v@.contains(x));
    }
    false
}

fn clone_artifacts(v: &Vec<Artifact>) -> (r: Vec<Artifact>)
    ensures
        r@ == v@,
{
    let n = v.len();
    let mut r: Vec<Artifact> = Vec::new();
    let mut i: usize = 0;
    while i < n
        invariant
            i <= n,
            n == v@.len(),
            r@ == v@.subrange(0, i as int),
        decreases n - i,
    {
        r.push(v[i].duplicate());
        proof {
            assert(r@ =~= v@.subrange(0, i + 1));
        }
        i = i + 1;
    }
    proof {
        assert(v@.subrange(0, n as int) =~= v@);
    }
    r
}

/// The mathematical state of an [`ArtifactServer`]: its URL, the cached
/// index body, and the two caches derived from the body.
#[verifier::ext_equal]
pub ghost struct ServerView {
    pub url: Seq<char>,
    pub body: Option<Seq<char>>,
    pub latest: Option<u16>,
    pub artifacts: Option<Seq<ArtifactView>>,
}

/// An instance of an artifact server. Query results are cached so repeated
/// queries against one instance are answered without recomputation.
#[derive(Debug)]
pub struct ArtifactServer<'a> {
    url: &'a str,
    body: Option<String>,
    latest: Option<u16>,
    artifacts: Option<Vec<Artifact>>,
}

impl<'a> View for ArtifactServer<'a> {
    type V = ServerView;

    closed spec fn view(&self) -> ServerView {
        ServerView {
            url: self.url@,
            body: match self.body {
                Some(b) => Some(b@),
                None => None,
            },
            latest: self.latest,
            artifacts: match self.artifacts {
                Some(v) => Some(v.deep_view()),
                None => None,
            },
        }
    }
}

impl<'a> ArtifactServer<'a> {
    /// The caches hold exactly what the cached body denotes.
    #[verifier::type_invariant]
    spec fn inv(self) -> bool {
        &&& (self@.artifacts matches Some(arts) ==> self@.body matches Some(b) && arts
            == artifacts_of(self@.url, b))
        &&& (self@.latest matches Some(n) ==> self@.body matches Some(b) && n == latest_of(b))
    }

    /// Create a new artifact server client with caching.
    pub fn new(url: &'a str) -> (s: Self)
        ensures
            s@ == (ServerView { url: url@, body: None, latest: None, artifacts: None }),
    {
        Self { url, body: None, artifacts: None, latest: None }
    }

    /// Whether an index body has been handed in already.
    pub fn has_body(&self) -> (r: bool)
        ensures
            r == (self@.body is Some),
    {
        match &self.body {
            Some(_) => true,
            None => false,
        }
    }

    /// Hand in the fetched text of the server's index page. Stale caches are
    /// discarded.
    pub fn set_body(&mut self, body: String)
        ensures
            final(self)@ == (ServerView {
                url: old(self)@.url,
                body: Some(body@),
                latest: None,
                artifacts: None,
            }),
    {
        proof {
            use_type_invariant(&*self);
        }
        self.artifacts = None;
        self.latest = None;
        self.body = Some(body);
    }

    /// The artifacts listed by the cached index body, deduplicated by build
    /// number, in order of appearance; empty when no body is available.
    pub fn get_artifacts(&mut self) -> (r: Vec<Artifact>)
        ensures
            final(self)@.url == old(self)@.url,
            final(self)@.body == old(self)@.body,
            final(self)@.latest == old(self)@.latest,
            match old(self)@.body {
                Some(b) => r.deep_view() == artifacts_of(old(self)@.url, b) && final(self)@.artifacts
                    == Some(r.deep_view()),
                None => r@ == Seq::<Artifact>::empty() && final(self)@.artifacts == old(
                    self,
                )@.artifacts,
            },
    {
        proof {
            use_type_invariant(&*self);
        }
        if self.artifacts.is_some() {
            let arts = clone_artifacts(self.artifacts.as_ref().unwrap());
            proof {
                assert(arts.deep_view() =~= self@.artifacts->Some_0);
            }
            return arts;
        }
        match &self.body {
            None => Vec::new(),
            Some(b) => {
                let ghost base = self.url@;
                let ghost bodyv = b@;
                let ms = find_artifact_matches(b.as_str());
                let ghost msv = ms.deep_view();
                let n = ms.len();
                let mut out: Vec<Artifact> = Vec::new();
                let mut seen: Vec<u16> = Vec::new();
                let ghost mut seenset: Set<u16> = Set::empty();
                let mut i: usize = 0;
                proof {
                    assert(msv.skip(0) =~= msv);
                }
                while i < n
                    invariant
                        i <= n,
                        n == ms@.len(),
                        msv == ms.deep_view(),
                        *self == *old(self),
                        base == self@.url,
                        old(self)@.body == Some(bodyv),
                        artifact_matches(bodyv) == msv,
                        forall|x: u16| seen@.contains(x) == seenset.contains(x),
                        artifacts_of(base, bodyv) == out.deep_view() + extract_rec(
                            base,
                            msv.skip(i as int),
                            seenset,
                        ),
                    decreases n - i,
                {
                    let ghost pre_out = out.deep_view();
                    let ghost rem = msv.skip(i as int);
                    proof {
                        assert(rem.first() == msv[i as int]);
                        assert(msv[i as int] == (ms@[i as int].0@, ms@[i as int].1@));
                        assert(rem.drop_first() =~= msv.skip(i + 1));
                    }
                    let parsed = parse_u16(ms[i].0.as_str());
                    match parsed {
                        Some(num) => {
                            if !contains_u16(&seen, num) {
                                let ghost pre_seen = seen@;
                                seen.push(num);
                                proof {
                                    seenset = seenset.insert(num);
                                    assert(forall|x: u16|
                                        seen@.contains(x) == (pre_seen.contains(x) || x == num))
                                        by {
                                        assert(forall|x: u16|
                                            pre_seen.contains(x) ==> #[trigger] seen@.contains(
                                                x,
                                            )) by {
                                            assert(forall|j: int|
                                                0 <= j < pre_seen.len() ==> seen@[j]
                                                    == #[trigger] pre_seen[j]);
                                        }
                                        assert(seen@[pre_seen.len() as int] == num);
                                        assert(forall|x: u16|
                                            #[trigger] seen@.contains(x) && !pre_seen.contains(x)
                                                ==> x == num) by {
                                            assert(forall|j: int|
                                                0 <= j < pre_seen.len() ==> seen@[j]
                                                    == #[trigger] pre_seen[j]);
                                        }
                                    }
                                }
                                let url = build_url(self.url, ms[i].0.as_str(), ms[i].1.as_str());
                                let hash = ms[i].1.clone();
                                out.push(Artifact { url, num, hash });
                                proof {
                                    let av = ArtifactView {
                                        url: artifact_url(base, rem.first().0, rem.first().1),
                                        num: u16_of_string(rem.first().0),
                                        hash: rem.first().1,
                                    };
                                    assert(out@[pre_out.len() as int].deep_view().url =~= av.url);
                                    assert(out.deep_view()[pre_out.len() as int] =~~= av);
                                    assert(forall|j: int|
                                        0 <= j < pre_out.len() ==> out.deep_view()[j]
                                            == #[trigger] pre_out[j]);
                                    assert(out.deep_view() =~~= pre_out.push(av));
                                    assert(pre_out.push(out.deep_view().last()) + extract_rec(
                                        base,
                                        msv.skip(i + 1),
                                        seenset,
                                    ) =~= pre_out + (seq![out.deep_view().last()] + extract_rec(
                                        base,
                                        msv.skip(i + 1),
                                        seenset,
                                    )));
                                }
                            }
                        },
                        None => {},
                    }
                    i = i + 1;
                }
                proof {
                    assert(msv.skip(n as int) =~= Seq::<(Seq<char>, Seq<char>)>::empty());
                    assert(out.deep_view() + Seq::<ArtifactView>::empty() =~= out.deep_view());
                }
                let result = clone_artifacts(&out);
                self.artifacts = Some(out);
                proof {
                    assert(result.deep_view() =~= artifacts_of(base, bodyv));
                    assert(self@.artifacts == Some(result.deep_view()));
                }
                result
            },
        }
    }

    /// The recommended build number named by the cached index body, or zero
    /// when no body is available or it names none.
    pub fn get_latest_version_num(&mut self) -> (r: u16)
        ensures
            final(self)@.url == old(self)@.url,
            final(self)@.body == old(self)@.body,
            final(self)@.artifacts == old(self)@.artifacts,
            match old(self)@.body {
                Some(b) => r == latest_of(b) && final(self)@.latest == Some(r),
                None => r == 0 && final(self)@.latest == old(self)@.latest,
            },
    {
        proof {
            use_type_invariant(&*self);
        }
        if let Some(l) = self.latest {
            return l;
        }
        match &self.body {
            None => 0,
            Some(b) => {
                let ms = find_recommended_matches(b.as_str());
                let r = if ms.len() > 0 {
                    proof {
                        assert(ms.deep_view()[0] == ms@[0]@);
                    }
                    match parse_u16(ms[0].as_str()) {
                        Some(v) => v,
                        None => 0,
                    }
                } else {
                    0
                };
                self.latest = Some(r);
                r
            },
        }
    }

    /// Linear search for the artifact with the given build number. Numbers
    /// are unique after deduplication, so this is the one artifact of that
    /// number, if the cached body lists any.
    pub fn get_artifact(&mut self, num: u16) -> (r: Option<Artifact>)
        ensures
            final(self)@.url == old(self)@.url,
            final(self)@.body == old(self)@.body,
            final(self)@.latest == old(self)@.latest,
            match old(self)@.body {
                Some(b) => ({
                    let arts = artifacts_of(old(self)@.url, b);
                    match r {
                        Some(a) => find_by_num(arts, num) == Some(a@),
                        None => find_by_num(arts, num) is None,
                    }
                }),
                None => r is None,
            },
    {
        let arts = self.get_artifacts();
        let n = arts.len();
        let mut i: usize = 0;
        while i < n
            invariant
                i <= n,
                n == arts@.len(),
                forall|j: int| 0 <= j < i ==> (#[trigger] arts.deep_view()[j]).num != num,
                self@.url == old(self)@.url,
                self@.body == old(self)@.body,
                self@.latest == old(self)@.latest,
                match old(self)@.body {
                    Some(b) => arts.deep_view() == artifacts_of(old(self)@.url, b) && self@.artifacts
                        == Some(arts.deep_view()),
                    None => arts@.len() == 0,
                },
            decreases n - i,
        {
            if arts[i].num == num {
                let a = arts[i].duplicate();
                proof {
                    assert(arts.deep_view()[i as int] == a@);
                    lemma_find_by_num_at(arts.deep_view(), num, i as int);
                }
                return Some(a);
            }
            proof {
                assert(arts.deep_view()[i as int] == arts@[i as int]@);
            }
            i = i + 1;
        }
        proof {
            lemma_find_by_num_none(arts.deep_view(), num);
        }
        None
    }
}

} // verus!
