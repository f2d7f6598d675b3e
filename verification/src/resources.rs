//! Matching declared resources against a scanned directory listing.
//!
//! The scanner (whoever walks the filesystem) hands in a listing of resource
//! names with their paths. Each declared resource is classified as found —
//! consuming one listing entry — or missing, in declaration order; whatever
//! entries remain are extra, never-started resources.

use vstd::prelude::*;
use crate::strings::str_eq;

verus! {

/// The index of the first listing entry with the given name, or -1.
pub open spec fn first_match(present: Seq<(Seq<char>, Seq<char>)>, name: Seq<char>) -> int
    decreases present.len(),
{
    if present.len() == 0 {
        -1
    } else if present.first().0 == name {
        0
    } else {
        let r = first_match(present.drop_first(), name);
        if r < 0 {
            -1
        } else {
            r + 1
        }
    }
}

proof fn lemma_first_match_found(present: Seq<(Seq<char>, Seq<char>)>, name: Seq<char>, k: int)
    requires
        0 <= k < present.len(),
        present[k].0 == name,
        forall|j: int| 0 <= j < k ==> (#[trigger] present[j]).0 != name,
    ensures
        first_match(present, name) == k,
    decreases k,
{
    if k == 0 {
        assert(present.first() == present[0]);
    } else {
        assert(present.first() == present[0]);
        assert(present[0].0 != name);
        let tail = present.drop_first();
        assert(tail[k - 1] == present[k]);
        assert(forall|j: int| 0 <= j < k - 1 ==> (#[trigger] tail[j]).0 == present[j + 1].0);
        lemma_first_match_found(tail, name, k - 1);
    }
}

proof fn lemma_first_match_none(present: Seq<(Seq<char>, Seq<char>)>, name: Seq<char>)
    requires
        forall|j: int| 0 <= j < present.len() ==> (#[trigger] present[j]).0 != name,
    ensures
        first_match(present, name) == -1,
    decreases present.len(),
{
    if present.len() > 0 {
        assert(present.first() == present[0]);
        let tail = present.drop_first();
        assert(forall|j: int| 0 <= j < tail.len() ==> (#[trigger] tail[j]).0 == present[j + 1].0);
        lemma_first_match_none(tail, name);
    }
}

/// The classification of declared resources against a listing: for each
/// declared name, in order, the path of the first unconsumed listing entry
/// of that name (consuming it), or nothing when the listing has none left;
/// and the entries never consumed.
pub open spec fn classify_rec(
    declared: Seq<Seq<char>>,
    present: Seq<(Seq<char>, Seq<char>)>,
) -> (Seq<(Seq<char>, Option<Seq<char>>)>, Seq<(Seq<char>, Seq<char>)>)
    decreases declared.len(),
{
    if declared.len() == 0 {
        (Seq::empty(), present)
    } else {
        let name = declared.first();
        let fm = first_match(present, name);
        if fm >= 0 {
            let r = classify_rec(declared.drop_first(), present.remove(fm));
            (seq![(name, Some(present[fm].1))] + r.0, r.1)
        } else {
            let r = classify_rec(declared.drop_first(), present);
            (seq![(name, None::<Seq<char>>)] + r.0, r.1)
        }
    }
}

/// Find the first entry with the given name.
fn find_name(v: &Vec<(String, String)>, name: &str) -> (r: Option<usize>)
    ensures
        match r {
            Some(k) => first_match(v.deep_view(), name@) == k && k < v.len(),
            None => first_match(v.deep_view(), name@) == -1,
        },
{
    let n = v.len();
    let mut i: usize = 0;
    while i < n
        invariant
            i <= n,
            n == v@.len(),
            forall|j: int| 0 <= j < i ==> (#[trigger] v.deep_view()[j]).0 != name@,
        decreases n - i,
    {
        proof {
            assert(v.deep_view()[i as int] == (v@[i as int].0@, v@[i as int].1@));
        }
        if str_eq(v[i].0.as_str(), name) {
            proof {
                lemma_first_match_found(v.deep_view(), name@, i as int);
            }
            return Some(i);
        }
        i = i + 1;
    }
    proof {
        lemma_first_match_none(v.deep_view(), name@);
    }
    None
}

fn clone_pairs(v: &Vec<(String, String)>) -> (r: Vec<(String, String)>)
    ensures
        r@ == v@,
{
    let n = v.len();
    let mut r: Vec<(String, String)> = Vec::new();
    let mut i: usize = 0;
    while i < n
        invariant
            i <= n,
            n == v@.len(),
            r@ == v@.subrange(0, i as int),
        decreases n - i,
    {
        r.push((v[i].0.clone(), v[i].1.clone()));
        proof {
            assert(r@ =~= v@.subrange(0, i + 1));
        }
        i = i + 1;
    }
    proof {
        assert(v@.subrange(0, n as int) =~= v@);
    }
    r
}

/// Classify each declared resource against the listing, following
/// [`classify_rec`]: the first result pairs every declared name, in order,
/// with the path it was found at (or nothing); the second holds the extra
/// listing entries that no declaration consumed.
pub fn classify_resources(declared: &Vec<String>, present: &Vec<(String, String)>) -> (r: (
    Vec<(String, Option<String>)>,
    Vec<(String, String)>,
))
    ensures
        r.0.deep_view() == classify_rec(declared.deep_view(), present.deep_view()).0,
        r.1.deep_view() == classify_rec(declared.deep_view(), present.deep_view()).1,
{
    let ghost dv = declared.deep_view();
    let ghost pv = present.deep_view();
    let mut statuses: Vec<(String, Option<String>)> = Vec::new();
    let mut remaining: Vec<(String, String)> = clone_pairs(present);
    let n = declared.len();
    let mut i: usize = 0;
    proof {
        assert(remaining.deep_view() =~~= pv);
        assert(dv.skip(0) =~= dv);
        assert(statuses.deep_view() + classify_rec(dv, pv).0 =~= classify_rec(dv, pv).0);
    }
    while i < n
        invariant
            i <= n,
            n == declared@.len(),
            dv == declared.deep_view(),
            classify_rec(dv, pv).0 == statuses.deep_view() + classify_rec(
                dv.skip(i as int),
                remaining.deep_view(),
            ).0,
            classify_rec(dv, pv).1 == classify_rec(dv.skip(i as int), remaining.deep_view()).1,
        decreases n - i,
    {
        let ghost rem0 = remaining.deep_view();
        let ghost st0 = statuses.deep_view();
        proof {
            assert(dv.skip(i as int).first() == dv[i as int]);
            assert(dv.skip(i as int).drop_first() =~= dv.skip(i + 1));
            assert(dv[i as int] == declared@[i as int]@);
        }
        let name = declared[i].clone();
        let fm = find_name(&remaining, name.as_str());
        match fm {
            Some(k) => {
                let path = remaining[k].1.clone();
                proof {
                    assert(rem0[k as int] == (remaining@[k as int].0@, remaining@[k as int].1@));
                }
                remaining.remove(k);
                statuses.push((name, Some(path)));
                proof {
                    assert(remaining.deep_view() =~~= rem0.remove(k as int));
                    assert(statuses.deep_view() =~~= st0.push((dv[i as int], Some(rem0[k as int].1))));
                    assert(st0.push((dv[i as int], Some(rem0[k as int].1))) + classify_rec(
                        dv.skip(i + 1),
                        remaining.deep_view(),
                    ).0 =~= st0 + (seq![(dv[i as int], Some(rem0[k as int].1))] + classify_rec(
                        dv.skip(i + 1),
                        remaining.deep_view(),
                    ).0));
                }
            },
            None => {
                statuses.push((name, None));
                proof {
                    assert(statuses.deep_view() =~~= st0.push(
                        (dv[i as int], None::<Seq<char>>),
                    ));
                    assert(st0.push((dv[i as int], None::<Seq<char>>)) + classify_rec(
                        dv.skip(i + 1),
                        remaining.deep_view(),
                    ).0 =~= st0 + (seq![(dv[i as int], None::<Seq<char>>)] + classify_rec(
                        dv.skip(i + 1),
                        remaining.deep_view(),
                    ).0));
                }
            },
        }
        i = i + 1;
    }
    proof {
        assert(dv.skip(n as int) =~= Seq::<Seq<char>>::empty());
        assert(statuses.deep_view() + Seq::<(Seq<char>, Option<Seq<char>>)>::empty()
            =~= statuses.deep_view());
    }
    (statuses, remaining)
}

} // verus!
