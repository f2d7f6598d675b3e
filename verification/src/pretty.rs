//! The computations behind the terminal presentation of a record.
//!
//! Printing itself is the caller's business; what is verified here is the
//! masking of secrets and the splitting of a hostname into its
//! caret-escaped colour segments.

use vstd::prelude::*;
use crate::numbers::is_digit;
use crate::strings::push_char;

verus! {

/// `n` asterisks.
pub open spec fn stars(n: nat) -> Seq<char> {
    Seq::new(n, |i: int| '*')
}

/// The masked form of a secret: all asterisks when it is shorter than eight
/// characters, otherwise asterisks with the last four characters kept.
pub open spec fn mask_spec(s: Seq<char>) -> Seq<char> {
    if s.len() < 8 {
        stars(s.len())
    } else {
        stars((s.len() - 4) as nat) + s.skip(s.len() - 4)
    }
}

/// Mask a secret (an RCON password, a license key) for display, following
/// [`mask_spec`].
pub fn mask_secret(s: &str) -> (r: String)
    ensures
        r@ == mask_spec(s@),
{
    let n = s.unicode_len();
    let m: usize = if n < 8 {
        n
    } else {
        n - 4
    };
    let mut r = String::new();
    let mut i: usize = 0;
    while i < m
        invariant
            i <= m,
            r@ == stars(i as nat),
        decreases m - i,
    {
        push_char(&mut r, '*');
        proof {
            assert(r@ =~= stars((i + 1) as nat));
        }
        i = i + 1;
    }
    if n < 8 {
        return r;
    }
    let mut j = m;
    while j < n
        invariant
            m <= j <= n,
            n == s@.len(),
            m == n - 4,
            r@ == stars(m as nat) + s@.subrange(m as int, j as int),
        decreases n - j,
    {
        push_char(&mut r, s.get_char(j));
        proof {
            assert(r@ =~= stars(m as nat) + s@.subrange(m as int, j + 1));
        }
        j = j + 1;
    }
    proof {
        assert(s@.subrange(m as int, n as int) =~= s@.skip(m as int));
    }
    r
}

/// The numeric value of a digit character, as the colour code it selects.
pub open spec fn digit_code(c: char) -> u8 {
    (c as int - '0' as int) as u8
}

/// The running state of hostname colour parsing: whether the last character
/// was a caret, the colour in force, the text being accumulated, the
/// segments already finished, and whether every escape so far was valid.
pub ghost struct ColorState {
    pub escaped: bool,
    pub color: u8,
    pub cur: Seq<char>,
    pub segs: Seq<(u8, Seq<char>)>,
    pub ok: bool,
}

/// The state before any character has been read: colour zero, nothing
/// accumulated.
pub open spec fn color_init() -> ColorState {
    ColorState { escaped: false, color: 0, cur: Seq::empty(), segs: Seq::empty(), ok: true }
}

/// One character of hostname colour parsing. A caret finishes the current
/// segment under the colour in force; the character after a caret must be a
/// digit and becomes the new colour; everything else extends the segment.
pub open spec fn color_step(st: ColorState, c: char) -> ColorState {
    if !st.ok {
        st
    } else if c == '^' {
        ColorState {
            escaped: true,
            color: st.color,
            cur: Seq::empty(),
            segs: st.segs.push((st.color, st.cur)),
            ok: true,
        }
    } else if st.escaped {
        if is_digit(c) {
            ColorState { escaped: false, color: digit_code(c), cur: st.cur, segs: st.segs, ok: true }
        } else {
            ColorState { escaped: st.escaped, color: st.color, cur: st.cur, segs: st.segs, ok: false }
        }
    } else {
        ColorState {
            escaped: st.escaped,
            color: st.color,
            cur: st.cur.push(c),
            segs: st.segs,
            ok: true,
        }
    }
}

/// Run the colour parser over a hostname.
pub open spec fn color_run(s: Seq<char>) -> ColorState
    decreases s.len(),
{
    if s.len() == 0 {
        color_init()
    } else {
        color_step(color_run(s.drop_last()), s.last())
    }
}

/// The colour segments of a hostname: each finished segment, then the
/// pending text under the colour last in force — or nothing when some caret
/// is followed by a non-digit.
pub open spec fn segments_spec(s: Seq<char>) -> Option<Seq<(u8, Seq<char>)>> {
    let st = color_run(s);
    if st.ok {
        Some(st.segs.push((st.color, st.cur)))
    } else {
        None
    }
}

/// A parse that has gone wrong stays wrong.
proof fn lemma_color_stuck(s: Seq<char>, i: int)
    requires
        0 <= i <= s.len(),
        !color_run(s.subrange(0, i)).ok,
    ensures
        !color_run(s).ok,
    decreases s.len() - i,
{
    if i == s.len() {
        assert(s.subrange(0, i) =~= s);
    } else {
        let p = s.subrange(0, i);
        let q = s.subrange(0, i + 1);
        assert(q.drop_last() =~= p);
        assert(q.last() == s[i]);
        lemma_color_stuck(s, i + 1);
    }
}

/// Split a hostname into its colour segments, following [`segments_spec`].
pub fn hostname_segments(host: &str) -> (r: Option<Vec<(u8, String)>>)
    ensures
        match segments_spec(host@) {
            Some(v) => r matches Some(rv) && rv.deep_view() == v,
            None => r is None,
        },
{
    let n = host.unicode_len();
    let mut escaped = false;
    let mut color: u8 = 0;
    let mut cur = String::new();
    let mut segs: Vec<(u8, String)> = Vec::new();
    let mut i: usize = 0;
    while i < n
        invariant
            i <= n,
            n == host@.len(),
            ({
                let st = color_run(host@.subrange(0, i as int));
                st.ok && escaped == st.escaped && color == st.color && cur@ == st.cur
                    && segs.deep_view() == st.segs
            }),
        decreases n - i,
    {
        let ghost st = color_run(host@.subrange(0, i as int));
        let c = host.get_char(i);
        proof {
            let p = host@.subrange(0, i as int);
            let q = host@.subrange(0, i + 1);
            assert(q.drop_last() =~= p);
            assert(q.last() == host@[i as int]);
        }
        if c == '^' {
            segs.push((color, cur));
            cur = String::new();
            escaped = true;
            proof {
                assert(segs.deep_view() =~~= st.segs.push((st.color, st.cur)));
            }
        } else if escaped {
            if c >= '0' && c <= '9' {
                color = (c as u8) - 48;
                escaped = false;
                proof {
                    assert(color == digit_code(host@[i as int]));
                }
            } else {
                proof {
                    assert(!color_run(host@.subrange(0, i + 1)).ok);
                    lemma_color_stuck(host@, i + 1);
                }
                return None;
            }
        } else {
            push_char(&mut cur, c);
        }
        i = i + 1;
    }
    proof {
        assert(host@.subrange(0, n as int) =~= host@);
    }
    let ghost st = color_run(host@);
    segs.push((color, cur));
    proof {
        assert(segs.deep_view() =~~= st.segs.push((st.color, st.cur)));
    }
    Some(segs)
}

} // verus!
