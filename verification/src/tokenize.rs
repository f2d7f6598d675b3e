//! Splitting one configuration line into whitespace-delimited tokens.
//!
//! A double quote toggles a "quoted span" flag and is never part of a token;
//! a space outside a quoted span ends the current token; every other
//! character is appended to it. A pending nonempty token is flushed at the
//! end of the line. Unterminated quotes are tolerated: the flag simply stays
//! set for the rest of the line.

use vstd::prelude::*;
use crate::strings::push_char;

verus! {

/// The running state of the tokenizer: whether a quoted span is open, the
/// token being accumulated, and the tokens already produced.
pub ghost struct TokState {
    pub in_quote: bool,
    pub cur: Seq<char>,
    pub toks: Seq<Seq<char>>,
}

/// The state before any character has been read.
pub open spec fn tok_init() -> TokState {
    TokState { in_quote: false, cur: Seq::empty(), toks: Seq::empty() }
}

/// One character of tokenization.
pub open spec fn tok_step(st: TokState, c: char) -> TokState {
    if c == '"' {
        TokState { in_quote: !st.in_quote, cur: st.cur, toks: st.toks }
    } else if c == ' ' && !st.in_quote {
        if st.cur.len() > 0 {
            TokState { in_quote: st.in_quote, cur: Seq::empty(), toks: st.toks.push(st.cur) }
        } else {
            st
        }
    } else {
        TokState { in_quote: st.in_quote, cur: st.cur.push(c), toks: st.toks }
    }
}

/// Run the tokenizer over `s`, starting from state `st`.
pub open spec fn tok_run_from(st: TokState, s: Seq<char>) -> TokState
    decreases s.len(),
{
    if s.len() == 0 {
        st
    } else {
        tok_step(tok_run_from(st, s.drop_last()), s.last())
    }
}

/// The tokens of one line: run the tokenizer from the initial state and
/// flush a nonempty pending token.
pub open spec fn tokenize(s: Seq<char>) -> Seq<Seq<char>> {
    let st = tok_run_from(tok_init(), s);
    if st.cur.len() > 0 {
        st.toks.push(st.cur)
    } else {
        st.toks
    }
}

/// No character of `t` is a space.
pub open spec fn space_free(t: Seq<char>) -> bool {
    forall|i: int| 0 <= i < t.len() ==> #[trigger] t[i] != ' '
}

/// No character of `t` is a double quote.
pub open spec fn quote_free(t: Seq<char>) -> bool {
    forall|i: int| 0 <= i < t.len() ==> #[trigger] t[i] != '"'
}

/// The tokens rejoined with one space between each pair.
pub open spec fn join_tokens(ts: Seq<Seq<char>>) -> Seq<char>
    decreases ts.len(),
{
    if ts.len() == 0 {
        Seq::empty()
    } else if ts.len() == 1 {
        ts[0]
    } else {
        join_tokens(ts.drop_last()) + seq![' '] + ts.last()
    }
}

/// Split one line of a configuration file into its tokens.
pub fn config_line_split(line: String) -> (parts: Vec<String>)
    ensures
        parts.deep_view() == tokenize(line@),
{
    let s = line.as_str();
    let n = s.unicode_len();
    let mut parts: Vec<String> = Vec::new();
    let mut part = String::new();
    let mut in_quote = false;
    let mut i: usize = 0;
    while i < n
        invariant
            i <= n,
            n == line@.len(),
            s@ == line@,
            ({
                let st = tok_run_from(tok_init(), line@.subrange(0, i as int));
                in_quote == st.in_quote && part@ == st.cur && parts.deep_view() == st.toks
            }),
        decreases n - i,
    {
        let ghost st = tok_run_from(tok_init(), line@.subrange(0, i as int));
        let c = s.get_char(i);
        proof {
            let p = line@.subrange(0, i as int);
            let q = line@.subrange(0, i + 1);
            assert(q.drop_last() =~= p);
            assert(q.last() == line@[i as int]);
        }
        if c == '"' {
            in_quote = !in_quote;
        } else if c == ' ' && !in_quote {
            if !part.as_str().is_empty() {
                parts.push(part);
                part = String::new();
                proof {
                    assert(parts.deep_view() =~~= st.toks.push(st.cur));
                }
            }
        } else {
            push_char(&mut part, c);
        }
        i = i + 1;
    }
    proof {
        assert(line@.subrange(0, n as int) =~= line@);
    }
    if !part.as_str().is_empty() {
        let ghost st = tok_run_from(tok_init(), line@);
        parts.push(part);
        proof {
            assert(parts.deep_view() =~~= st.toks.push(st.cur));
        }
    }
    parts
}

/// A tokenizer state is well formed when every finished token is nonempty
/// and quote-free, and the pending token is quote-free.
pub open spec fn tok_state_wf(st: TokState) -> bool {
    &&& forall|k: int|
        0 <= k < st.toks.len() ==> (#[trigger] st.toks[k]).len() > 0 && quote_free(st.toks[k])
    &&& quote_free(st.cur)
}

/// Running the tokenizer preserves well-formedness of its state.
proof fn lemma_tok_run_wf(st: TokState, s: Seq<char>)
    requires
        tok_state_wf(st),
    ensures
        tok_state_wf(tok_run_from(st, s)),
    decreases s.len(),
{
    if s.len() > 0 {
        lemma_tok_run_wf(st, s.drop_last());
        let m = tok_run_from(st, s.drop_last());
        let c = s.last();
        let r = tok_step(m, c);
        if c == '"' {
        } else if c == ' ' && !m.in_quote {
            if m.cur.len() > 0 {
                assert(forall|k: int|
                    0 <= k < m.toks.len() ==> m.toks.push(m.cur)[k] == #[trigger] m.toks[k]);
                assert(m.toks.push(m.cur)[m.toks.len() as int] == m.cur);
            }
        } else {
            assert(forall|j: int| 0 <= j < m.cur.len() ==> m.cur.push(c)[j] == #[trigger] m.cur[j]);
            assert(quote_free(m.cur.push(c)));
        }
    }
}

/// Running over a concatenation is running over each part in turn.
proof fn lemma_tok_run_append(st: TokState, a: Seq<char>, b: Seq<char>)
    ensures
        tok_run_from(st, a + b) == tok_run_from(tok_run_from(st, a), b),
    decreases b.len(),
{
    if b.len() == 0 {
        assert(a + b =~= a);
    } else {
        lemma_tok_run_append(st, a, b.drop_last());
        assert((a + b).drop_last() =~= a + b.drop_last());
        assert((a + b).last() == b.last());
        assert(tok_run_from(st, a + b) == tok_step(tok_run_from(st, (a + b).drop_last()), b.last()));
    }
}

/// Over a nonempty word with no spaces and no quotes, the tokenizer only
/// extends the pending token.
proof fn lemma_tok_run_word(st: TokState, w: Seq<char>)
    requires
        !st.in_quote,
        space_free(w),
        quote_free(w),
    ensures
        tok_run_from(st, w).in_quote == st.in_quote,
        tok_run_from(st, w).cur == st.cur + w,
        tok_run_from(st, w).toks == st.toks,
    decreases w.len(),
{
    if w.len() == 0 {
        assert(st.cur + w =~= st.cur);
    } else {
        let p = w.drop_last();
        assert(space_free(p) && quote_free(p)) by {
            assert(forall|i: int| 0 <= i < p.len() ==> p[i] == #[trigger] w[i]);
        }
        lemma_tok_run_word(st, p);
        let c = w.last();
        assert((st.cur + p).push(c) =~= st.cur + w);
    }
}

/// Rejoining well-formed, space-free tokens and running the tokenizer over
/// the result reproduces exactly those tokens, with the last one pending.
proof fn lemma_tok_run_join(ts: Seq<Seq<char>>)
    requires
        ts.len() >= 1,
        forall|k: int|
            0 <= k < ts.len() ==> (#[trigger] ts[k]).len() > 0 && space_free(ts[k]) && quote_free(
                ts[k],
            ),
    ensures
        tok_run_from(tok_init(), join_tokens(ts)).in_quote == false,
        tok_run_from(tok_init(), join_tokens(ts)).cur == ts.last(),
        tok_run_from(tok_init(), join_tokens(ts)).toks == ts.drop_last(),
    decreases ts.len(),
{
    if ts.len() == 1 {
        lemma_tok_run_word(tok_init(), ts[0]);
        assert(Seq::<char>::empty() + ts[0] =~= ts[0]);
        assert(tok_init().toks =~~= ts.drop_last());
    } else {
        let dl = ts.drop_last();
        assert(forall|k: int|
            0 <= k < dl.len() ==> dl[k] == #[trigger] ts[k]);
        lemma_tok_run_join(dl);
        let a = join_tokens(dl);
        let st1 = tok_run_from(tok_init(), a);
        lemma_tok_run_append(tok_init(), a, seq![' ']);
        assert(seq![' '].drop_last() =~= Seq::<char>::empty());
        let st2 = tok_run_from(st1, seq![' ']);
        assert(seq![' '].len() == 1 && seq![' '].last() == ' ');
        assert(st2 == tok_step(tok_run_from(st1, seq![' '].drop_last()), ' '));
        assert(tok_run_from(st1, Seq::<char>::empty()) == st1);
        assert(st2 == tok_step(st1, ' '));
        assert(st2.cur =~= Seq::<char>::empty());
        assert(st2.toks == dl.drop_last().push(dl.last()));
        assert(dl.drop_last().push(dl.last()) =~~= dl);
        lemma_tok_run_append(tok_init(), a + seq![' '], ts.last());
        lemma_tok_run_word(st2, ts.last());
        assert(join_tokens(ts) == a + seq![' '] + ts.last());
        assert(st2.cur + ts.last() =~= ts.last());
    }
}

/// Tokenization is idempotent over its own rejoined output: when no token of
/// a line keeps an inner space (a space survives only inside a quoted span),
/// rejoining the tokens with single spaces and tokenizing again yields the
/// same token sequence.
pub proof fn lemma_tokenize_rejoin(line: Seq<char>)
    requires
        forall|k: int| 0 <= k < tokenize(line).len() ==> space_free(#[trigger] tokenize(line)[k]),
    ensures
        tokenize(join_tokens(tokenize(line))) == tokenize(line),
{
    let ts = tokenize(line);
    let st = tok_run_from(tok_init(), line);
    lemma_tok_run_wf(tok_init(), line);
    if ts.len() == 0 {
        assert(join_tokens(ts) =~= Seq::<char>::empty());
        assert(tokenize(join_tokens(ts)) =~~= ts);
    } else {
        assert(forall|k: int|
            0 <= k < ts.len() ==> (#[trigger] ts[k]).len() > 0 && quote_free(ts[k])) by {
            if st.cur.len() > 0 {
                assert(forall|k: int|
                    0 <= k < st.toks.len() ==> ts[k] == #[trigger] st.toks[k]);
                assert(ts[st.toks.len() as int] == st.cur);
            }
        }
        lemma_tok_run_join(ts);
        let r = tok_run_from(tok_init(), join_tokens(ts));
        assert(r.cur.len() > 0);
        assert(tokenize(join_tokens(ts)) == ts.drop_last().push(ts.last()));
        assert(ts.drop_last().push(ts.last()) =~~= ts);
    }
}

} // verus!
