//! Splitting one sub-command into words.
use vstd::prelude::*;
use crate::chain::quoted_region;
use crate::text::{chars_of, string_of};

verus! {

/// Where the lexer stands between two characters.
#[derive(PartialEq, Eq, Structural, Debug, Clone, Copy)]
pub enum LexState {
    /// Between words.
    Between,
    /// Inside a word that did not start with a quote.
    Bare,
    /// Inside a `"`-quoted run within such a word.
    Spliced,
    /// Inside a word that started with the given quote character.
    Quoted(char),
}

/// `w` as a list of words: empty words are dropped.
pub open spec fn emit(w: Seq<char>) -> Seq<Seq<char>> {
    if w.len() > 0 { seq![w] } else { seq![] }
}

/// The words of `s` from position `i` on, in state `st`, with `cur` the word
/// read so far.
pub open spec fn lex(s: Seq<char>, i: int, st: LexState, cur: Seq<char>) -> Seq<Seq<char>>
    decreases s.len() - i,
{
    if i >= s.len() {
        emit(cur)
    } else {
        let c = s[i];
        match st {
            LexState::Between => if c == ' ' {
                lex(s, i + 1, LexState::Between, seq![])
            } else if c == '"' || c == '\'' {
                lex(s, i + 1, LexState::Quoted(c), seq![])
            } else {
                lex(s, i + 1, LexState::Bare, seq![c])
            },
            LexState::Bare => if c == ' ' {
                emit(cur) + lex(s, i + 1, LexState::Between, seq![])
            } else if c == '"' {
                lex(s, i + 1, LexState::Spliced, cur)
            } else {
                lex(s, i + 1, LexState::Bare, cur.push(c))
            },
            LexState::Spliced => if c == '"' {
                lex(s, i + 1, LexState::Bare, cur)
            } else {
                lex(s, i + 1, LexState::Spliced, cur.push(c))
            },
            LexState::Quoted(q) => if c == q {
                emit(cur) + lex(s, i + 1, LexState::Between, seq![])
            } else {
                lex(s, i + 1, LexState::Quoted(q), cur.push(c))
            },
        }
    }
}

/// The words of a whole sub-command.
pub open spec fn words(s: Seq<char>) -> Seq<Seq<char>> {
    lex(s, 0, LexState::Between, seq![])
}

/// Splits a sub-command into words. Words are separated by spaces; a word
/// that starts with `"` or `'` runs to the matching quote, which is dropped;
/// a `"`-quoted run inside a bare word is part of that word. An unclosed
/// quote runs to the end. Empty words are dropped.
pub fn splitter(input: &String) -> (r: Vec<String>)
    ensures
        r@.len() == words(input@).len(),
        forall|k: int| 0 <= k < r@.len() ==> #[trigger] r@[k]@ == words(input@)[k],
{
    let v = chars_of(input.as_str());
    let n = v.len();
    let mut out: Vec<String> = Vec::new();
    let ghost mut done: Seq<Seq<char>> = seq![];
    let mut cur: Vec<char> = Vec::new();
    let mut st = LexState::Between;
    let mut i: usize = 0;
    while i < n
        invariant
            n == v@.len(),
            v@ == input@,
            i <= n,
            words(v@) == done + lex(v@, i as int, st, cur@),
            out@.len() == done.len(),
            forall|k: int| 0 <= k < out@.len() ==> #[trigger] out@[k]@ == done[k],
        decreases n - i,
    {
        let c = v[i];
        let mut finish = false;
        match st {
            LexState::Between => {
                if c == '"' || c == '\'' {
                    st = LexState::Quoted(c);
                    cur = Vec::new();
                } else if c != ' ' {
                    st = LexState::Bare;
                    cur = Vec::new();
                    cur.push(c);
                } else {
                    cur = Vec::new();
                }
            },
            LexState::Bare => {
                if c == ' ' {
                    finish = true;
                } else if c == '"' {
                    st = LexState::Spliced;
                } else {
                    cur.push(c);
                }
            },
            LexState::Spliced => {
                if c == '"' {
                    st = LexState::Bare;
                } else {
                    cur.push(c);
                }
            },
            LexState::Quoted(q) => {
                if c == q {
                    finish = true;
                } else {
                    cur.push(c);
                }
            },
        }
        if finish {
            proof {
                assert(done + (emit(cur@) + lex(v@, i + 1, LexState::Between, seq![]))
                    =~= (done + emit(cur@)) + lex(v@, i + 1, LexState::Between, seq![]));
            }
            if cur.len() > 0 {
                let w = string_of(&cur, 0, cur.len());
                assert(cur@.subrange(0, cur@.len() as int) =~= cur@);
                out.push(w);
                proof {
                    done = done + seq![cur@];
                }
            } else {
                assert(done + emit(cur@) =~= done);
            }
            st = LexState::Between;
            cur = Vec::new();
            assert(cur@ =~= seq![]);
        }
        i = i + 1;
    }
    if cur.len() > 0 {
        let w = string_of(&cur, 0, cur.len());
        assert(cur@.subrange(0, cur@.len() as int) =~= cur@);
        out.push(w);
        proof {
            done = done + seq![cur@];
        }
    } else {
        assert(done + emit(cur@) =~= done);
    }
    assert(words(v@) =~= done);
    out
}

/// The state after reading `c` in state `st`.
pub open spec fn lex_next(st: LexState, c: char) -> LexState {
    match st {
        LexState::Between => if c == ' ' {
            LexState::Between
        } else if c == '"' || c == '\'' {
            LexState::Quoted(c)
        } else {
            LexState::Bare
        },
        LexState::Bare => if c == ' ' {
            LexState::Between
        } else if c == '"' {
            LexState::Spliced
        } else {
            LexState::Bare
        },
        LexState::Spliced => if c == '"' { LexState::Bare } else { LexState::Spliced },
        LexState::Quoted(q) => if c == q { LexState::Between } else { LexState::Quoted(q) },
    }
}

/// Reading `s` from position `i` in state `st` ends between words.
pub open spec fn lex_closes(s: Seq<char>, i: int, st: LexState) -> bool
    decreases s.len() - i,
{
    if i >= s.len() {
        st == LexState::Between
    } else {
        lex_closes(s, i + 1, lex_next(st, s[i]))
    }
}

proof fn lemma_lex_shift(x: Seq<char>, t: Seq<char>, k: int, st: LexState, cur: Seq<char>)
    requires
        0 <= k,
    ensures
        lex(x + t, x.len() + k, st, cur) == lex(t, k, st, cur),
    decreases t.len() - k,
{
    if k < t.len() {
        let s = x + t;
        let c = t[k];
        assert(s[x.len() + k] == c);
        match st {
            LexState::Between => if c == ' ' {
                lemma_lex_shift(x, t, k + 1, LexState::Between, seq![]);
            } else if c == '"' || c == '\'' {
                lemma_lex_shift(x, t, k + 1, LexState::Quoted(c), seq![]);
            } else {
                lemma_lex_shift(x, t, k + 1, LexState::Bare, seq![c]);
            },
            LexState::Bare => if c == ' ' {
                lemma_lex_shift(x, t, k + 1, LexState::Between, seq![]);
            } else if c == '"' {
                lemma_lex_shift(x, t, k + 1, LexState::Spliced, cur);
            } else {
                lemma_lex_shift(x, t, k + 1, LexState::Bare, cur.push(c));
            },
            LexState::Spliced => if c == '"' {
                lemma_lex_shift(x, t, k + 1, LexState::Bare, cur);
            } else {
                lemma_lex_shift(x, t, k + 1, LexState::Spliced, cur.push(c));
            },
            LexState::Quoted(q) => if c == q {
                lemma_lex_shift(x, t, k + 1, LexState::Between, seq![]);
            } else {
                lemma_lex_shift(x, t, k + 1, LexState::Quoted(q), cur.push(c));
            },
        }
    }
}

proof fn lemma_lex_closed_prefix(a: Seq<char>, t: Seq<char>, i: int, st: LexState, cur: Seq<char>)
    requires
        0 <= i <= a.len(),
        lex_closes(a, i, st),
        st == LexState::Between ==> cur.len() == 0,
    ensures
        lex(a + t, i, st, cur) == lex(a, i, st, cur) + words(t),
    decreases a.len() - i,
{
    let s = a + t;
    if i == a.len() {
        lemma_lex_shift(a, t, 0, st, cur);
        assert(cur =~= Seq::<char>::empty());
        assert(lex(a, i, st, cur) =~= Seq::<Seq<char>>::empty());
        assert(lex(a + t, i, st, cur) =~= lex(a, i, st, cur) + words(t));
    } else {
        let c = a[i];
        assert(s[i] == c);
        match st {
            LexState::Between => if c == ' ' {
                lemma_lex_closed_prefix(a, t, i + 1, LexState::Between, seq![]);
            } else if c == '"' || c == '\'' {
                lemma_lex_closed_prefix(a, t, i + 1, LexState::Quoted(c), seq![]);
            } else {
                lemma_lex_closed_prefix(a, t, i + 1, LexState::Bare, seq![c]);
            },
            LexState::Bare => if c == ' ' {
                lemma_lex_closed_prefix(a, t, i + 1, LexState::Between, seq![]);
                assert(emit(cur) + (lex(a, i + 1, LexState::Between, seq![]) + words(t)) =~= (emit(cur)
                    + lex(a, i + 1, LexState::Between, seq![])) + words(t));
            } else if c == '"' {
                lemma_lex_closed_prefix(a, t, i + 1, LexState::Spliced, cur);
            } else {
                lemma_lex_closed_prefix(a, t, i + 1, LexState::Bare, cur.push(c));
            },
            LexState::Spliced => if c == '"' {
                lemma_lex_closed_prefix(a, t, i + 1, LexState::Bare, cur);
            } else {
                lemma_lex_closed_prefix(a, t, i + 1, LexState::Spliced, cur.push(c));
            },
            LexState::Quoted(q) => if c == q {
                lemma_lex_closed_prefix(a, t, i + 1, LexState::Between, seq![]);
                assert(emit(cur) + (lex(a, i + 1, LexState::Between, seq![]) + words(t)) =~= (emit(cur)
                    + lex(a, i + 1, LexState::Between, seq![])) + words(t));
            } else {
                lemma_lex_closed_prefix(a, t, i + 1, LexState::Quoted(q), cur.push(c));
            },
        }
    }
}

proof fn lemma_lex_through_quote(q: Seq<char>, b: Seq<char>, i: int)
    requires
        quoted_region(q),
        1 <= i <= q.len() - 1,
    ensures
        lex(q + b, i, LexState::Quoted(q[0]), q.subrange(1, i)) == emit(q.subrange(1, q.len() - 1)) + words(b),
    decreases q.len() - i,
{
    let s = q + b;
    assert(s[i] == q[i]);
    if i < q.len() - 1 {
        assert(q.subrange(1, i).push(q[i]) =~= q.subrange(1, i + 1));
        lemma_lex_through_quote(q, b, i + 1);
    } else {
        lemma_lex_shift(q, b, 0, LexState::Between, seq![]);
    }
}

/// The lexer never splits a quoted region: where `a` ends between words, a
/// quoted region `q` that follows makes exactly one word, its contents
/// without the quotes (none if they are empty), between the words of `a`
/// and those of `b`.
pub proof fn lemma_lexer_keeps_quotes(a: Seq<char>, q: Seq<char>, b: Seq<char>)
    requires
        lex_closes(a, 0, LexState::Between),
        quoted_region(q),
    ensures
        words(a + q + b) == words(a) + emit(q.subrange(1, q.len() - 1)) + words(b),
{
    let t = q + b;
    assert(a + q + b =~= a + t);
    lemma_lex_closed_prefix(a, t, 0, LexState::Between, seq![]);
    assert(t[0] == q[0]);
    assert(q.subrange(1, 1) =~= Seq::<char>::empty());
    lemma_lex_through_quote(q, b, 1);
    assert(words(t) == lex(t, 1, LexState::Quoted(q[0]), seq![]));
    assert(words(a) + (emit(q.subrange(1, q.len() - 1)) + words(b)) =~= words(a) + emit(q.subrange(1, q.len() - 1))
        + words(b));
}

} // verus!
