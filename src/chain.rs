//! Splitting an input line into sub-commands joined by control operators.
use vstd::prelude::*;
use crate::text::{chars_of, trim, trimmed_string};

verus! {

/// The control operator that ends a sub-command.
#[derive(PartialEq, Eq, Structural, Debug, Clone, Copy)]
pub enum Separator {
    /// `&&`
    Ampersand,
    /// `|`
    Pipe,
    /// End of the line.
    Empty,
    /// `;`
    SemiColon,
    /// `>`
    WriteRedirection,
    /// `>>`
    WriteAppendRedirection,
    /// `<`
    ReadRedirection,
    /// `<<`
    HeredocRedirection,
}

/// One sub-command of a line, with the operator that follows it.
#[derive(Clone, Debug)]
pub struct CommandObject {
    pub text: String,
    pub separator: Separator,
    pub status_code: i32,
}

pub open spec fn is_quote(c: char) -> bool {
    c == '\'' || c == '"'
}

/// The operator that starts at position `i` of `s`, with its width.
/// Two-character operators win over their one-character prefixes.
pub open spec fn op_at(s: Seq<char>, i: int) -> Option<(Separator, int)> {
    let two = i + 1 < s.len();
    if s[i] == '&' && two && s[i + 1] == '&' {
        Some((Separator::Ampersand, 2))
    } else if s[i] == '>' && two && s[i + 1] == '>' {
        Some((Separator::WriteAppendRedirection, 2))
    } else if s[i] == '<' && two && s[i + 1] == '<' {
        Some((Separator::HeredocRedirection, 2))
    } else if s[i] == '>' {
        Some((Separator::WriteRedirection, 1))
    } else if s[i] == '<' {
        Some((Separator::ReadRedirection, 1))
    } else if s[i] == '|' {
        Some((Separator::Pipe, 1))
    } else if s[i] == ';' {
        Some((Separator::SemiColon, 1))
    } else {
        None
    }
}

/// The sub-commands of `s` that remain when the scan stands at position `i`,
/// the pending one having started at `j`, in quote state `q` (the open quote
/// character, if any). Each holds its untrimmed text and its operator.
pub open spec fn pieces(s: Seq<char>, j: int, i: int, q: Option<char>) -> Seq<(Seq<char>, Separator)>
    decreases s.len() - i,
{
    if i >= s.len() {
        seq![(s.subrange(j, s.len() as int), Separator::Empty)]
    } else {
        match q {
            Some(c) => pieces(s, j, i + 1, if s[i] == c { None } else { Some(c) }),
            None => if is_quote(s[i]) {
                pieces(s, j, i + 1, Some(s[i]))
            } else {
                match op_at(s, i) {
                    Some((sep, w)) => seq![(s.subrange(j, i), sep)] + pieces(s, i + w, i + w, None),
                    None => pieces(s, j, i + 1, None),
                }
            },
        }
    }
}

/// The sub-commands of a whole line, untrimmed.
pub open spec fn raw_chain(s: Seq<char>) -> Seq<(Seq<char>, Separator)> {
    pieces(s, 0, 0, None)
}

/// `c` reflects the raw piece `p`: trimmed text, same operator, status 0.
pub open spec fn command_of(c: CommandObject, p: (Seq<char>, Separator)) -> bool {
    c.text@ == trim(p.0) && c.separator == p.1 && c.status_code == 0
}

/// A scan always yields at least one sub-command, the last tagged `Empty`.
proof fn lemma_pieces_shape(s: Seq<char>, j: int, i: int, q: Option<char>)
    requires
        0 <= j <= i,
        j <= s.len(),
    ensures
        pieces(s, j, i, q).len() >= 1,
        pieces(s, j, i, q).last().1 == Separator::Empty,
    decreases s.len() - i,
{
    if i < s.len() {
        match q {
            Some(c) => lemma_pieces_shape(s, j, i + 1, if s[i] == c { None } else { Some(c) }),
            None => if is_quote(s[i]) {
                lemma_pieces_shape(s, j, i + 1, Some(s[i]));
            } else {
                match op_at(s, i) {
                    Some((sep, w)) => lemma_pieces_shape(s, i + w, i + w, None),
                    None => lemma_pieces_shape(s, j, i + 1, None),
                }
            },
        }
    }
}

/// The operator that starts at position `i` of `v`, with its width.
fn op_at_exec(v: &Vec<char>, i: usize) -> (r: Option<(Separator, usize)>)
    requires
        i < v@.len(),
    ensures
        match op_at(v@, i as int) {
            Some((sep, w)) => r == Some((sep, w as usize)),
            None => r.is_none(),
        },
{
    let two = i < v.len() - 1;
    let c = v[i];
    if c == '&' && two && v[i + 1] == '&' {
        Some((Separator::Ampersand, 2))
    } else if c == '>' && two && v[i + 1] == '>' {
        Some((Separator::WriteAppendRedirection, 2))
    } else if c == '<' && two && v[i + 1] == '<' {
        Some((Separator::HeredocRedirection, 2))
    } else if c == '>' {
        Some((Separator::WriteRedirection, 1))
    } else if c == '<' {
        Some((Separator::ReadRedirection, 1))
    } else if c == '|' {
        Some((Separator::Pipe, 1))
    } else if c == ';' {
        Some((Separator::SemiColon, 1))
    } else {
        None
    }
}

/// Splits a line into its sub-commands, each tagged with the operator that
/// follows it; the last is tagged `Empty`. Operator characters inside single
/// or double quotes are not operators; an unclosed quote runs to the end.
pub fn arg_split(input: &mut String) -> (r: Vec<CommandObject>)
    ensures
        *final(input) == *old(input),
        r@.len() == raw_chain(old(input)@).len(),
        forall|k: int| 0 <= k < r@.len() ==> command_of(#[trigger] r@[k], raw_chain(old(input)@)[k]),
        r@.len() >= 1,
        r@.last().separator == Separator::Empty,
{
    let v = chars_of(input.as_str());
    let n = v.len();
    let mut out: Vec<CommandObject> = Vec::new();
    let ghost mut done: Seq<(Seq<char>, Separator)> = seq![];
    let mut j: usize = 0;
    let mut i: usize = 0;
    let mut q: Option<char> = None;
    while i < n
        invariant
            n == v@.len(),
            v@ == input@,
            j <= i <= n,
            raw_chain(v@) == done + pieces(v@, j as int, i as int, q),
            out@.len() == done.len(),
            forall|k: int| 0 <= k < out@.len() ==> command_of(#[trigger] out@[k], done[k]),
        decreases n - i,
    {
        let c = v[i];
        match q {
            Some(open) => {
                if c == open {
                    q = None;
                }
                i = i + 1;
            },
            None => {
                if c == '\'' || c == '"' {
                    q = Some(c);
                    i = i + 1;
                } else {
                    match op_at_exec(&v, i) {
                        Some((sep, w)) => {
                            let text = trimmed_string(&v, j, i);
                            let cmd = CommandObject { text, separator: sep, status_code: 0 };
                            proof {
                                let p = (v@.subrange(j as int, i as int), sep);
                                assert(command_of(cmd, p));
                                assert(done.push(p) + pieces(v@, i + w, i + w, None)
                                    =~= done + (seq![p] + pieces(v@, i + w, i + w, None)));
                                done = done.push(p);
                            }
                            out.push(cmd);
                            i = i + w;
                            j = i;
                        },
                        None => {
                            i = i + 1;
                        },
                    }
                }
            },
        }
    }
    let text = trimmed_string(&v, j, n);
    let cmd = CommandObject { text, separator: Separator::Empty, status_code: 0 };
    proof {
        let p = (v@.subrange(j as int, n as int), Separator::Empty);
        assert(command_of(cmd, p));
        assert(raw_chain(v@) =~= done.push(p));
        done = done.push(p);
    }
    out.push(cmd);
    out
}

/// Scanning `s` from position `i` in quote state `q` ends outside quotes.
pub open spec fn closes(s: Seq<char>, i: int, q: Option<char>) -> bool
    decreases s.len() - i,
{
    if i >= s.len() {
        q is None
    } else {
        match q {
            Some(c) => closes(s, i + 1, if s[i] == c { None } else { Some(c) }),
            None => closes(s, i + 1, if is_quote(s[i]) { Some(s[i]) } else { None }),
        }
    }
}

/// Every quote of `s` is closed.
pub open spec fn balanced(s: Seq<char>) -> bool {
    closes(s, 0, None)
}

/// `q` is one quoted region: it starts and ends with the same quote
/// character, which does not occur in between.
pub open spec fn quoted_region(q: Seq<char>) -> bool {
    &&& q.len() >= 2
    &&& is_quote(q[0])
    &&& q.last() == q[0]
    &&& forall|k: int| 0 < k < q.len() - 1 ==> #[trigger] q[k] != q[0]
}

/// `y` with `p` put in front of the text of its first sub-command.
pub open spec fn prefix_first(p: Seq<char>, y: Seq<(Seq<char>, Separator)>) -> Seq<(Seq<char>, Separator)> {
    seq![(p + y[0].0, y[0].1)] + y.drop_first()
}

/// The sub-commands of `x`, then those of `y`, where the last of `x` and the
/// first of `y` are one sub-command with `mid` between their texts.
pub open spec fn glue(x: Seq<(Seq<char>, Separator)>, mid: Seq<char>, y: Seq<(Seq<char>, Separator)>) -> Seq<(Seq<char>, Separator)> {
    x.drop_last() + prefix_first(x.last().0 + mid, y)
}

proof fn lemma_pieces_shift(x: Seq<char>, t: Seq<char>, j: int, k: int, q: Option<char>)
    requires
        0 <= j <= k,
        j <= t.len(),
    ensures
        pieces(x + t, x.len() + j, x.len() + k, q) == pieces(t, j, k, q),
    decreases t.len() - k,
{
    let s = x + t;
    let o = x.len() as int;
    if k >= t.len() {
        assert(s.subrange(o + j, s.len() as int) =~= t.subrange(j, t.len() as int));
    } else {
        assert(s[o + k] == t[k]);
        if k + 1 < t.len() {
            assert(s[o + k + 1] == t[k + 1]);
        }
        assert(op_at(s, o + k) == op_at(t, k));
        match q {
            Some(c) => lemma_pieces_shift(x, t, j, k + 1, if t[k] == c { None } else { Some(c) }),
            None => if is_quote(t[k]) {
                lemma_pieces_shift(x, t, j, k + 1, Some(t[k]));
            } else {
                match op_at(t, k) {
                    Some((sep, w)) => {
                        assert(s.subrange(o + j, o + k) =~= t.subrange(j, k));
                        lemma_pieces_shift(x, t, k + w, k + w, None);
                    },
                    None => lemma_pieces_shift(x, t, j, k + 1, None),
                }
            },
        }
    }
}

proof fn lemma_pieces_pending(x: Seq<char>, t: Seq<char>, j: int, k: int, q: Option<char>)
    requires
        0 <= j <= x.len(),
        0 <= k,
    ensures
        pieces(x + t, j, x.len() + k, q) == prefix_first(x.subrange(j, x.len() as int), pieces(t, 0, k, q)),
    decreases t.len() - k,
{
    let s = x + t;
    let o = x.len() as int;
    let p = x.subrange(j, o);
    lemma_pieces_shape(t, 0, k, q);
    if k >= t.len() {
        assert(s.subrange(j, s.len() as int) =~= p + t.subrange(0, t.len() as int));
        assert(pieces(t, 0, k, q).drop_first() =~= Seq::<(Seq<char>, Separator)>::empty());
        assert(pieces(s, j, o + k, q) =~= prefix_first(p, pieces(t, 0, k, q)));
    } else {
        assert(s[o + k] == t[k]);
        if k + 1 < t.len() {
            assert(s[o + k + 1] == t[k + 1]);
        }
        assert(op_at(s, o + k) == op_at(t, k));
        match q {
            Some(c) => lemma_pieces_pending(x, t, j, k + 1, if t[k] == c { None } else { Some(c) }),
            None => if is_quote(t[k]) {
                lemma_pieces_pending(x, t, j, k + 1, Some(t[k]));
            } else {
                match op_at(t, k) {
                    Some((sep, w)) => {
                        assert(s.subrange(j, o + k) =~= p + t.subrange(0, k));
                        lemma_pieces_shift(x, t, k + w, k + w, None);
                        let rest = pieces(t, k + w, k + w, None);
                        assert((seq![(t.subrange(0, k), sep)] + rest).drop_first() =~= rest);
                        assert(pieces(s, j, o + k, q) =~= prefix_first(p, pieces(t, 0, k, q)));
                    },
                    None => lemma_pieces_pending(x, t, j, k + 1, None),
                }
            },
        }
    }
}

proof fn lemma_pieces_closed_prefix(a: Seq<char>, t: Seq<char>, j: int, i: int, q: Option<char>)
    requires
        0 <= j <= i <= a.len(),
        t.len() > 0,
        is_quote(t[0]),
        closes(a, i, q),
    ensures
        pieces(a + t, j, i, q) == pieces(a, j, i, q).drop_last() + prefix_first(
            pieces(a, j, i, q).last().0,
            pieces(t, 0, 0, None),
        ),
    decreases a.len() - i,
{
    let s = a + t;
    lemma_pieces_shape(a, j, i, q);
    if i == a.len() {
        lemma_pieces_pending(a, t, j, 0, None);
        assert(pieces(a, j, i, q).drop_last() =~= Seq::<(Seq<char>, Separator)>::empty());
        assert(pieces(s, j, i, q) =~= pieces(a, j, i, q).drop_last() + prefix_first(
            pieces(a, j, i, q).last().0,
            pieces(t, 0, 0, None),
        ));
    } else {
        assert(s[i] == a[i]);
        if i + 1 < a.len() {
            assert(s[i + 1] == a[i + 1]);
        } else {
            assert(s[i + 1] == t[0]);
        }
        assert(op_at(s, i) == op_at(a, i));
        match q {
            Some(c) => lemma_pieces_closed_prefix(a, t, j, i + 1, if a[i] == c { None } else { Some(c) }),
            None => if is_quote(a[i]) {
                lemma_pieces_closed_prefix(a, t, j, i + 1, Some(a[i]));
            } else {
                match op_at(a, i) {
                    Some((sep, w)) => {
                        if w == 2 {
                            assert(!is_quote(a[i + 1]));
                            assert(closes(a, i + 1, None));
                        }
                        assert(closes(a, i + w, None));
                        lemma_pieces_closed_prefix(a, t, i + w, i + w, None);
                        lemma_pieces_shape(a, i + w, i + w, None);
                        let rest = pieces(a, i + w, i + w, None);
                        let head = seq![(a.subrange(j, i), sep)];
                        assert(s.subrange(j, i) =~= a.subrange(j, i));
                        assert((head + rest).drop_last() =~= head + rest.drop_last());
                        assert((head + rest).last() == rest.last());
                        let tail = prefix_first(rest.last().0, pieces(t, 0, 0, None));
                        assert(head + (rest.drop_last() + tail) =~= (head + rest.drop_last()) + tail);
                    },
                    None => lemma_pieces_closed_prefix(a, t, j, i + 1, None),
                }
            },
        }
    }
}

proof fn lemma_pieces_through_quote(q: Seq<char>, b: Seq<char>, i: int)
    requires
        quoted_region(q),
        1 <= i <= q.len() - 1,
    ensures
        pieces(q + b, 0, i, Some(q[0])) == pieces(q + b, 0, q.len() as int, None),
    decreases q.len() - i,
{
    let s = q + b;
    assert(s[i] == q[i]);
    if i < q.len() - 1 {
        lemma_pieces_through_quote(q, b, i + 1);
    }
}

/// The chain parser never cuts inside a quoted region: for `a` whose quotes
/// are all closed and a quoted region `q`, the sub-commands of `a + q + b`
/// are those of `a`, then those of `b`, where the sub-command that ends `a`
/// runs on through all of `q` into the first one of `b`.
pub proof fn lemma_chain_keeps_quotes(a: Seq<char>, q: Seq<char>, b: Seq<char>)
    requires
        balanced(a),
        quoted_region(q),
    ensures
        raw_chain(a + q + b) == glue(raw_chain(a), q, raw_chain(b)),
{
    let t = q + b;
    assert(a + q + b =~= a + t);
    assert(t[0] == q[0]);
    lemma_pieces_closed_prefix(a, t, 0, 0, None);
    assert(t[0] == q[0]);
    lemma_pieces_through_quote(q, b, 1);
    lemma_pieces_pending(q, b, 0, 0, None);
    assert(q.subrange(0, q.len() as int) =~= q);
    let bb = raw_chain(b);
    let p1 = raw_chain(a).last().0;
    lemma_pieces_shape(b, 0, 0, None);
    let inner = prefix_first(q, bb);
    assert(inner[0] == (q + bb[0].0, bb[0].1));
    assert(inner.drop_first() =~= bb.drop_first());
    assert(p1 + (q + bb[0].0) =~= (p1 + q) + bb[0].0);
    assert(prefix_first(p1, inner) =~= prefix_first(p1 + q, bb));
}

} // verus!
