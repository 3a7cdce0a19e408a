//! Replacing `$NAME` references by the values of the store.
use vstd::prelude::*;
use crate::store::Env;
use crate::text::{chars_of, string_of};

verus! {

/// A character that may stand in a variable name after `$`.
pub open spec fn is_name_char(c: char) -> bool {
    c != ' ' && c != '\'' && c != '"'
}

/// Whether `c` may stand in a variable name after `$`.
pub fn invalid_char_check(c: char) -> (r: bool)
    ensures
        r == is_name_char(c),
{
    c != ' ' && c != '\'' && c != '"'
}

/// The end of the run of name characters that starts at `i`.
pub open spec fn name_end(s: Seq<char>, i: int) -> int
    decreases s.len() - i,
{
    if i >= s.len() || !is_name_char(s[i]) {
        i
    } else {
        name_end(s, i + 1)
    }
}

/// The value of `name` in `m`, or nothing.
pub open spec fn lookup(m: Map<Seq<char>, Seq<char>>, name: Seq<char>) -> Seq<char> {
    if m.contains_key(name) { m[name] } else { Seq::empty() }
}

/// The expansion of `s` from position `i` on, `dq` telling whether a double
/// quote is open and `sq` whether a single-quoted region is.
pub open spec fn expand(s: Seq<char>, i: int, dq: bool, sq: bool, m: Map<Seq<char>, Seq<char>>) -> Seq<char>
    decreases s.len() - i,
{
    if i >= s.len() {
        Seq::empty()
    } else {
        let c = s[i];
        if sq {
            seq![c] + expand(s, i + 1, dq, c != '\'', m)
        } else if c == '\'' && !dq {
            seq![c] + expand(s, i + 1, dq, true, m)
        } else if c == '"' {
            seq![c] + expand(s, i + 1, !dq, false, m)
        } else if c == '$' {
            let e = name_end(s, i + 1);
            if i < e <= s.len() {
                lookup(m, s.subrange(i + 1, e)) + expand(s, e, dq, false, m)
            } else {
                // never taken: the name ends after the `$` and within `s`
                Seq::empty()
            }
        } else {
            seq![c] + expand(s, i + 1, dq, false, m)
        }
    }
}

/// Replaces each `$NAME` of `input` by the value of `NAME` in `env`, or by
/// nothing where `NAME` is unbound. `NAME` is the longest run after `$` of
/// characters other than space and quotes. A `$` inside a single-quoted
/// region (one not opened within double quotes) is left alone. The quotes
/// themselves are kept.
pub fn dollar_expander(env: &mut Env, input: String) -> (r: String)
    requires
        old(env).wf(),
    ensures
        *final(env) == *old(env),
        r@ == expand(input@, 0, false, false, old(env)@),
{
    let v = chars_of(input.as_str());
    let n = v.len();
    let mut out: Vec<char> = Vec::new();
    let mut dq = false;
    let mut sq = false;
    let mut i: usize = 0;
    while i < n
        invariant
            n == v@.len(),
            v@ == input@,
            i <= n,
            env.wf(),
            expand(v@, 0, false, false, env@) == out@ + expand(v@, i as int, dq, sq, env@),
        decreases n - i,
    {
        let c = v[i];
        if c == '$' && !sq {
            let mut e = i + 1;
            while e < n && invalid_char_check(v[e])
                invariant
                    i < e <= n,
                    n == v@.len(),
                    name_end(v@, i + 1) == name_end(v@, e as int),
                decreases n - e,
            {
                e = e + 1;
            }
            let name = string_of(&v, i + 1, e);
            let ghost before = out@;
            match env.get(name.as_str()) {
                Some(val) => {
                    let mut vc = chars_of(val.as_str());
                    out.append(&mut vc);
                },
                None => {},
            }
            assert(out@ == before + lookup(env@, v@.subrange(i + 1, e as int)));
            assert(before + (lookup(env@, v@.subrange(i + 1, e as int)) + expand(v@, e as int, dq, false, env@))
                =~= out@ + expand(v@, e as int, dq, false, env@));
            sq = false;
            i = e;
        } else {
            proof {
                assert(out@.push(c) + expand(v@, i + 1, dq, if sq { c != '\'' } else if c == '\'' && !dq { true } else { false }, env@)
                    =~= out@ + (seq![c] + expand(v@, i + 1, dq, if sq { c != '\'' } else if c == '\'' && !dq { true } else { false }, env@)));
            }
            if sq {
                sq = c != '\'';
            } else if c == '\'' && !dq {
                sq = true;
            } else if c == '"' {
                proof {
                    assert(out@.push(c) + expand(v@, i + 1, !dq, false, env@)
                        =~= out@ + (seq![c] + expand(v@, i + 1, !dq, false, env@)));
                }
                dq = !dq;
            }
            out.push(c);
            i = i + 1;
        }
    }
    assert(out@ + expand(v@, n as int, dq, sq, env@) =~= out@);
    string_of(&out, 0, out.len())
}

} // verus!
