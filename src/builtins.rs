//! The builtins that read or change the store and compute their output.
use vstd::prelude::*;
use crate::store::{key_index, lemma_len, lemma_view_at, valid_name, Env};
use crate::numbers::{decimal, format_i64, parse_i32, parse_i32_str};
use crate::text::{chars_of, string_of};

verus! {

/// The views of a list of strings.
pub open spec fn views(args: Seq<String>) -> Seq<Seq<char>> {
    args.map_values(|a: String| a@)
}

/// `ws` joined by single spaces.
pub open spec fn join(ws: Seq<Seq<char>>) -> Seq<char>
    decreases ws.len(),
{
    if ws.len() == 0 {
        Seq::empty()
    } else if ws.len() == 1 {
        ws[0]
    } else {
        join(ws.drop_last()) + seq![' '] + ws.last()
    }
}

/// What `echo` prints for the arguments `ws`.
pub open spec fn echo_text(ws: Seq<Seq<char>>) -> Seq<char> {
    if ws.len() > 0 && ws[0] == seq!['-', 'n'] {
        join(ws.drop_first())
    } else {
        join(ws) + seq!['\n']
    }
}

/// Appends the characters of `s` to `out`.
fn push_str(out: &mut Vec<char>, s: &str)
    ensures
        final(out)@ == old(out)@ + s@,
{
    let mut v = chars_of(s);
    out.append(&mut v);
}

/// Appends `args[from..]` joined by single spaces to `out`.
fn push_joined(out: &mut Vec<char>, args: &Vec<String>, from: usize)
    requires
        from <= args@.len(),
    ensures
        final(out)@ == old(out)@ + join(views(args@).skip(from as int)),
{
    let mut i = from;
    let ghost base = out@;
    while i < args.len()
        invariant
            from <= i <= args@.len(),
            out@ == base + join(views(args@).subrange(from as int, i as int)),
        decreases args@.len() - i,
    {
        let ghost ws = views(args@).subrange(from as int, i + 1);
        assert(ws.drop_last() =~= views(args@).subrange(from as int, i as int));
        if i > from {
            out.push(' ');
        }
        push_str(out, args[i].as_str());
        proof {
            if i == from {
                assert(join(views(args@).subrange(from as int, i as int)) =~= Seq::<char>::empty());
            }
        }
        assert(out@ =~= base + join(ws));
        i = i + 1;
    }
    assert(views(args@).subrange(from as int, args@.len() as int) =~= views(args@).skip(from as int));
}

/// What `echo` prints: the arguments joined by spaces and a newline; a first
/// argument `-n` is left out, and so is the newline.
pub fn echo_handler(args: &Vec<String>) -> (r: String)
    ensures
        r@ == echo_text(views(args@)),
{
    let mut out: Vec<char> = Vec::new();
    let mut no_newline = false;
    if args.len() > 0 {
        let first = chars_of(args[0].as_str());
        no_newline = first.len() == 2 && first[0] == '-' && first[1] == 'n';
        assert(no_newline == (views(args@)[0] == seq!['-', 'n'])) by {
            if first@.len() == 2 {
                assert(first@ =~= seq![first@[0], first@[1]]);
            }
        }
    }
    if no_newline {
        push_joined(&mut out, args, 1);
        assert(views(args@).skip(1) =~= views(args@).drop_first());
    } else {
        push_joined(&mut out, args, 0);
        assert(views(args@).skip(0) =~= views(args@));
        out.push('\n');
    }
    assert(out@ =~= echo_text(views(args@)));
    string_of(&out, 0, out.len())
}

/// The line that `export` prints for one binding.
pub open spec fn declare_line(k: Seq<char>, v: Seq<char>) -> Seq<char> {
    seq!['d', 'e', 'c', 'l', 'a', 'r', 'e', ' ', '-', 'x', ' '] + k + seq!['=', '"'] + v + seq!['"']
}

/// The line that `env` prints for one binding.
pub open spec fn env_line(k: Seq<char>, v: Seq<char>) -> Seq<char> {
    k + seq!['='] + v
}

/// The lines of `export`, one per entry, in the entries' order.
pub open spec fn export_lines(e: Seq<(Seq<char>, Seq<char>)>) -> Seq<Seq<char>> {
    e.map_values(|p: (Seq<char>, Seq<char>)| declare_line(p.0, p.1))
}

/// The lines of `env`, one per entry, in the entries' order.
pub open spec fn env_lines(e: Seq<(Seq<char>, Seq<char>)>) -> Seq<Seq<char>> {
    e.map_values(|p: (Seq<char>, Seq<char>)| env_line(p.0, p.1))
}

/// Lines, each ended by a newline.
pub open spec fn unlines(ls: Seq<Seq<char>>) -> Seq<char>
    decreases ls.len(),
{
    if ls.len() == 0 {
        Seq::empty()
    } else {
        unlines(ls.drop_last()) + ls.last() + seq!['\n']
    }
}

/// The text of `export` without arguments: every binding, in order of name.
pub fn export_no_args(env: &Env) -> (r: String)
    ensures
        r@ == unlines(export_lines(env.entries())),
{
    let n = env.entry_count();
    let mut out: Vec<char> = Vec::new();
    let mut i: usize = 0;
    while i < n
        invariant
            n == env.entries().len(),
            i <= n,
            out@ == unlines(export_lines(env.entries()).take(i as int)),
        decreases n - i,
    {
        let (k, v) = env.entry(i);
        push_str(&mut out, "declare -x ");
        push_str(&mut out, k.as_str());
        push_str(&mut out, "=\"");
        push_str(&mut out, v.as_str());
        push_str(&mut out, "\"");
        out.push('\n');
        proof {
            reveal_strlit("declare -x ");
            reveal_strlit("=\"");
            reveal_strlit("\"");
            let ls = export_lines(env.entries()).take(i + 1);
            assert(ls.drop_last() =~= export_lines(env.entries()).take(i as int));
            assert(out@ =~= unlines(ls));
        }
        i = i + 1;
    }
    assert(export_lines(env.entries()).take(n as int) =~= export_lines(env.entries()));
    string_of(&out, 0, out.len())
}

/// The text of `env`: every binding as `NAME=VALUE`, in order of name.
pub fn print_env(env: &Env) -> (r: String)
    ensures
        r@ == unlines(env_lines(env.entries())),
{
    let n = env.entry_count();
    let mut out: Vec<char> = Vec::new();
    let mut i: usize = 0;
    while i < n
        invariant
            n == env.entries().len(),
            i <= n,
            out@ == unlines(env_lines(env.entries()).take(i as int)),
        decreases n - i,
    {
        let (k, v) = env.entry(i);
        push_str(&mut out, k.as_str());
        out.push('=');
        push_str(&mut out, v.as_str());
        out.push('\n');
        proof {
            let ls = env_lines(env.entries()).take(i + 1);
            assert(ls.drop_last() =~= env_lines(env.entries()).take(i as int));
            assert(out@ =~= unlines(ls));
        }
        i = i + 1;
    }
    assert(env_lines(env.entries()).take(n as int) =~= env_lines(env.entries()));
    string_of(&out, 0, out.len())
}

/// The position of the first `=` of `a` at or after `i`, or the length of `a`.
pub open spec fn eq_index(a: Seq<char>, i: int) -> int
    decreases a.len() - i,
{
    if i >= a.len() || a[i] == '=' {
        i
    } else {
        eq_index(a, i + 1)
    }
}

/// The store `m` after `export a`: `NAME=VALUE` binds `NAME` (the text before
/// the first `=`, which must not be empty) to `VALUE` (all after it); an
/// argument of any other form changes nothing.
pub open spec fn export_one(m: Map<Seq<char>, Seq<char>>, a: Seq<char>) -> Map<Seq<char>, Seq<char>> {
    let p = eq_index(a, 0);
    if 0 < p < a.len() {
        m.insert(a.take(p), a.skip(p + 1))
    } else {
        m
    }
}

/// The store `m` after `export` of each of `ws` in turn.
pub open spec fn export_all(m: Map<Seq<char>, Seq<char>>, ws: Seq<Seq<char>>) -> Map<Seq<char>, Seq<char>>
    decreases ws.len(),
{
    if ws.len() == 0 {
        m
    } else {
        export_one(export_all(m, ws.drop_last()), ws.last())
    }
}

/// The store `m` after `unset` of each of `ws` in turn.
pub open spec fn unset_all(m: Map<Seq<char>, Seq<char>>, ws: Seq<Seq<char>>) -> Map<Seq<char>, Seq<char>>
    decreases ws.len(),
{
    if ws.len() == 0 {
        m
    } else {
        unset_all(m, ws.drop_last()).remove(ws.last())
    }
}

/// Applies `export` to one argument of the form `NAME=VALUE`.
fn export_arg(env: &mut Env, arg: &String)
    requires
        old(env).wf(),
    ensures
        final(env).wf(),
        final(env)@ == export_one(old(env)@, arg@),
{
    let v = chars_of(arg.as_str());
    let n = v.len();
    let mut p: usize = 0;
    while p < n && v[p] != '='
        invariant
            n == v@.len(),
            p <= n,
            eq_index(v@, 0) == eq_index(v@, p as int),
            forall|i: int| 0 <= i < p ==> v@[i] != '=',
        decreases n - p,
    {
        p = p + 1;
    }
    if 0 < p && p < n {
        let key = string_of(&v, 0, p);
        let value = string_of(&v, p + 1, n);
        assert(key@ =~= v@.take(p as int));
        assert(value@ =~= v@.skip(p + 1));
        assert(!key@.contains('=')) by {
            if key@.contains('=') {
                let i = choose|i: int| 0 <= i < key@.len() && key@[i] == '=';
                assert(v@[i] == '=');
            }
        }
        env.insert(key, value);
    }
}

/// `export` with arguments: binds each `NAME=VALUE` in turn.
pub fn export_with_args(env: &mut Env, args: &Vec<String>)
    requires
        old(env).wf(),
    ensures
        final(env).wf(),
        final(env)@ == export_all(old(env)@, views(args@)),
{
    let mut i: usize = 0;
    while i < args.len()
        invariant
            i <= args@.len(),
            env.wf(),
            env@ == export_all(old(env)@, views(args@).take(i as int)),
        decreases args@.len() - i,
    {
        export_arg(env, &args[i]);
        assert(views(args@).take(i + 1).drop_last() =~= views(args@).take(i as int));
        i = i + 1;
    }
    assert(views(args@).take(args@.len() as int) =~= views(args@));
}

/// `unset`: removes each named binding; names that are not bound are ignored.
pub fn unset(env: &mut Env, args: &Vec<String>)
    requires
        old(env).wf(),
    ensures
        final(env).wf(),
        final(env)@ == unset_all(old(env)@, views(args@)),
{
    let mut i: usize = 0;
    while i < args.len()
        invariant
            i <= args@.len(),
            env.wf(),
            env@ == unset_all(old(env)@, views(args@).take(i as int)),
        decreases args@.len() - i,
    {
        env.remove(args[i].as_str());
        assert(views(args@).take(i + 1).drop_last() =~= views(args@).take(i as int));
        i = i + 1;
    }
    assert(views(args@).take(args@.len() as int) =~= views(args@));
}

/// `unset` with its arguments.
pub fn unset_redirector(env: &mut Env, args: &Vec<String>)
    requires
        old(env).wf(),
    ensures
        final(env).wf(),
        final(env)@ == unset_all(old(env)@, views(args@)),
{
    if args.len() > 0 {
        unset(env, args);
    }
}

/// `export`: without arguments, the listing of every binding in order of
/// name; with arguments, binds each `NAME=VALUE` and prints nothing.
pub fn export_redirector(env: &mut Env, args: &Vec<String>) -> (r: String)
    requires
        old(env).wf(),
    ensures
        final(env).wf(),
        args@.len() == 0 ==> *final(env) == *old(env) && r@ == unlines(export_lines(old(env).entries())),
        args@.len() > 0 ==> final(env)@ == export_all(old(env)@, views(args@)) && r@ == Seq::<char>::empty(),
{
    if args.len() == 0 {
        export_no_args(env)
    } else {
        export_with_args(env, args);
        String::new()
    }
}

proof fn lemma_eq_index_after(k: Seq<char>, rest: Seq<char>, i: int)
    requires
        0 <= i <= k.len(),
        !k.contains('='),
    ensures
        eq_index(k + seq!['='] + rest, i) == k.len(),
    decreases k.len() - i,
{
    let a = k + seq!['='] + rest;
    if i < k.len() {
        assert(a[i] == k[i]);
        lemma_eq_index_after(k, rest, i + 1);
    } else {
        assert(a[i] == '=');
    }
}

/// Two `export` lines for valid names are equal only when the names are.
proof fn lemma_declare_line_names(k1: Seq<char>, v1: Seq<char>, k2: Seq<char>, v2: Seq<char>)
    requires
        valid_name(k1),
        valid_name(k2),
        declare_line(k1, v1) == declare_line(k2, v2),
    ensures
        k1 == k2,
{
    let l = declare_line(k1, v1);
    if k1.len() < k2.len() {
        assert(l[11 + k1.len() as int] == '=');
        assert(declare_line(k2, v2)[11 + k1.len() as int] == k2[k1.len() as int]);
        assert(k2.contains(k2[k1.len() as int]));
    } else if k2.len() < k1.len() {
        assert(l[11 + k2.len() as int] == k1[k2.len() as int]);
        assert(declare_line(k2, v2)[11 + k2.len() as int] == '=');
        assert(k1.contains(k1[k2.len() as int]));
    } else {
        assert(k1 =~= l.subrange(11, 11 + k1.len() as int));
        assert(k2 =~= declare_line(k2, v2).subrange(11, 11 + k2.len() as int));
    }
}

/// `export K=V` for a name `K` that was unbound: the listing before holds no
/// line `declare -x K="V"`, the listing after holds it.
pub proof fn lemma_export_then_listed(before: Env, after: Env, k: Seq<char>, v: Seq<char>)
    requires
        before.wf(),
        after.wf(),
        valid_name(k),
        !before@.contains_key(k),
        after@ == export_all(before@, seq![k + seq!['='] + v]),
    ensures
        !export_lines(before.entries()).contains(declare_line(k, v)),
        export_lines(after.entries()).contains(declare_line(k, v)),
{
    let a = k + seq!['='] + v;
    lemma_eq_index_after(k, v, 0);
    assert(a.take(k.len() as int) =~= k);
    assert(a.skip(k.len() as int + 1) =~= v);
    assert(seq![a].drop_last() =~= Seq::<Seq<char>>::empty());
    assert(export_all(before@, Seq::<Seq<char>>::empty()) == before@);
    assert(export_all(before@, seq![a]) == export_one(before@, a));
    assert(after@ == before@.insert(k, v));
    let e = after.entries();
    let i = key_index(e, k);
    assert(after@.contains_key(k));
    lemma_view_at(e, i);
    assert(export_lines(e)[i] == declare_line(k, v));
    let b = before.entries();
    if export_lines(b).contains(declare_line(k, v)) {
        let j = choose|j: int| 0 <= j < export_lines(b).len() && export_lines(b)[j] == declare_line(k, v);
        assert(valid_name(b[j].0));
        lemma_declare_line_names(b[j].0, b[j].1, k, v);
        lemma_view_at(b, j);
    }
}

/// `unset` of one name: where it is not bound, the store and its size stay
/// as they are; where it is, exactly that binding goes and the size drops
/// by one.
pub proof fn lemma_unset_one(env: Env, k: Seq<char>)
    requires
        env.wf(),
    ensures
        !env@.contains_key(k) ==> unset_all(env@, seq![k]) == env@,
        env@.contains_key(k) ==> unset_all(env@, seq![k]) == env@.remove(k)
            && unset_all(env@, seq![k]).dom().len() == env@.dom().len() - 1,
{
    lemma_len(env.entries());
    assert(seq![k].drop_last() =~= Seq::<Seq<char>>::empty());
    assert(unset_all(env@, Seq::<Seq<char>>::empty()) == env@);
    assert(unset_all(env@, seq![k]) == env@.remove(k));
    if !env@.contains_key(k) {
        assert(env@.remove(k) =~= env@);
    }
}

/// The exit status that `exit ws` asks for: 0 without an argument, the
/// first argument read as an `i32`, or 255 (`Err`) when it is not a number.
pub open spec fn exit_status(ws: Seq<Seq<char>>) -> Result<i32, i32> {
    if ws.len() == 0 {
        Ok(0)
    } else {
        match parse_i32(ws[0]) {
            Some(v) => Ok(v as i32),
            None => Err(255),
        }
    }
}

/// The status for `exit` with the arguments `args`.
pub fn exit_code(args: &Vec<String>) -> (r: Result<i32, i32>)
    ensures
        r == exit_status(views(args@)),
{
    if args.len() == 0 {
        Ok(0)
    } else {
        match parse_i32_str(args[0].as_str()) {
            Some(v) => Ok(v),
            None => Err(255),
        }
    }
}

pub open spec fn shlvl_name() -> Seq<char> {
    seq!['S', 'H', 'L', 'V', 'L']
}

/// The new value of `SHLVL`: one more than the old, where it reads as an
/// `i32`; else 1.
pub open spec fn next_shlvl(m: Map<Seq<char>, Seq<char>>) -> Seq<char> {
    if m.contains_key(shlvl_name()) {
        match parse_i32(m[shlvl_name()]) {
            Some(v) => decimal(v + 1),
            None => seq!['1'],
        }
    } else {
        seq!['1']
    }
}

/// Raises `SHLVL` by one, or sets it to 1.
pub fn update_shlvl(env: &mut Env)
    requires
        old(env).wf(),
    ensures
        final(env).wf(),
        final(env)@ == old(env)@.insert(shlvl_name(), next_shlvl(old(env)@)),
{
    proof {
        reveal_strlit("SHLVL");
        reveal_strlit("1");
        assert("SHLVL"@ =~= shlvl_name());
        assert(valid_name(shlvl_name()));
    }
    let value = match env.get("SHLVL") {
        Some(old_value) => match parse_i32_str(old_value.as_str()) {
            Some(v) => {
                let d = format_i64(v as i64 + 1);
                string_of(&d, 0, d.len())
            },
            None => String::from_str("1"),
        },
        None => String::from_str("1"),
    };
    assert("1"@ =~= seq!['1']);
    assert(value@ == next_shlvl(old(env)@));
    env.insert(String::from_str("SHLVL"), value);
}

/// The store that the inherited variables `vars` make, later ones winning;
/// pairs whose name is not valid are left out.
pub open spec fn load_all(m: Map<Seq<char>, Seq<char>>, vars: Seq<(String, String)>) -> Map<Seq<char>, Seq<char>>
    decreases vars.len(),
{
    if vars.len() == 0 {
        m
    } else {
        let m1 = load_all(m, vars.drop_last());
        let (k, v) = vars.last();
        if valid_name(k@) { m1.insert(k@, v@) } else { m1 }
    }
}

/// A store holding the inherited variables `vars`.
pub fn save_env(vars: Vec<(String, String)>) -> (r: Env)
    ensures
        r.wf(),
        r@ == load_all(Map::empty(), vars@),
{
    let mut env = Env::new();
    let mut i: usize = 0;
    while i < vars.len()
        invariant
            i <= vars@.len(),
            env.wf(),
            env@ == load_all(Map::empty(), vars@.take(i as int)),
        decreases vars@.len() - i,
    {
        let k = chars_of(vars[i].0.as_str());
        let mut ok = k.len() > 0;
        let mut j: usize = 0;
        while j < k.len()
            invariant
                j <= k@.len(),
                ok == (k@.len() > 0 && forall|x: int| 0 <= x < j ==> k@[x] != '='),
            decreases k@.len() - j,
        {
            if k[j] == '=' {
                ok = false;
            }
            j = j + 1;
        }
        assert(ok == valid_name(vars@[i as int].0@)) by {
            if !ok && k@.len() > 0 {
                let x = choose|x: int| 0 <= x < k@.len() && k@[x] == '=';
                assert(k@.contains(k@[x]));
            }
        }
        if ok {
            env.insert(vars[i].0.clone(), vars[i].1.clone());
        }
        assert(vars@.take(i + 1).drop_last() =~= vars@.take(i as int));
        i = i + 1;
    }
    assert(vars@.take(vars@.len() as int) =~= vars@);
    env
}

} // verus!
