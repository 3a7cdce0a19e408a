//! `cd` and `pwd`: where to go, and how the store follows.
use vstd::prelude::*;
use crate::builtins::views;
use crate::store::{valid_name, Env};
use crate::text::{chars_of, string_of};

verus! {

pub open spec fn home_name() -> Seq<char> {
    seq!['H', 'O', 'M', 'E']
}

pub open spec fn pwd_name() -> Seq<char> {
    seq!['P', 'W', 'D']
}

pub open spec fn oldpwd_name() -> Seq<char> {
    seq!['O', 'L', 'D', 'P', 'W', 'D']
}

/// Why `cd` cannot pick a directory.
#[derive(PartialEq, Eq, Structural, Debug, Clone, Copy)]
pub enum CdError {
    /// `HOME` is needed and unbound.
    HomeNotSet,
    /// `OLDPWD` is needed and unbound.
    OldPwdNotSet,
}

/// The directory that `cd` is to change to, and whether to print it.
#[derive(Debug)]
pub struct CdPlan {
    pub path: String,
    pub echo: bool,
}

/// Where `cd ws` goes in store `m`: no argument, `$HOME`; `~rest`, `$HOME`
/// followed by `rest`; `-`, `$OLDPWD`, printed; else the argument itself.
pub open spec fn cd_target(m: Map<Seq<char>, Seq<char>>, ws: Seq<Seq<char>>) -> Result<(Seq<char>, bool), CdError> {
    if ws.len() == 0 {
        if m.contains_key(home_name()) { Ok((m[home_name()], false)) } else { Err(CdError::HomeNotSet) }
    } else if ws[0].len() > 0 && ws[0][0] == '~' {
        if m.contains_key(home_name()) {
            Ok((m[home_name()] + ws[0].drop_first(), false))
        } else {
            Err(CdError::HomeNotSet)
        }
    } else if ws[0] == seq!['-'] {
        if m.contains_key(oldpwd_name()) { Ok((m[oldpwd_name()], true)) } else { Err(CdError::OldPwdNotSet) }
    } else {
        Ok((ws[0], false))
    }
}

/// The store after changing to the directory `dir`: `OLDPWD` takes the old
/// `PWD`, if there was one, and `PWD` becomes `dir`.
pub open spec fn after_cd(m: Map<Seq<char>, Seq<char>>, dir: Seq<char>) -> Map<Seq<char>, Seq<char>> {
    let m1 = if m.contains_key(pwd_name()) { m.insert(oldpwd_name(), m[pwd_name()]) } else { m };
    m1.insert(pwd_name(), dir)
}

/// Picks the directory for `cd` with the arguments `args`.
pub fn cd_redirector(env: &Env, args: &Vec<String>) -> (r: Result<CdPlan, CdError>)
    requires
        env.wf(),
    ensures
        match r {
            Ok(p) => cd_target(env@, views(args@)) == Ok::<(Seq<char>, bool), CdError>((p.path@, p.echo)),
            Err(e) => cd_target(env@, views(args@)) == Err::<(Seq<char>, bool), CdError>(e),
        },
{
    proof {
        reveal_strlit("HOME");
        reveal_strlit("OLDPWD");
        assert("HOME"@ =~= home_name());
        assert("OLDPWD"@ =~= oldpwd_name());
    }
    if args.len() == 0 {
        return match env.get("HOME") {
            Some(h) => Ok(CdPlan { path: h, echo: false }),
            None => Err(CdError::HomeNotSet),
        };
    }
    let a = chars_of(args[0].as_str());
    assert(a@ == views(args@)[0]);
    if a.len() > 0 && a[0] == '~' {
        match env.get("HOME") {
            Some(h) => {
                let mut path = h;
                let rest = string_of(&a, 1, a.len());
                assert(rest@ =~= a@.drop_first());
                path.append(rest.as_str());
                Ok(CdPlan { path, echo: false })
            },
            None => Err(CdError::HomeNotSet),
        }
    } else if a.len() == 1 && a[0] == '-' {
        assert(a@ =~= seq!['-']);
        match env.get("OLDPWD") {
            Some(p) => Ok(CdPlan { path: p, echo: true }),
            None => Err(CdError::OldPwdNotSet),
        }
    } else {
        assert(a@ != seq!['-']) by {
            if a@ == seq!['-'] {
                assert(a@.len() == 1);
            }
        }
        Ok(CdPlan { path: args[0].clone(), echo: false })
    }
}

/// Records in the store that the working directory is now `dir`.
pub fn cd_update_env(env: &mut Env, dir: String)
    requires
        old(env).wf(),
    ensures
        final(env).wf(),
        final(env)@ == after_cd(old(env)@, dir@),
{
    proof {
        reveal_strlit("PWD");
        reveal_strlit("OLDPWD");
        assert("PWD"@ =~= pwd_name());
        assert("OLDPWD"@ =~= oldpwd_name());
        assert(valid_name(pwd_name()));
        assert(valid_name(oldpwd_name()));
    }
    match env.get("PWD") {
        Some(old_dir) => env.insert(String::from_str("OLDPWD"), old_dir),
        None => {},
    }
    env.insert(String::from_str("PWD"), dir);
}

/// `cd` to `t` from a store whose `PWD` is `h`, then `cd -`, where the
/// system reports each directory changed to as the path `cd` asked for: the
/// first step goes to `t`; the second goes back to `h` and prints it, and
/// leaves `PWD` at `h` and `OLDPWD` at `t`.
pub proof fn lemma_cd_back(m: Map<Seq<char>, Seq<char>>, h: Seq<char>, t: Seq<char>)
    requires
        m.contains_key(pwd_name()),
        m[pwd_name()] == h,
        t.len() > 0,
        t[0] != '~',
        t != seq!['-'],
    ensures
        cd_target(m, seq![t]) == Ok::<(Seq<char>, bool), CdError>((t, false)),
        cd_target(after_cd(m, t), seq![seq!['-']]) == Ok::<(Seq<char>, bool), CdError>((h, true)),
        after_cd(after_cd(m, t), h)[pwd_name()] == h,
        after_cd(after_cd(m, t), h)[oldpwd_name()] == t,
{
    assert(pwd_name() != oldpwd_name()) by {
        assert(pwd_name().len() != oldpwd_name().len());
    }
    let m1 = after_cd(m, t);
    assert(m1[oldpwd_name()] == h);
    assert(m1[pwd_name()] == t);
}

/// What `pwd` prints for the variable `k`: its value and a newline, or a
/// notice that it is not bound.
pub open spec fn var_text(m: Map<Seq<char>, Seq<char>>, k: Seq<char>) -> Seq<char> {
    if m.contains_key(k) {
        m[k] + seq!['\n']
    } else {
        seq!['$'] + k + " environment variable not set\n"@
    }
}

/// The text that prints the variable `variable` (`pwd` prints `PWD`).
pub fn print_var(env: &Env, variable: &str) -> (r: String)
    requires
        env.wf(),
    ensures
        r@ == var_text(env@, variable@),
{
    proof {
        reveal_strlit("\n");
        reveal_strlit("$");
        reveal_strlit(" environment variable not set\n");
    }
    match env.get(variable) {
        Some(v) => {
            let mut r = v;
            r.append("\n");
            assert(r@ =~= var_text(env@, variable@));
            r
        },
        None => {
            let mut r = String::from_str("$");
            r.append(variable);
            r.append(" environment variable not set\n");
            assert(r@ =~= var_text(env@, variable@));
            r
        },
    }
}

} // verus!
