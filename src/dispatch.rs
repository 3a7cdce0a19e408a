//! Choosing and running the builtin that a command's first word names.
use vstd::prelude::*;
use crate::builtins::{
    echo_handler, echo_text, exit_code, exit_status, export_all, export_lines, export_redirector, print_env,
    env_lines, unlines, unset_all, unset_redirector, views,
};
use crate::dirs::{cd_redirector, cd_target, print_var, var_text, CdError, CdPlan};
use crate::store::Env;
use crate::text::{chars_of, string_of};

verus! {

/// The commands that run inside the interpreter.
#[derive(PartialEq, Eq, Structural, Debug, Clone, Copy)]
pub enum Builtin {
    Cd,
    Clear,
    Echo,
    Env,
    Exit,
    Export,
    Pwd,
    Unset,
}

/// The builtin that `name` selects, by exact match.
pub open spec fn builtin_of(name: Seq<char>) -> Option<Builtin> {
    if name == "cd"@ {
        Some(Builtin::Cd)
    } else if name == "clear"@ {
        Some(Builtin::Clear)
    } else if name == "echo"@ {
        Some(Builtin::Echo)
    } else if name == "env"@ {
        Some(Builtin::Env)
    } else if name == "exit"@ {
        Some(Builtin::Exit)
    } else if name == "export"@ {
        Some(Builtin::Export)
    } else if name == "pwd"@ {
        Some(Builtin::Pwd)
    } else if name == "unset"@ {
        Some(Builtin::Unset)
    } else {
        None
    }
}

/// The terminal's clear-screen and cursor-home sequence.
pub open spec fn clear_text() -> Seq<char> {
    seq!['\x1b', '[', '2', 'J', '\x1b', '[', '1', ';', '1', 'H']
}

/// What the caller is to do once a command has been dispatched.
#[derive(Debug)]
pub enum Action {
    /// Write this text to the command's output.
    Output(String),
    /// Change to the planned directory, or report why there is none.
    ChangeDir(Result<CdPlan, CdError>),
    /// Print `exit` and end the process with this status; `Err` when the
    /// argument was not a number.
    Exit(Result<i32, i32>),
    /// Run the command as an external program.
    External,
}

/// `r` is the output `text`.
pub open spec fn outputs(r: Action, text: Seq<char>) -> bool {
    match r {
        Action::Output(s) => s@ == text,
        _ => false,
    }
}

/// What dispatching the words `ws` (a name and its arguments) in store `m`
/// returns, and the store `m2` it leaves.
pub open spec fn dispatched(m: Env, ws: Seq<Seq<char>>, r: Action, m2: Env) -> bool {
    let rest = ws.drop_first();
    match builtin_of(ws[0]) {
        Some(Builtin::Cd) => m2 == m && match r {
            Action::ChangeDir(Ok(p)) => cd_target(m@, rest) == Ok::<(Seq<char>, bool), CdError>((p.path@, p.echo)),
            Action::ChangeDir(Err(e)) => cd_target(m@, rest) == Err::<(Seq<char>, bool), CdError>(e),
            _ => false,
        },
        Some(Builtin::Clear) => m2 == m && outputs(r, clear_text()),
        Some(Builtin::Echo) => m2 == m && outputs(r, echo_text(rest)),
        Some(Builtin::Env) => m2 == m && outputs(r, unlines(env_lines(m.entries()))),
        Some(Builtin::Exit) => m2 == m && r == Action::Exit(exit_status(rest)),
        Some(Builtin::Export) => if rest.len() == 0 {
            m2 == m && outputs(r, unlines(export_lines(m.entries())))
        } else {
            m2@ == export_all(m@, rest) && outputs(r, Seq::empty())
        },
        Some(Builtin::Pwd) => m2 == m && outputs(r, var_text(m@, "PWD"@)),
        Some(Builtin::Unset) => m2@ == unset_all(m@, rest) && outputs(r, Seq::empty()),
        None => m2 == m && r == Action::External,
    }
}

/// Whether `v` holds exactly the characters of `w`.
fn is_word(v: &Vec<char>, w: &str) -> (r: bool)
    ensures
        r == (v@ == w@),
{
    let c = chars_of(w);
    if v.len() != c.len() {
        return false;
    }
    let mut i: usize = 0;
    while i < v.len()
        invariant
            v@.len() == c@.len(),
            c@ == w@,
            i <= v@.len(),
            forall|k: int| 0 <= k < i ==> v@[k] == c@[k],
        decreases v@.len() - i,
    {
        if v[i] != c[i] {
            assert(v@[i as int] != w@[i as int]);
            return false;
        }
        i = i + 1;
    }
    assert(v@ =~= c@);
    true
}

/// Runs the builtin that `args[0]` names on the other arguments, or asks for
/// an external command when it names none.
pub fn command_matcher(env: &mut Env, args: &Vec<String>) -> (r: Action)
    requires
        old(env).wf(),
        args@.len() > 0,
    ensures
        final(env).wf(),
        dispatched(*old(env), views(args@), r, *final(env)),
{
    let name = chars_of(args[0].as_str());
    let mut rest: Vec<String> = Vec::new();
    let mut i: usize = 1;
    while i < args.len()
        invariant
            1 <= i <= args@.len(),
            rest@.len() == i - 1,
            forall|k: int| 0 <= k < rest@.len() ==> #[trigger] rest@[k]@ == args@[k + 1]@,
        decreases args@.len() - i,
    {
        rest.push(args[i].clone());
        i = i + 1;
    }
    assert(views(args@).drop_first() =~= views(rest@));
    assert(name@ == views(args@)[0]);
    let ghost ws = views(args@);
    let ghost before = *env;
    let r = if is_word(&name, "cd") {
        let r = Action::ChangeDir(cd_redirector(env, &rest));
        assert(dispatched(before, ws, r, *env));
        r
    } else if is_word(&name, "clear") {
        let seq_chars = vec!['\x1b', '[', '2', 'J', '\x1b', '[', '1', ';', '1', 'H'];
        let s = string_of(&seq_chars, 0, 10);
        assert(s@ =~= clear_text());
        let r = Action::Output(s);
        assert(dispatched(before, ws, r, *env));
        r
    } else if is_word(&name, "echo") {
        let r = Action::Output(echo_handler(&rest));
        assert(dispatched(before, ws, r, *env));
        r
    } else if is_word(&name, "env") {
        let r = Action::Output(print_env(env));
        assert(dispatched(before, ws, r, *env));
        r
    } else if is_word(&name, "exit") {
        let r = Action::Exit(exit_code(&rest));
        assert(dispatched(before, ws, r, *env));
        r
    } else if is_word(&name, "export") {
        let r = Action::Output(export_redirector(env, &rest));
        assert(dispatched(before, ws, r, *env));
        r
    } else if is_word(&name, "pwd") {
        let r = Action::Output(print_var(env, "PWD"));
        assert(dispatched(before, ws, r, *env));
        r
    } else if is_word(&name, "unset") {
        unset_redirector(env, &rest);
        let r = Action::Output(String::new());
        assert(dispatched(before, ws, r, *env));
        r
    } else {
        let r = Action::External;
        assert(dispatched(before, ws, r, *env));
        r
    };
    r
}

} // verus!
