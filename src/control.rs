//! Decisions of the driver: which sub-commands run and how their streams are
//! wired, and what an interactive signal does.
use vstd::prelude::*;
use crate::chain::Separator;

verus! {

/// Whether the next sub-commands run.
#[derive(PartialEq, Eq, Structural, Debug, Clone, Copy)]
pub enum ChainMode {
    /// Run the next sub-command.
    Normal,
    /// The next sub-command is the file of a redirection: do not run it.
    SkipOperand,
    /// A `&&` chain failed: run nothing up to the next `;`.
    SkipUntilSequence,
}

/// How a sub-command's standard output is wired.
#[derive(PartialEq, Eq, Structural, Debug, Clone, Copy)]
pub enum Wiring {
    /// Inherited from the terminal.
    Inherit,
    /// Captured for the standard input of the next sub-command.
    PipeOut,
    /// Into the file that the next sub-command names, truncated first.
    Truncate,
    /// Into the file that the next sub-command names, appended to.
    Append,
}

/// What to do with a sub-command.
#[derive(PartialEq, Eq, Structural, Debug, Clone, Copy)]
pub enum Step {
    /// Run it, wired so.
    Run(Wiring),
    /// Do not run it; go on to the next in this mode.
    Skip(ChainMode),
    /// Do not run it, and stop the line.
    Stop,
}

/// How a sub-command that was to run went.
#[derive(PartialEq, Eq, Structural, Debug, Clone, Copy)]
pub enum Outcome {
    /// It ran, with this exit status.
    Ran(i32),
    /// It had no words, so nothing ran.
    NoWords,
    /// Its redirection file could not be opened.
    FileError,
}

/// The wiring of a sub-command that ends in `sep`; `has_next` tells whether
/// another sub-command follows it.
pub open spec fn wiring_of(sep: Separator, has_next: bool) -> Wiring {
    if !has_next {
        Wiring::Inherit
    } else {
        match sep {
            Separator::Pipe => Wiring::PipeOut,
            Separator::WriteRedirection => Wiring::Truncate,
            Separator::WriteAppendRedirection => Wiring::Append,
            _ => Wiring::Inherit,
        }
    }
}

/// What to do with a sub-command that ends in `sep`, in mode `mode`.
pub open spec fn enter_step(mode: ChainMode, sep: Separator, has_next: bool) -> Step {
    match mode {
        ChainMode::Normal => Step::Run(wiring_of(sep, has_next)),
        ChainMode::SkipOperand => Step::Skip(ChainMode::Normal),
        ChainMode::SkipUntilSequence => if sep == Separator::SemiColon {
            Step::Skip(ChainMode::Normal)
        } else if sep == Separator::Empty {
            Step::Stop
        } else {
            Step::Skip(ChainMode::SkipUntilSequence)
        },
    }
}

/// The mode after a sub-command that ends in `sep` ran wired as `w`: a
/// redirection file that did not open, or a failure before `&&`, skips to
/// the next `;`; a redirection skips its file name.
pub open spec fn after_step(sep: Separator, w: Wiring, outcome: Outcome) -> ChainMode {
    match outcome {
        Outcome::FileError => ChainMode::SkipUntilSequence,
        Outcome::Ran(status) => if status != 0 && sep == Separator::Ampersand {
            ChainMode::SkipUntilSequence
        } else if w == Wiring::Truncate || w == Wiring::Append {
            ChainMode::SkipOperand
        } else {
            ChainMode::Normal
        },
        Outcome::NoWords => if w == Wiring::Truncate || w == Wiring::Append {
            ChainMode::SkipOperand
        } else {
            ChainMode::Normal
        },
    }
}

/// Decides what to do with a sub-command that ends in `sep`, in mode `mode`.
pub fn chain_enter(mode: ChainMode, sep: Separator, has_next: bool) -> (r: Step)
    ensures
        r == enter_step(mode, sep, has_next),
{
    match mode {
        ChainMode::Normal => {
            let w = if !has_next {
                Wiring::Inherit
            } else {
                match sep {
                    Separator::Pipe => Wiring::PipeOut,
                    Separator::WriteRedirection => Wiring::Truncate,
                    Separator::WriteAppendRedirection => Wiring::Append,
                    _ => Wiring::Inherit,
                }
            };
            Step::Run(w)
        },
        ChainMode::SkipOperand => Step::Skip(ChainMode::Normal),
        ChainMode::SkipUntilSequence => match sep {
            Separator::SemiColon => Step::Skip(ChainMode::Normal),
            Separator::Empty => Step::Stop,
            _ => Step::Skip(ChainMode::SkipUntilSequence),
        },
    }
}

/// The mode that follows a sub-command that ran.
pub fn chain_after(sep: Separator, w: Wiring, outcome: Outcome) -> (r: ChainMode)
    ensures
        r == after_step(sep, w, outcome),
{
    let redirected = match w {
        Wiring::Truncate | Wiring::Append => true,
        _ => false,
    };
    match outcome {
        Outcome::FileError => ChainMode::SkipUntilSequence,
        Outcome::Ran(status) => {
            if status != 0 && sep == Separator::Ampersand {
                ChainMode::SkipUntilSequence
            } else if redirected {
                ChainMode::SkipOperand
            } else {
                ChainMode::Normal
            }
        },
        Outcome::NoWords => if redirected {
            ChainMode::SkipOperand
        } else {
            ChainMode::Normal
        },
    }
}

/// An interactive signal.
#[derive(PartialEq, Eq, Structural, Debug, Clone, Copy)]
pub enum Signal {
    Interrupt,
    Quit,
    Terminate,
}

/// What the interpreter does on a signal.
#[derive(PartialEq, Eq, Structural, Debug, Clone, Copy)]
pub enum SignalAction {
    /// No child owns the foreground: draw the prompt again.
    Redraw,
    /// Pass the signal on to the foreground child with this process id.
    Forward(i32),
    /// End the interpreter.
    Exit,
}

/// The action for `sig` when `foreground` is the id of the child that owns
/// the foreground, or 0 when none does.
pub open spec fn signal_action(sig: Signal, foreground: i32) -> SignalAction {
    match sig {
        Signal::Terminate => SignalAction::Exit,
        _ => if foreground == 0 { SignalAction::Redraw } else { SignalAction::Forward(foreground) },
    }
}

/// Decides what a signal does.
pub fn on_signal(sig: Signal, foreground: i32) -> (r: SignalAction)
    ensures
        r == signal_action(sig, foreground),
{
    match sig {
        Signal::Terminate => SignalAction::Exit,
        _ => if foreground == 0 {
            SignalAction::Redraw
        } else {
            SignalAction::Forward(foreground)
        },
    }
}

} // verus!
