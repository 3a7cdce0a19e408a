//! A minimal command interpreter: chain parsing, quoting-aware lexing,
//! variable expansion, the variable store, builtins and chain control.
pub mod builtins;
pub mod chain;
pub mod control;
pub mod dirs;
pub mod dispatch;
pub mod expand;
pub mod lexer;
pub mod numbers;
pub mod store;
pub mod text;

pub use builtins::{
    echo_handler, exit_code, export_no_args, export_redirector, export_with_args, print_env, save_env, unset,
    unset_redirector, update_shlvl,
};
pub use chain::{arg_split, CommandObject, Separator};
pub use control::{chain_after, chain_enter, on_signal, ChainMode, Outcome, Signal, SignalAction, Step, Wiring};
pub use dirs::{cd_redirector, cd_update_env, print_var, CdError, CdPlan};
pub use dispatch::{command_matcher, Action};
pub use expand::dollar_expander;
pub use lexer::splitter;
pub use numbers::parse_i32_str;
pub use store::Env;
