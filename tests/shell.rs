use minibash::{
    arg_split, cd_redirector, cd_update_env, chain_after, chain_enter, command_matcher, dollar_expander,
    echo_handler, exit_code, export_no_args, export_redirector, on_signal, parse_i32_str, print_env, print_var,
    save_env, splitter, unset, update_shlvl, Action, CdError, ChainMode, Env, Outcome, Separator, Signal,
    SignalAction, Step, Wiring,
};

fn words(v: &[&str]) -> Vec<String> {
    v.iter().map(|s| s.to_string()).collect()
}

fn store(pairs: &[(&str, &str)]) -> Env {
    save_env(pairs.iter().map(|(k, v)| (k.to_string(), v.to_string())).collect())
}

fn split(line: &str) -> Vec<(String, Separator)> {
    let mut s = line.to_string();
    arg_split(&mut s).into_iter().map(|c| (c.text, c.separator)).collect()
}

/// Runs a line the way the driver does, with external commands replaced by
/// `false` (status 1) and `true` (status 0); returns what the builtins print.
fn simulate(env: &mut Env, line: &str) -> String {
    let mut s = line.to_string();
    let cmds = arg_split(&mut s);
    let mut mode = ChainMode::Normal;
    let mut printed = String::new();
    for (k, cmd) in cmds.iter().enumerate() {
        let has_next = k + 1 < cmds.len();
        match chain_enter(mode, cmd.separator, has_next) {
            Step::Stop => break,
            Step::Skip(next) => {
                mode = next;
                continue;
            }
            Step::Run(w) => {
                let args = splitter(&dollar_expander(env, cmd.text.clone()));
                if args.is_empty() {
                    mode = chain_after(cmd.separator, w, Outcome::NoWords);
                    continue;
                }
                let status = match command_matcher(env, &args) {
                    Action::Output(t) => {
                        printed.push_str(&t);
                        0
                    }
                    Action::External => {
                        if args[0] == "false" {
                            1
                        } else {
                            0
                        }
                    }
                    _ => 0,
                };
                mode = chain_after(cmd.separator, w, Outcome::Ran(status));
            }
        }
    }
    printed
}

#[test]
fn chain_ignores_operators_in_quotes() {
    assert_eq!(
        split("echo \"a;b|c\" ; ls 'x&&y' | wc"),
        vec![
            ("echo \"a;b|c\"".to_string(), Separator::SemiColon),
            ("ls 'x&&y'".to_string(), Separator::Pipe),
            ("wc".to_string(), Separator::Empty),
        ]
    );
}

#[test]
fn chain_two_char_operators_first() {
    assert_eq!(
        split("a && b >> f > g << h < i"),
        vec![
            ("a".to_string(), Separator::Ampersand),
            ("b".to_string(), Separator::WriteAppendRedirection),
            ("f".to_string(), Separator::WriteRedirection),
            ("g".to_string(), Separator::HeredocRedirection),
            ("h".to_string(), Separator::ReadRedirection),
            ("i".to_string(), Separator::Empty),
        ]
    );
}

#[test]
fn chain_empty_line_is_one_empty_command() {
    let mut s = String::new();
    let cmds = arg_split(&mut s);
    assert_eq!(cmds.len(), 1);
    assert_eq!(cmds[0].text, "");
    assert_eq!(cmds[0].separator, Separator::Empty);
    assert_eq!(cmds[0].status_code, 0);
}

#[test]
fn chain_unclosed_quote_runs_to_end() {
    assert_eq!(split("echo 'a ; b"), vec![("echo 'a ; b".to_string(), Separator::Empty)]);
}

#[test]
fn chain_trailing_operator_leaves_empty_last() {
    assert_eq!(
        split("ls ;"),
        vec![("ls".to_string(), Separator::SemiColon), ("".to_string(), Separator::Empty)]
    );
}

#[test]
fn lexer_keeps_quoted_regions_whole() {
    assert_eq!(splitter(&"echo \"a b\" 'c  d' e".to_string()), words(&["echo", "a b", "c  d", "e"]));
}

#[test]
fn lexer_splices_double_quotes_in_word() {
    assert_eq!(splitter(&"ab\"c d\"e f".to_string()), words(&["abc de", "f"]));
}

#[test]
fn lexer_drops_empty_words_and_extra_spaces() {
    assert_eq!(splitter(&"  a   \"\"  b ".to_string()), words(&["a", "b"]));
    assert_eq!(splitter(&"".to_string()), Vec::<String>::new());
    assert_eq!(splitter(&"x".to_string()), words(&["x"]));
}

#[test]
fn lexer_unclosed_quote_runs_to_end() {
    assert_eq!(splitter(&"echo \"a b".to_string()), words(&["echo", "a b"]));
}

#[test]
fn expansion_in_double_quotes() {
    let mut env = store(&[("NAME", "world")]);
    let line = dollar_expander(&mut env, "echo \"hi $NAME\"".to_string());
    assert_eq!(line, "echo \"hi world\"");
    assert_eq!(simulate(&mut env, "echo \"hi $NAME\""), "hi world\n");
}

#[test]
fn expansion_of_unset_name_is_empty() {
    let mut env = store(&[]);
    assert_eq!(dollar_expander(&mut env, "echo \"hi $NAME\"".to_string()), "echo \"hi \"");
    assert_eq!(simulate(&mut env, "echo \"hi $NAME\""), "hi \n");
}

#[test]
fn expansion_skips_single_quotes() {
    let mut env = store(&[("X", "1")]);
    assert_eq!(dollar_expander(&mut env, "a '$X' $X \"'$X'\"".to_string()), "a '$X' 1 \"'1'\"");
}

#[test]
fn echo_joins_with_newline() {
    assert_eq!(echo_handler(&words(&["a", "b"])), "a b\n");
    assert_eq!(echo_handler(&words(&[])), "\n");
}

#[test]
fn echo_dash_n_has_no_newline() {
    assert_eq!(echo_handler(&words(&["-n", "a", "b"])), "a b");
    let mut env = store(&[]);
    assert_eq!(simulate(&mut env, "echo -n a b"), "a b");
}

#[test]
fn export_listing_shows_new_binding() {
    let mut env = store(&[("HOME", "/home/u")]);
    let first = export_redirector(&mut env, &words(&[]));
    assert_eq!(first, "declare -x HOME=\"/home/u\"\n");
    assert!(!first.contains("declare -x K=\"V\""));
    assert_eq!(export_redirector(&mut env, &words(&["K=V"])), "");
    let second = export_redirector(&mut env, &words(&[]));
    assert!(second.lines().any(|l| l == "declare -x K=\"V\""));
    assert_eq!(second, "declare -x HOME=\"/home/u\"\ndeclare -x K=\"V\"\n");
}

#[test]
fn export_listing_is_sorted_by_name() {
    let env = store(&[("b", "2"), ("a", "1"), ("C", "3")]);
    assert_eq!(export_no_args(&env), "declare -x C=\"3\"\ndeclare -x a=\"1\"\ndeclare -x b=\"2\"\n");
    assert_eq!(print_env(&env), "C=3\na=1\nb=2\n");
}

#[test]
fn export_value_keeps_later_equals_and_ignores_bad_args() {
    let mut env = store(&[]);
    export_redirector(&mut env, &words(&["A=x=y", "=z", "plain", "B="]));
    assert_eq!(env.get("A"), Some("x=y".to_string()));
    assert_eq!(env.get("B"), Some("".to_string()));
    assert_eq!(env.len(), 2);
}

#[test]
fn unset_absent_is_no_op() {
    let mut env = store(&[("A", "1"), ("B", "2")]);
    unset(&mut env, &words(&["Z"]));
    assert_eq!(env.len(), 2);
    assert_eq!(env.get("A"), Some("1".to_string()));
}

#[test]
fn unset_present_removes_exactly_that_key() {
    let mut env = store(&[("A", "1"), ("B", "2")]);
    unset(&mut env, &words(&["A"]));
    assert_eq!(env.len(), 1);
    assert_eq!(env.get("A"), None);
    assert_eq!(env.get("B"), Some("2".to_string()));
}

#[test]
fn save_env_later_pairs_win_and_bad_names_dropped() {
    let env = store(&[("A", "1"), ("A", "2"), ("", "x"), ("B=C", "y")]);
    assert_eq!(env.len(), 1);
    assert_eq!(env.get("A"), Some("2".to_string()));
}

#[test]
fn cd_dash_round_trip() {
    let mut env = store(&[("PWD", "/home/u"), ("HOME", "/home/u")]);
    let plan = cd_redirector(&env, &words(&["/tmp"])).unwrap();
    assert_eq!(plan.path, "/tmp");
    assert!(!plan.echo);
    cd_update_env(&mut env, plan.path);
    assert_eq!(env.get("OLDPWD"), Some("/home/u".to_string()));
    let back = cd_redirector(&env, &words(&["-"])).unwrap();
    assert_eq!(back.path, "/home/u");
    assert!(back.echo);
    cd_update_env(&mut env, back.path);
    assert_eq!(env.get("PWD"), Some("/home/u".to_string()));
    assert_eq!(env.get("OLDPWD"), Some("/tmp".to_string()));
}

#[test]
fn cd_home_and_tilde() {
    let env = store(&[("HOME", "/home/u")]);
    assert_eq!(cd_redirector(&env, &words(&[])).unwrap().path, "/home/u");
    assert_eq!(cd_redirector(&env, &words(&["~/src"])).unwrap().path, "/home/u/src");
}

#[test]
fn cd_errors() {
    let env = store(&[]);
    assert_eq!(cd_redirector(&env, &words(&[])).unwrap_err(), CdError::HomeNotSet);
    assert_eq!(cd_redirector(&env, &words(&["~"])).unwrap_err(), CdError::HomeNotSet);
    assert_eq!(cd_redirector(&env, &words(&["-"])).unwrap_err(), CdError::OldPwdNotSet);
}

#[test]
fn pwd_prints_value_or_notice() {
    let env = store(&[("PWD", "/x")]);
    assert_eq!(print_var(&env, "PWD"), "/x\n");
    let empty = store(&[]);
    assert_eq!(print_var(&empty, "PWD"), "$PWD environment variable not set\n");
}

#[test]
fn exit_codes() {
    assert_eq!(exit_code(&words(&[])), Ok(0));
    assert_eq!(exit_code(&words(&["3"])), Ok(3));
    assert_eq!(exit_code(&words(&["-7"])), Ok(-7));
    assert_eq!(exit_code(&words(&["abc"])), Err(255));
}

#[test]
fn parse_i32_like_std() {
    for s in ["0", "+12", "-12", "2147483647", "-2147483648", "2147483648", "", "-", "+", "1a", " 1", "007"] {
        assert_eq!(parse_i32_str(s), s.parse::<i32>().ok(), "input {:?}", s);
    }
}

#[test]
fn shlvl_increments_or_starts_at_one() {
    let mut env = store(&[("SHLVL", "2")]);
    update_shlvl(&mut env);
    assert_eq!(env.get("SHLVL"), Some("3".to_string()));
    let mut fresh = store(&[]);
    update_shlvl(&mut fresh);
    assert_eq!(fresh.get("SHLVL"), Some("1".to_string()));
    let mut neg = store(&[("SHLVL", "-5")]);
    update_shlvl(&mut neg);
    assert_eq!(neg.get("SHLVL"), Some("-4".to_string()));
    let mut top = store(&[("SHLVL", "2147483647")]);
    update_shlvl(&mut top);
    assert_eq!(top.get("SHLVL"), Some("2147483648".to_string()));
}

#[test]
fn dispatch_builtins_and_external() {
    let mut env = store(&[("PWD", "/p")]);
    match command_matcher(&mut env, &words(&["clear"])) {
        Action::Output(t) => assert_eq!(t, "\x1B[2J\x1B[1;1H"),
        other => panic!("{:?}", other),
    }
    match command_matcher(&mut env, &words(&["pwd"])) {
        Action::Output(t) => assert_eq!(t, "/p\n"),
        other => panic!("{:?}", other),
    }
    match command_matcher(&mut env, &words(&["exit", "4"])) {
        Action::Exit(r) => assert_eq!(r, Ok(4)),
        other => panic!("{:?}", other),
    }
    assert!(matches!(command_matcher(&mut env, &words(&["ls", "-l"])), Action::External));
    assert!(matches!(command_matcher(&mut env, &words(&["cd", "/q"])), Action::ChangeDir(Ok(_))));
}

#[test]
fn chain_control_skips_failed_and_chain() {
    let mut env = store(&[]);
    assert_eq!(simulate(&mut env, "false && echo A ; echo B"), "B\n");
    assert_eq!(simulate(&mut env, "true && echo A ; echo B"), "A\nB\n");
    assert_eq!(simulate(&mut env, "false && echo A && echo C"), "");
}

#[test]
fn pipeline_wiring() {
    let cmds = split("printf \"x\\ny\\nz\" | wc -l");
    assert_eq!(cmds[0], ("printf \"x\\ny\\nz\"".to_string(), Separator::Pipe));
    assert_eq!(cmds[1], ("wc -l".to_string(), Separator::Empty));
    assert_eq!(splitter(&cmds[0].0), words(&["printf", "x\\ny\\nz"]));
    assert_eq!(chain_enter(ChainMode::Normal, Separator::Pipe, true), Step::Run(Wiring::PipeOut));
    assert_eq!(chain_after(Separator::Pipe, Wiring::PipeOut, Outcome::Ran(0)), ChainMode::Normal);
    assert_eq!(chain_enter(ChainMode::Normal, Separator::Empty, false), Step::Run(Wiring::Inherit));
}

#[test]
fn redirection_wiring_and_operand_skip() {
    let cmds = split("echo hi > out.txt");
    assert_eq!(cmds[0], ("echo hi".to_string(), Separator::WriteRedirection));
    assert_eq!(cmds[1], ("out.txt".to_string(), Separator::Empty));
    assert_eq!(echo_handler(&words(&["hi"])), "hi\n");
    assert_eq!(chain_enter(ChainMode::Normal, Separator::WriteRedirection, true), Step::Run(Wiring::Truncate));
    let mode = chain_after(Separator::WriteRedirection, Wiring::Truncate, Outcome::Ran(0));
    assert_eq!(mode, ChainMode::SkipOperand);
    assert_eq!(chain_enter(mode, Separator::Empty, false), Step::Skip(ChainMode::Normal));
    let cmds = split("echo bye >> out.txt");
    assert_eq!(cmds[0].1, Separator::WriteAppendRedirection);
    assert_eq!(chain_enter(ChainMode::Normal, Separator::WriteAppendRedirection, true), Step::Run(Wiring::Append));
    assert_eq!(echo_handler(&words(&["bye"])), "bye\n");
}

#[test]
fn file_error_skips_to_sequence() {
    let mode = chain_after(Separator::WriteRedirection, Wiring::Truncate, Outcome::FileError);
    assert_eq!(mode, ChainMode::SkipUntilSequence);
    assert_eq!(chain_enter(mode, Separator::SemiColon, true), Step::Skip(ChainMode::Normal));
    assert_eq!(chain_enter(mode, Separator::Empty, false), Step::Stop);
    assert_eq!(chain_enter(mode, Separator::Pipe, true), Step::Skip(ChainMode::SkipUntilSequence));
}

#[test]
fn signals() {
    assert_eq!(on_signal(Signal::Interrupt, 0), SignalAction::Redraw);
    assert_eq!(on_signal(Signal::Interrupt, 42), SignalAction::Forward(42));
    assert_eq!(on_signal(Signal::Quit, 42), SignalAction::Forward(42));
    assert_eq!(on_signal(Signal::Terminate, 42), SignalAction::Exit);
}
