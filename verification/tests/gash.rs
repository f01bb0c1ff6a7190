use lib::gash::{
    can_parse_command, dispatch, parse_command, plan_cmdline, plan_raw_cmdline,
    plan_shell_cmdline, split_args, Command, Shell, ShellAction,
};

fn c(s: &str) -> Vec<char> {
    s.chars().collect()
}

fn s(v: &[char]) -> String {
    v.iter().collect()
}

fn strs(v: &[Vec<char>]) -> Vec<String> {
    v.iter().map(|x| s(x)).collect()
}

#[test]
fn args_skip_empty_words() {
    assert_eq!(strs(&split_args(&c("  ls   -l  /tmp "))), vec!["ls", "-l", "/tmp"]);
    assert!(split_args(&c("")).is_empty());
    assert!(split_args(&c("    ")).is_empty());
    // Only spaces separate words.
    assert_eq!(strs(&split_args(&c("a\tb"))), vec!["a\tb"]);
}

#[test]
fn web_gash_pipeline_is_trimmed_and_wired() {
    let stages = plan_cmdline(&c(" ls -l | grep x |wc "));
    assert_eq!(stages.len(), 3);
    assert_eq!(s(&stages[0].command), "ls -l");
    assert_eq!(s(&stages[1].command), "grep x");
    assert_eq!(s(&stages[2].command), "wc");
    assert_eq!((stages[0].stdin_pipe, stages[0].stdout_pipe, stages[0].background), (None, Some(0), true));
    assert_eq!((stages[1].stdin_pipe, stages[1].stdout_pipe, stages[1].background), (Some(0), Some(1), true));
    assert_eq!((stages[2].stdin_pipe, stages[2].stdout_pipe, stages[2].background), (Some(1), None, false));
}

#[test]
fn single_command_is_one_stage() {
    let stages = plan_cmdline(&c("date"));
    assert_eq!(stages.len(), 1);
    assert_eq!((stages[0].stdin_pipe, stages[0].stdout_pipe, stages[0].background), (None, None, false));
    assert_eq!(plan_cmdline(&c("")).len(), 1);
}

#[test]
fn interactive_pipeline_drops_empty_pieces() {
    let stages = plan_shell_cmdline(&c("ls || wc"), true);
    assert_eq!(stages.len(), 2);
    assert_eq!(s(&stages[0].command), "ls ");
    assert_eq!(s(&stages[1].command), " wc");
    assert!(stages[0].background);
    assert!(stages[1].background);
    let stages = plan_shell_cmdline(&c("ls | wc"), false);
    assert!(!stages[1].background);
    assert!(plan_shell_cmdline(&c(""), false).is_empty());
    assert!(plan_shell_cmdline(&c("|"), false).is_empty());
}

#[test]
fn raw_pipeline_keeps_empty_pieces() {
    let stages = plan_raw_cmdline(&c("a||b"), false);
    assert_eq!(stages.len(), 3);
    assert_eq!(s(&stages[1].command), "");
}

#[test]
fn builtins() {
    assert!(matches!(dispatch(vec![c("help")]), Command::Help));
    assert!(matches!(dispatch(vec![c("exit"), c("now")]), Command::Exit));
    assert!(matches!(dispatch(vec![]), Command::Nothing));
    match dispatch(vec![c("cd"), c("/tmp"), c("x")]) {
        Command::Cd(Some(d)) => assert_eq!(s(&d), "/tmp"),
        _ => panic!("expected cd"),
    }
    assert!(matches!(dispatch(vec![c("cd")]), Command::Cd(None)));
    match dispatch(vec![c("ls"), c("-a")]) {
        Command::Run { program, args } => {
            assert_eq!(s(&program), "ls");
            assert_eq!(strs(&args), vec!["-a"]);
        }
        _ => panic!("expected a program"),
    }
}

#[test]
fn redirections_are_taken_out() {
    let line = c("sort < in.txt -r > out.txt");
    assert!(can_parse_command(&line));
    let p = parse_command(&line);
    assert_eq!(p.redirects.len(), 2);
    assert!(!p.redirects[0].to_file);
    assert_eq!(s(&p.redirects[0].path), "in.txt");
    assert!(p.redirects[1].to_file);
    assert_eq!(s(&p.redirects[1].path), "out.txt");
    match p.command {
        Command::Run { program, args } => {
            assert_eq!(s(&program), "sort");
            assert_eq!(strs(&args), vec!["-r"]);
        }
        _ => panic!("expected a program"),
    }
}

#[test]
fn word_after_a_redirection_is_not_an_operator() {
    // After `> f` the scan skips a word, so `< g` stays as arguments.
    let line = c("cat > f < g");
    assert!(can_parse_command(&line));
    let p = parse_command(&line);
    assert_eq!(p.redirects.len(), 1);
    match p.command {
        Command::Run { program, args } => {
            assert_eq!(s(&program), "cat");
            assert_eq!(strs(&args), vec!["<", "g"]);
        }
        _ => panic!("expected a program"),
    }
}

#[test]
fn redirection_without_file_cannot_be_parsed() {
    assert!(!can_parse_command(&c("ls >")));
    assert!(!can_parse_command(&c("<")));
    assert!(can_parse_command(&c("ls")));
}

#[test]
fn starting_shell_steps() {
    let mut sh = Shell::new(&c("gash > "));
    assert_eq!(s(sh.cmd_prompt()), "gash > ");
    assert!(matches!(sh.step(&c("   ")), ShellAction::Nothing));
    match sh.step(&c("  ls -l ")) {
        ShellAction::Run { program, args } => {
            assert_eq!(s(&program), "ls");
            assert_eq!(strs(&args), vec!["-l"]);
        }
        _ => panic!("expected a program"),
    }
    match sh.step(&c("history")) {
        ShellAction::PrintHistory(lines) => assert_eq!(strs(&lines), vec!["1 ls -l", "2 history"]),
        _ => panic!("expected history"),
    }
    assert!(matches!(sh.step(&c("exit")), ShellAction::Exit));
    assert_eq!(strs(&sh.history_lines()), vec!["1 ls -l", "2 history", "3 exit"]);
}

#[test]
fn interactive_shell_steps() {
    let mut sh = Shell::new(&c("gash > "));
    match sh.step_line(&c(" ping x | grep 1 && ")) {
        ShellAction::RunLine { cmd_line, background } => {
            assert_eq!(s(&cmd_line), "ping x | grep 1 ");
            assert!(background);
        }
        _ => panic!("expected a line"),
    }
    match sh.step_line(&c("ls")) {
        ShellAction::RunLine { cmd_line, background } => {
            assert_eq!(s(&cmd_line), "ls");
            assert!(!background);
        }
        _ => panic!("expected a line"),
    }
    assert!(matches!(sh.step_line(&c("exit&")), ShellAction::Exit));
    match sh.step_line(&c("history")) {
        ShellAction::PrintHistory(lines) => {
            assert_eq!(strs(&lines), vec!["1 ping x | grep 1 &&", "2 ls", "3 exit&", "4 history"])
        }
        _ => panic!("expected history"),
    }
}

#[test]
fn history_numbers_past_nine() {
    let mut sh = Shell::new(&c("> "));
    for i in 0..11 {
        sh.step(&c(&format!("cmd{}", i)));
    }
    let lines = strs(&sh.history_lines());
    assert_eq!(lines[9], "10 cmd9");
    assert_eq!(lines[10], "11 cmd10");
}

#[test]
fn first_gash_cuts_at_ampersand() {
    let (line, bg) = lib::gash::cut_at_ampersand(&c("sleep 5 & echo x"));
    assert_eq!(s(&line), "sleep 5 ");
    assert!(bg);
    let (line, bg) = lib::gash::cut_at_ampersand(&c("ls"));
    assert_eq!(s(&line), "ls");
    assert!(!bg);
}

#[test]
fn program_and_args_of_a_command() {
    let (p, a) = lib::gash::program_and_args(&c("  ls  -l   /tmp ")).unwrap();
    assert_eq!(s(&p), "ls");
    assert_eq!(strs(&a), vec!["-l".to_string(), "/tmp".to_string()]);
    assert!(lib::gash::program_and_args(&c("   ")).is_none());
    assert!(lib::gash::program_and_args(&c("")).is_none());
}
