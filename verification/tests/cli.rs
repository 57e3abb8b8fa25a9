use brainfuck::cli::{is_exit, judge_line, parse_args, prepare_line, Command, LineStep};

fn args(a: &[&str]) -> Vec<String> {
    a.iter().map(|x| x.to_string()).collect()
}

#[test]
fn no_arguments_start_the_one_line_mode() {
    assert_eq!(parse_args(&args(&["bf"])), Command::Run { file: None, compile: false });
}

#[test]
fn help_wins_at_once() {
    assert_eq!(parse_args(&args(&["bf", "-h", "-f", "x"])), Command::Help);
    assert_eq!(parse_args(&args(&["bf", "-f", "x", "-h"])), Command::Help);
}

#[test]
fn file_and_compile_flags() {
    assert_eq!(
        parse_args(&args(&["bf", "-f", "prog.bf"])),
        Command::Run { file: Some("prog.bf".to_string()), compile: false }
    );
    assert_eq!(
        parse_args(&args(&["bf", "-c", "-f", "a", "-f", "b"])),
        Command::Run { file: Some("b".to_string()), compile: true }
    );
    assert_eq!(parse_args(&args(&["bf", "-f"])), Command::Run { file: None, compile: false });
}

#[test]
fn file_name_after_f_is_also_read_as_a_flag() {
    assert_eq!(parse_args(&args(&["bf", "-f", "-h"])), Command::Help);
}

#[test]
fn arrow_key_escapes_become_spaces() {
    assert_eq!(prepare_line(&"+\u{1b}[A.".to_string()), "+ A.");
    assert_eq!(prepare_line(&"\u{1b}\u{1b}[[".to_string()), "\u{1b} [");
    assert_eq!(prepare_line(&"+[.]".to_string()), "+[.]");
}

#[test]
fn exit_with_white_space() {
    assert!(is_exit(&"exit".to_string()));
    assert!(is_exit(&"  exit \t".to_string()));
    assert!(!is_exit(&"exit now".to_string()));
    assert!(!is_exit(&"+".to_string()));
}

#[test]
fn judge_line_reports_exits_or_runs() {
    assert!(matches!(judge_line(&"(".to_string()), LineStep::Report(e) if e.len() == 1));
    assert!(matches!(judge_line(&" exit\n".to_string()), LineStep::Exit));
    assert!(matches!(judge_line(&"\u{3000}exit\u{85}".to_string()), LineStep::Exit));
    assert!(matches!(judge_line(&"exit\u{200b}".to_string()), LineStep::Run));
    assert!(matches!(judge_line(&"+.".to_string()), LineStep::Run));
}
