use brainfuck::interp::{Action, Interp, Machine};

/// Runs `code`, answering its input requests with `lines`; `Err` with the
/// output so far when the program would panic or waits for more input.
fn run(code: &str, lines: &[&str]) -> Result<String, String> {
    let interp = Interp::new();
    let mut m = interp.interpret_main(code.to_string());
    let mut out = String::new();
    let mut lines = lines.iter();
    for _ in 0..1_000_000 {
        if m.faults() {
            return Err(out);
        }
        match m.step() {
            Action::Continue => {}
            Action::Output(c) => out.push(c),
            Action::StrayClose => out.push_str("Error?\n"),
            Action::NeedInput => match lines.next() {
                Some(l) => m.feed_line(&l.to_string()),
                None => return Err(out),
            },
            Action::Finished => return Ok(out),
        }
    }
    Err(out)
}

fn steps(m: &mut Machine, n: usize) {
    for _ in 0..n {
        assert!(!m.faults());
        m.step();
    }
}

#[test]
fn syms_are_the_command_characters() {
    assert_eq!(Interp::new()._syms, ['+', '-', '(', ')', '[', ']', '{', '}', '<', '>', ',', '.']);
}

#[test]
fn only_additions_print_nothing() {
    assert_eq!(run("+++++++++++++++++++", &[]), Ok(String::new()));
}

#[test]
fn loop_counts_down() {
    let expected: String = (1..=26u32).rev().map(|c| char::from_u32(c).unwrap()).collect();
    assert_eq!(run("++++++++++++++++++++++++++[.-]", &[]), Ok(expected));
}

#[test]
fn readme_function_example_prints_nothing() {
    assert_eq!(run("+++++++++++++++++++(++++++++++++++[.-])+++++++++()", &[]), Ok(String::new()));
    assert_eq!(run("()()", &[]), Ok(String::new()));
    assert_eq!(run("++++()>++++()", &[]), Ok(String::new()));
}

#[test]
fn function_cells_are_local() {
    assert_eq!(run("(.)+++++++++++++++++++++++++++++++++()", &[]), Ok(String::new()));
}

#[test]
fn call_body_runs_before_the_definition() {
    assert_eq!(run("(.)(+++++++++++++++++++++++++++++++++)", &[]), Ok("!".to_string()));
}

#[test]
fn scopes_share_cells() {
    assert_eq!(run("{+++++++++++++++++++++++++++++++++}{.}", &[]), Ok("!".to_string()));
    assert_eq!(run("({+++++++++++++++++++++++++++++++++})(){.}", &[]), Ok("!".to_string()));
}

#[test]
fn nested_scopes_use_the_outer_cells() {
    assert_eq!(run("+++++++++++++++++++++++++++++++++{{.}}", &[]), Ok("!".to_string()));
    assert_eq!(run("(+++++++++++++++++++++++++++++++++{{.}})()", &[]), Ok("!".to_string()));
    assert_eq!(run("+++{{.}}", &[]), Ok("\u{3}".to_string()));
}

#[test]
fn functions_of_a_scope_are_not_seen_from_a_nested_one() {
    assert_eq!(run("(+++++++++++++++++++++++++++++++++.){{()}}", &[]), Ok(String::new()));
    assert_eq!(run("{(++++++++++++++++++++++++)}{(++++++++++++++++++++++)}", &[]), Ok(String::new()));
    assert_eq!(run("{{}}", &[]), Ok(String::new()));
}

#[test]
fn backtick_comments_out_the_next_byte() {
    assert_eq!(run("+++++++++++++++++++++++++++++++++`.", &[]), Ok(String::new()));
    assert_eq!(run("+`+.", &[]), Ok("\u{1}".to_string()));
}

#[test]
fn other_characters_do_nothing() {
    assert_eq!(run("a+b.", &[]), Ok("\u{1}".to_string()));
}

#[test]
fn plus_minus_undo_each_other() {
    assert_eq!(run("+-.", &[]), Ok("\u{0}".to_string()));
    assert_eq!(run("-+.", &[]), Ok("\u{0}".to_string()));
    let mut m = Interp::new().interpret_main("+++><+-".to_string());
    steps(&mut m, 3);
    assert_eq!(m.current_cell(), Some(3));
    steps(&mut m, 2);
    assert_eq!(m.current_cell(), Some(3));
    steps(&mut m, 2);
    assert_eq!(m.current_cell(), Some(3));
}

#[test]
fn cells_wrap_around_as_bytes() {
    assert_eq!(run("-.", &[]), Ok("\u{ff}".to_string()));
    let mut m = Interp::new().interpret_main("-+".to_string());
    steps(&mut m, 1);
    assert_eq!(m.current_cell(), Some(255));
    steps(&mut m, 1);
    assert_eq!(m.current_cell(), Some(0));
}

#[test]
fn pointer_wraps_around() {
    let mut m = Interp::new().interpret_main("<+<".to_string());
    steps(&mut m, 2);
    assert_eq!(m.current_cell(), Some(1));
    assert_eq!(run("<+>.<.", &[]), Ok("\u{0}\u{1}".to_string()));
}

#[test]
fn call_gets_fresh_cells() {
    assert_eq!(run("+(-.)().", &[]), Ok("\u{ff}\u{1}".to_string()));
    assert_eq!(run("+(+++++++++++++++++++++++++++++++++.)()", &[]), Ok("!".to_string()));
}

#[test]
fn input_fills_the_cell() {
    assert_eq!(run(",.", &["A\n"]), Ok("A".to_string()));
    assert_eq!(run(",>,<.>.", &["ab\n"]), Ok("ab".to_string()));
    assert_eq!(run("(,.)(,.)", &["xy\n"]), Ok("xy".to_string()));
}

#[test]
fn empty_line_keeps_waiting() {
    assert_eq!(run(",.", &["\n", "Z\n"]), Ok("Z".to_string()));
    let mut m = Interp::new().interpret_main(",".to_string());
    assert_eq!(m.step(), Action::NeedInput);
    assert!(m.awaits_input());
    m.feed_line(&"\n".to_string());
    assert!(m.awaits_input());
    m.feed_line(&"q".to_string());
    assert!(!m.awaits_input());
    assert_eq!(m.current_cell(), Some('q' as u32));
}

#[test]
fn stray_close_reports() {
    assert_eq!(run(")", &[]), Ok("Error?\n".to_string()));
}

#[test]
fn finished_machine_stays_finished() {
    let mut m = Interp::new().interpret_main("".to_string());
    assert_eq!(m.step(), Action::Continue);
    assert!(m.is_finished());
    assert_eq!(m.step(), Action::Finished);
    assert_eq!(m.current_cell(), None);
}

#[test]
fn closing_brace_ends_the_program() {
    assert_eq!(run("}+.", &[]), Ok(String::new()));
}

#[test]
fn faults_where_the_program_must_stop() {
    assert_eq!(run("(`)", &[]), Err(String::new()));
    assert_eq!(run("{`}", &[]), Err(String::new()));
    assert_eq!(run("]", &[]), Err(String::new()));
    assert_eq!(run("+.-[", &[]), Err("\u{1}".to_string()));
    // a surrogate code is not a character
    assert_eq!(run(",-.", &["\u{e000}\n"]), Err(String::new()));
}

#[test]
fn zero_cell_skips_the_loop() {
    assert_eq!(run("[.]", &[]), Ok(String::new()));
    assert_eq!(run("[[.]+.]+.", &[]), Ok("\u{1}".to_string()));
    assert_eq!(run("[`].]+.", &[]), Ok("\u{1}".to_string()));
    assert_eq!(run("+[", &[]), Ok(String::new()));
}

#[test]
fn escaped_brackets_do_not_close_scopes() {
    let code = format!("{{`}}{}.}}", "+".repeat(33));
    assert_eq!(run(&code, &[]), Ok("!".to_string()));
    assert_eq!(run("(`))()", &[]), Ok(String::new()));
    assert_eq!(run("(+.`))()", &[]), Ok("\u{1}".to_string()));
    assert_eq!(run("(`()", &[]), Ok(String::new()));
}

#[test]
fn non_ascii_characters_are_comments() {
    assert_eq!(run("+я.", &[]), Ok("\u{1}".to_string()));
    assert_eq!(run("+.ж", &[]), Ok("\u{1}".to_string()));
    assert_eq!(run("+`я.", &[]), Ok("\u{1}".to_string()));
    assert_eq!(run("{+я}{.}", &[]), Ok("\u{1}".to_string()));
}

#[test]
fn byte_input_keeps_cells_bytes() {
    assert_eq!(run(",.", &["\u{ff}\n"]), Ok("\u{ff}".to_string()));
    assert_eq!(run(",+.", &["\u{ff}\n"]), Ok("\u{0}".to_string()));
}

#[test]
fn loop_with_multiplication() {
    assert_eq!(run("+++[>++++<-]>.", &[]), Ok("\u{c}".to_string()));
}

#[test]
fn inserted_comment_changes_no_output() {
    let programs = [
        "++++++++++++++++++++++++++[.-]",
        "+++++++++++++++++++(++++++++++++++[.-])+++++++++()",
        "(.)(+++++++++++++++++++++++++++++++++)",
        "({+++++++++++++++++++++++++++++++++})(){.}",
        "(+++++++++++++++++++++++++++++++++{{.}})()",
        "+++++++++++++++++++++++++++++++++`.",
        "+(-.)().+++[>++++<-]>.",
        "{`}+++++++++++++++++++++++++++++++++.}",
        ",[.,]",
    ];
    for code in programs {
        let lines = ["ab\n", "\n"];
        let expected = run(code, &lines);
        for p in 0..=code.len() {
            if p > 0 && code.as_bytes()[p - 1] == b'`' {
                continue;
            }
            for c in ['x', 'я', ' '] {
                let mut changed = code.to_string();
                changed.insert(p, c);
                assert_eq!(run(&changed, &lines), expected, "{} with {:?} at {}", code, c, p);
            }
        }
    }
}
