use brainfuck::error::{error_report, Error};
use brainfuck::interp::Interp;

fn s(t: &str) -> String {
    t.to_string()
}

#[test]
fn balanced_brackets_have_no_errors() {
    assert_eq!(Error::check_brackets(&s("(+{-[.]})")), vec![]);
    assert_eq!(Error::check_brackets(&s("")), vec![]);
}

#[test]
fn unclosed_bracket_is_reported_at_the_end() {
    assert_eq!(Error::check_brackets(&s("(")), vec![Error::UnclosedBracket(0, 0)]);
    assert_eq!(Error::check_brackets(&s("+ [ +")), vec![Error::UnclosedBracket(2, 2)]);
}

#[test]
fn unopened_bracket_is_reported_where_met() {
    assert_eq!(Error::check_brackets(&s(")")), vec![Error::UnopenedBracket(0, 0)]);
    assert_eq!(
        Error::check_brackets(&s("( ]")),
        vec![Error::UnopenedBracket(1, 2), Error::UnclosedBracket(1, 0)]
    );
}

#[test]
fn mismatched_kinds_are_errors() {
    assert_eq!(
        Error::check_brackets(&s("{[}]")),
        vec![Error::UnopenedBracket(0, 2), Error::UnclosedBracket(0, 0)]
    );
}

#[test]
fn backtick_hides_the_next_bracket() {
    assert_eq!(Error::check_brackets(&s("`)")), vec![]);
    assert_eq!(Error::check_brackets(&s("(`))")), vec![]);
}

#[test]
fn spaces_count_and_keep_the_comment_open() {
    // a space does not end the comment started by a backtick
    assert_eq!(Error::check_brackets(&s("` )")), vec![]);
    assert_eq!(Error::check_brackets(&s("a\nb )")), vec![Error::UnopenedBracket(2, 4)]);
}

#[test]
fn errors_point_at_brackets() {
    let code = s("a)b(c");
    let errors = Error::check_brackets(&code);
    let chars: Vec<char> = code.chars().collect();
    assert_eq!(errors.len(), 2);
    for e in errors {
        match e {
            Error::UnopenedBracket(_, i) => assert_eq!(chars[i], ')'),
            Error::UnclosedBracket(_, i) => assert_eq!(chars[i], '('),
        }
    }
}

#[test]
fn no_brackets_no_errors() {
    assert_eq!(Error::check_brackets(&s("+-<>.,abc `x")), vec![]);
}

#[test]
fn check_errors_and_check_code_agree_with_check_brackets() {
    let code = s("(]}{");
    let expected = Error::check_brackets(&code);
    assert_eq!(Error::check_errors(&code), expected);
    assert_eq!(Interp::new().check_code(&code), expected);
    assert_eq!(expected.len(), 4);
}

#[test]
fn report_of_unclosed_bracket() {
    let report = error_report(&s("("), Error::UnclosedBracket(0, 0));
    assert_eq!(
        report,
        "0:   (\n     ^\n     |\n     |\n     |\n------\nBracket was newer closed\n\n"
    );
}

#[test]
fn report_of_unopened_bracket() {
    let report = error_report(&s("+ + )"), Error::UnopenedBracket(12, 4));
    assert_eq!(
        report,
        "12:   + + )\n          ^\n          |\n          |\n          |\n-----------\nBracket was newer opened\n\n"
    );
}
