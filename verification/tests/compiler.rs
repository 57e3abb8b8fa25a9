use brainfuck::compiler::{Compiler, Token};
use brainfuck::Lang;
use brainfuck::Error;

fn s(t: &str) -> String {
    t.to_string()
}

const HEAD: &str = "\nuse std::char;\nuse std::io::stdin;\n\nfn main() {\n    let mut regs: Vec<i32> = vec![];\n    let mut ind = 0\n    let mut inp = String::new()\n";

#[test]
fn tokenize_one_token_per_byte() {
    assert_eq!(
        Compiler::tokenize(&s("+-><,.x]")),
        vec![
            Token::Add(1),
            Token::Sub(1),
            Token::Next(1),
            Token::Prev(1),
            Token::Input,
            Token::Output,
            Token::Add(0),
            Token::Add(0),
        ]
    );
}

#[test]
fn tokenize_loops() {
    assert_eq!(
        Compiler::tokenize(&s("+[-[>]]<")),
        vec![
            Token::Add(1),
            Token::Loop(vec![Token::Sub(1), Token::Loop(vec![Token::Next(1)])]),
            Token::Prev(1),
        ]
    );
    assert_eq!(Compiler::tokenize(&s("[]")), vec![Token::Loop(vec![])]);
}

#[test]
fn optimize_merges_additions() {
    let mut t = Compiler::tokenize(&s("+++"));
    Compiler::optimize(&mut t);
    assert_eq!(t, vec![Token::Add(3)]);
}

#[test]
fn optimize_merges_a_subtraction_into_an_addition() {
    let mut t = vec![Token::Add(1), Token::Sub(3)];
    Compiler::optimize(&mut t);
    assert_eq!(t, vec![Token::Sub(2)]);
    let mut t = vec![Token::Add(3), Token::Sub(1), Token::Add(2)];
    Compiler::optimize(&mut t);
    assert_eq!(t, vec![Token::Add(4)]);
}

#[test]
fn optimize_leaves_a_subtraction_first() {
    let mut t = vec![Token::Sub(1), Token::Add(1), Token::Next(1), Token::Add(1), Token::Add(2)];
    Compiler::optimize(&mut t);
    assert_eq!(t, vec![Token::Sub(1), Token::Add(1), Token::Next(1), Token::Add(3)]);
}

#[test]
fn optimize_keeps_the_net_count() {
    let mut t = Compiler::tokenize(&s("++-+--+-->"));
    Compiler::optimize(&mut t);
    assert_eq!(t, vec![Token::Sub(1), Token::Next(1)]);
}

#[test]
fn optimize_is_idempotent_and_shortens() {
    let mut t = Compiler::tokenize(&s("+-+>--<+[+]+"));
    let before = t.len();
    Compiler::optimize(&mut t);
    let once = format!("{:?}", t);
    assert!(t.len() <= before);
    Compiler::optimize(&mut t);
    assert_eq!(format!("{:?}", t), once);
}

#[test]
fn compile_tokens_indents_loops() {
    let t = vec![Token::Loop(vec![Token::Sub(1)]), Token::Output];
    assert_eq!(
        Compiler::_compile(&t, 1, false),
        "    while regs[ind] > 0 {\n        regs[ind] = (regs[ind]+100-1)%100\n    }\n    \n"
    );
}

#[test]
fn compile_counts_in_decimal() {
    let t = vec![Token::Add(123), Token::Next(-7)];
    assert_eq!(
        Compiler::_compile(&t, 0, false),
        "regs[ind] = (regs[ind]+123)%100\nind = (ind+-7)%100\n"
    );
}

#[test]
fn compile_whole_program() {
    let out = Compiler::compile(&s("+++>")).unwrap();
    assert_eq!(
        out,
        format!("{}    regs[ind] = (regs[ind]+3)%100\n    ind = (ind+1)%100\n}}\n", HEAD)
    );
}

#[test]
fn compile_reports_bracket_errors() {
    assert_eq!(Compiler::compile(&s("+(")), Err(vec![Error::UnclosedBracket(0, 1)]));
}

#[test]
fn can_compile_tells_the_panicking_texts() {
    assert!(Compiler::can_compile(&s("+[-]")));
    assert!(Compiler::can_compile(&s("(")));
    assert!(!Compiler::can_compile(&s("")));
    assert!(!Compiler::can_compile(&s("`[")));
    assert!(!Compiler::can_compile(&s("+ж")));
}

#[test]
fn counts_fit_follows_the_merges() {
    assert!(Compiler::counts_fit(&vec![Token::Add(2147483646), Token::Add(1)]));
    assert!(!Compiler::counts_fit(&vec![Token::Add(2147483647), Token::Add(1)]));
    assert!(Compiler::counts_fit(&vec![Token::Add(2147483647), Token::Sub(1), Token::Add(1)]));
    assert!(Compiler::counts_fit(&vec![Token::Sub(2147483647), Token::Sub(2147483647)]));
    assert!(Compiler::counts_fit(&vec![Token::Add(2147483647), Token::Output, Token::Add(1)]));
    assert!(Compiler::counts_fit(&vec![]));
}

#[test]
fn whole_program_wraps_the_body() {
    let tokens = Compiler::tokenize(&s("+[-]."));
    let body = Compiler::_compile(&tokens, 1, false);
    let whole = Compiler::_compile(&tokens, 1, true);
    let lang = Lang::to_tok_lang(Lang::Rust);
    assert_eq!(whole, format!("{}{}{}", lang.start, body, lang.end));
}
