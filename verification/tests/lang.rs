use brainfuck::{Lang, TokLang};

#[test]
fn rust_pieces() {
    let t = Lang::to_tok_lang(Lang::Rust);
    assert_eq!(
        t.start,
        "\nuse std::char;\nuse std::io::stdin;\n\nfn main() {\n    let mut regs: Vec<i32> = vec![];\n    let mut ind = 0\n    let mut inp = String::new()\n"
    );
    assert_eq!(t.add, "regs[ind] = (regs[ind]+{num})%100\n");
    assert_eq!(t.sub, "regs[ind] = (regs[ind]+100-{num})%100\n");
    assert_eq!(t.next, "ind = (ind+{num})%100\n");
    assert_eq!(t.prev, "ind = (ind-{num})%100\n");
    assert_eq!(
        t.input,
        "stdin().read_line(&mut inp)\n    regs[ind] = inp.chars().next_back().unwrap().to_digit()\n"
    );
    assert_eq!(t.output, "println!(\"{}\", char::from_u32(regs[ind]).unwrap())\n");
    assert_eq!(t.start_loop, "while regs[ind] > 0 {\n");
    assert_eq!(t.end_loop, "}\n");
    assert_eq!(t.end, "}\n");
}

#[test]
fn to_tok_is_to_tok_lang() {
    let a = Lang::Rust.to_tok();
    let b = Lang::to_tok_lang(Lang::Rust);
    assert_eq!(a.add, b.add);
    assert_eq!(a.start, b.start);
    assert_eq!(a.end_loop, b.end_loop);
}

#[test]
fn new_keeps_every_piece() {
    let t = TokLang::new(
        "s".to_string(),
        "a".to_string(),
        "b".to_string(),
        "n".to_string(),
        "p".to_string(),
        "i".to_string(),
        "o".to_string(),
        "l".to_string(),
        "e".to_string(),
        "z".to_string(),
    );
    assert_eq!(
        vec![t.start, t.add, t.sub, t.next, t.prev, t.input, t.output, t.start_loop, t.end_loop, t.end],
        vec!["s", "a", "b", "n", "p", "i", "o", "l", "e", "z"]
    );
}
