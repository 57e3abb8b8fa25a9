use vstd::prelude::*;

verus! {

/// The pieces of target-language source text that Brainfuck commands are
/// compiled to. In `add`, `sub`, `next` and `prev` the placeholder `{num}`
/// stands for the command's repeat count.
pub struct TokLang {
    pub start: String,
    pub add: String,
    pub sub: String,
    pub next: String,
    pub prev: String,
    pub input: String,
    pub output: String,
    pub start_loop: String,
    pub end_loop: String,
    pub end: String,
}

/// The text of each piece of a `TokLang`.
pub struct TokLangView {
    pub start: Seq<char>,
    pub add: Seq<char>,
    pub sub: Seq<char>,
    pub next: Seq<char>,
    pub prev: Seq<char>,
    pub input: Seq<char>,
    pub output: Seq<char>,
    pub start_loop: Seq<char>,
    pub end_loop: Seq<char>,
    pub end: Seq<char>,
}

impl View for TokLang {
    type V = TokLangView;

    open spec fn view(&self) -> TokLangView {
        TokLangView {
            start: self.start@,
            add: self.add@,
            sub: self.sub@,
            next: self.next@,
            prev: self.prev@,
            input: self.input@,
            output: self.output@,
            start_loop: self.start_loop@,
            end_loop: self.end_loop@,
            end: self.end@,
        }
    }
}

impl TokLang {
    /// Gathers the ten pieces of a target language.
    pub fn new(
        start: String,
        add: String,
        sub: String,
        next: String,
        prev: String,
        input: String,
        output: String,
        start_loop: String,
        end_loop: String,
        end: String,
    ) -> (r: TokLang)
        ensures
            r.start == start,
            r.add == add,
            r.sub == sub,
            r.next == next,
            r.prev == prev,
            r.input == input,
            r.output == output,
            r.start_loop == start_loop,
            r.end_loop == end_loop,
            r.end == end,
    {
        TokLang { start, add, sub, next, prev, input, output, start_loop, end_loop, end }
    }
}

/// The target languages that programs can be compiled to.
pub enum Lang {
    Rust,
}

/// The Rust program header.
pub open spec fn rust_start() -> Seq<char> {
    "
use std::char;
use std::io::stdin;

fn main() {
    let mut regs: Vec<i32> = vec![];
    let mut ind = 0
    let mut inp = String::new()\n"@
}

/// Rust text for adding to the current cell.
pub open spec fn rust_add() -> Seq<char> {
    "regs[ind] = (regs[ind]+{num})%100\n"@
}

/// Rust text for subtracting from the current cell.
pub open spec fn rust_sub() -> Seq<char> {
    "regs[ind] = (regs[ind]+100-{num})%100\n"@
}

/// Rust text for moving to a later cell.
pub open spec fn rust_next() -> Seq<char> {
    "ind = (ind+{num})%100\n"@
}

/// Rust text for moving to an earlier cell.
pub open spec fn rust_prev() -> Seq<char> {
    "ind = (ind-{num})%100\n"@
}

/// Rust text for reading into the current cell.
pub open spec fn rust_input() -> Seq<char> {
    "stdin().read_line(&mut inp)
    regs[ind] = inp.chars().next_back().unwrap().to_digit()\n"@
}

/// Rust text for printing the current cell.
pub open spec fn rust_output() -> Seq<char> {
    "println!(\"{}\", char::from_u32(regs[ind]).unwrap())\n"@
}

/// Rust text opening a loop.
pub open spec fn rust_start_loop() -> Seq<char> {
    "while regs[ind] > 0 {\n"@
}

/// Rust text closing a loop.
pub open spec fn rust_end_loop() -> Seq<char> {
    "}\n"@
}

/// Rust text closing the program.
pub open spec fn rust_end() -> Seq<char> {
    "}\n"@
}

/// The pieces of the Rust target language.
pub open spec fn rust_tok_lang() -> TokLangView {
    TokLangView {
        start: rust_start(),
        add: rust_add(),
        sub: rust_sub(),
        next: rust_next(),
        prev: rust_prev(),
        input: rust_input(),
        output: rust_output(),
        start_loop: rust_start_loop(),
        end_loop: rust_end_loop(),
        end: rust_end(),
    }
}

/// The pieces of each target language.
pub open spec fn tok_lang_of(lang: Lang) -> TokLangView {
    match lang {
        Lang::Rust => rust_tok_lang(),
    }
}

impl Lang {
    /// The pieces of source text of the target language `lang`.
    pub fn to_tok_lang(lang: Lang) -> (r: TokLang)
        ensures
            r@ == tok_lang_of(lang),
    {
        match lang {
            Lang::Rust => {
                TokLang::new(
                    "
use std::char;
use std::io::stdin;

fn main() {
    let mut regs: Vec<i32> = vec![];
    let mut ind = 0
    let mut inp = String::new()\n".to_owned(),
                    "regs[ind] = (regs[ind]+{num})%100\n".to_owned(),
                    "regs[ind] = (regs[ind]+100-{num})%100\n".to_owned(),
                    "ind = (ind+{num})%100\n".to_owned(),
                    "ind = (ind-{num})%100\n".to_owned(),
                    "stdin().read_line(&mut inp)
    regs[ind] = inp.chars().next_back().unwrap().to_digit()\n".to_owned(),
                    "println!(\"{}\", char::from_u32(regs[ind]).unwrap())\n".to_owned(),
                    "while regs[ind] > 0 {\n".to_owned(),
                    "}\n".to_owned(),
                    "}\n".to_owned(),
                )
            },
        }
    }

    /// The pieces of source text of this target language.
    pub fn to_tok(self) -> (r: TokLang)
        ensures
            r@ == tok_lang_of(self),
    {
        Lang::to_tok_lang(self)
    }
}

} // verus!
