//! The decisions of the command line and of the one-line mode.
use vstd::prelude::*;

use crate::bridge::{push_char, trim_text};
use crate::error::{bracket_errors, Error};
use crate::text::{chars_of, trimmed};

verus! {

/// What the command line asks for.
#[derive(Debug, PartialEq, Eq)]
pub enum Command {
    /// Print the help text.
    Help,
    /// Run (or, with `compile`, compile) the file, or start the one-line
    /// mode when no file is named.
    Run { file: Option<String>, compile: bool },
}

/// The value of a `Command`.
pub enum CommandView {
    Help,
    Run(Option<Seq<char>>, bool),
}

impl Command {
    pub open spec fn view_of(&self) -> CommandView {
        match self {
            Command::Help => CommandView::Help,
            Command::Run { file, compile } => CommandView::Run(
                match file {
                    Some(f) => Some(f@),
                    None => None,
                },
                *compile,
            ),
        }
    }
}

/// The texts of the arguments.
pub open spec fn arg_texts(args: Seq<String>) -> Seq<Seq<char>> {
    Seq::new(args.len(), |i: int| args[i]@)
}

/// Reading the arguments from index `k` on: `-h` asks for help at once;
/// `-f` names the file that follows it (when one follows); `-c` asks to
/// compile; anything else is passed over.
pub open spec fn command_from(a: Seq<Seq<char>>, k: int, file: Option<Seq<char>>, compile: bool) -> CommandView
    decreases a.len() - k,
{
    if k >= a.len() || k < 0 {
        CommandView::Run(file, compile)
    } else if a[k] == "-h"@ {
        CommandView::Help
    } else if a[k] == "-f"@ {
        command_from(a, k + 1, if k + 1 < a.len() { Some(a[k + 1]) } else { file }, compile)
    } else if a[k] == "-c"@ {
        command_from(a, k + 1, file, true)
    } else {
        command_from(a, k + 1, file, compile)
    }
}

/// Argument `i` is `-f` and a file name follows it.
pub open spec fn file_at(a: Seq<Seq<char>>, i: int) -> bool {
    0 <= i && i + 1 < a.len() && a[i] == "-f"@
}

/// Reading the arguments from `k` on: help exactly when a `-h` comes;
/// otherwise compile exactly when a `-c` comes (or was seen), and the file
/// is the one after the last `-f` that has one (or the one seen).
proof fn lemma_command_from(a: Seq<Seq<char>>, k: int, file: Option<Seq<char>>, compile: bool)
    requires
        0 <= k,
    ensures
        (command_from(a, k, file, compile) is Help) == (exists|i: int| k <= i < a.len() && a[i] == "-h"@),
        command_from(a, k, file, compile) matches CommandView::Run(f, c) ==> {
            &&& c == (compile || exists|i: int| k <= i < a.len() && a[i] == "-c"@)
            &&& (forall|i: int| k <= i ==> !file_at(a, i)) ==> f == file
            &&& (exists|i: int| k <= i && file_at(a, i)) ==> exists|i: int|
                k <= i && file_at(a, i) && f == Some(a[i + 1]) && forall|j: int| i < j ==> !file_at(a, j)
        },
    decreases a.len() - k,
{
    if k >= a.len() {
        return;
    }
    reveal_strlit("-h");
    reveal_strlit("-f");
    reveal_strlit("-c");
    assert("-f"@[1] != "-c"@[1] && "-h"@[1] != "-c"@[1] && "-h"@[1] != "-f"@[1]);
    let nf = if a[k] == "-f"@ && k + 1 < a.len() {
        Some(a[k + 1])
    } else {
        file
    };
    let nc = compile || a[k] == "-c"@;
    lemma_command_from(a, k + 1, nf, nc);
    if a[k] == "-h"@ {
        return;
    }
    assert(command_from(a, k, file, compile) == command_from(a, k + 1, nf, nc));
    if command_from(a, k + 1, nf, nc) is Help {
        let i = choose|i: int| k + 1 <= i < a.len() && a[i] == "-h"@;
        assert(k <= i < a.len() && a[i] == "-h"@);
    } else {
        assert(!(exists|i: int| k <= i < a.len() && a[i] == "-h"@)) by {
            if exists|i: int| k <= i < a.len() && a[i] == "-h"@ {
                let i = choose|i: int| k <= i < a.len() && a[i] == "-h"@;
                assert(i != k);
                assert(k + 1 <= i < a.len() && a[i] == "-h"@);
            }
        }
        match command_from(a, k + 1, nf, nc) {
            CommandView::Run(f, c) => {
                assert(c == (compile || exists|i: int| k <= i < a.len() && a[i] == "-c"@)) by {
                    if exists|i: int| k <= i < a.len() && a[i] == "-c"@ {
                        let i = choose|i: int| k <= i < a.len() && a[i] == "-c"@;
                        if i != k {
                            assert(k + 1 <= i < a.len() && a[i] == "-c"@);
                        }
                    }
                    if exists|i: int| k + 1 <= i < a.len() && a[i] == "-c"@ {
                        let i = choose|i: int| k + 1 <= i < a.len() && a[i] == "-c"@;
                        assert(k <= i < a.len() && a[i] == "-c"@);
                    }
                }
                if exists|i: int| k + 1 <= i && file_at(a, i) {
                    let i = choose|i: int|
                        k + 1 <= i && file_at(a, i) && f == Some(a[i + 1]) && forall|j: int| i < j ==> !file_at(a, j);
                    assert(k <= i && file_at(a, i) && f == Some(a[i + 1]) && forall|j: int| i < j ==> !file_at(a, j));
                } else if file_at(a, k) {
                    assert(f == nf);
                    assert forall|j: int| k < j implies !file_at(a, j) by {
                        if file_at(a, j) {
                            assert(k + 1 <= j && file_at(a, j));
                        }
                    }
                    assert(k <= k && file_at(a, k) && f == Some(a[k + 1]) && forall|j: int| k < j ==> !file_at(a, j));
                } else {
                    assert forall|i: int| k <= i implies !file_at(a, i) by {
                        if i != k && file_at(a, i) {
                            assert(k + 1 <= i && file_at(a, i));
                        }
                    }
                    assert(f == file);
                }
            },
            CommandView::Help => {},
        }
    }
}

/// What the command line asks for, whatever the order of its arguments:
/// help exactly when some argument is `-h`; otherwise to compile exactly
/// when some argument is `-c`, and the file named after the last `-f` that
/// is followed by an argument (none when no `-f` is).
pub proof fn law_command_line(a: Seq<Seq<char>>)
    ensures
        (command_from(a, 0, None, false) is Help) == (exists|i: int| 0 <= i < a.len() && a[i] == "-h"@),
        command_from(a, 0, None, false) matches CommandView::Run(f, c) ==> {
            &&& c == (exists|i: int| 0 <= i < a.len() && a[i] == "-c"@)
            &&& (forall|i: int| !file_at(a, i)) ==> f is None
            &&& (exists|i: int| file_at(a, i)) ==> exists|i: int|
                file_at(a, i) && f == Some(a[i + 1]) && forall|j: int| i < j ==> !file_at(a, j)
        },
{
    lemma_command_from(a, 0, None, false);
    if command_from(a, 0, None, false) is Run {
        if exists|i: int| file_at(a, i) {
            let i = choose|i: int| file_at(a, i);
            assert(0 <= i && file_at(a, i));
        } else {
            assert forall|i: int| 0 <= i implies !file_at(a, i) by {}
        }
    }
}

/// Reads the command line (the program's own name included).
pub fn parse_args(args: &Vec<String>) -> (r: Command)
    ensures
        r.view_of() == command_from(arg_texts(args@), 0, None, false),
{
    let help = "-h".to_owned();
    let file_flag = "-f".to_owned();
    let compile_flag = "-c".to_owned();
    let mut file_name: Option<String> = None;
    let mut compile = false;
    let mut id: usize = 0;
    let ghost a = arg_texts(args@);
    while id < args.len()
        invariant
            id <= args.len(),
            a == arg_texts(args@),
            help@ == "-h"@,
            file_flag@ == "-f"@,
            compile_flag@ == "-c"@,
            command_from(a, 0, None, false) == command_from(
                a,
                id as int,
                match file_name {
                    Some(f) => Some(f@),
                    None => None,
                },
                compile,
            ),
        decreases args.len() - id,
    {
        assert(a[id as int] == args@[id as int]@);
        if args[id] == help {
            return Command::Help;
        } else if args[id] == file_flag {
            if args.len() > id + 1 {
                file_name = Some(args[id + 1].clone());
            }
        } else if args[id] == compile_flag {
            compile = true;
        }
        id += 1;
    }
    Command::Run { file: file_name, compile }
}

/// `s` with each escape character followed by `[` replaced by one space.
pub open spec fn without_escapes(s: Seq<char>) -> Seq<char>
    decreases s.len(),
{
    if s.len() == 0 {
        s
    } else if s.len() >= 2 && s[0] == '\u{1b}' && s[1] == '[' {
        seq![' '] + without_escapes(s.skip(2))
    } else {
        seq![s[0]] + without_escapes(s.skip(1))
    }
}

/// A line typed in the one-line mode, with the escape sequences that
/// arrow keys leave (`ESC [`) turned into spaces.
pub fn prepare_line(line: &String) -> (r: String)
    ensures
        r@ == without_escapes(line@),
{
    let chars = chars_of(line.as_str());
    let mut r = String::new();
    let mut i: usize = 0;
    assert(chars@.skip(0) =~= chars@);
    while i < chars.len()
        invariant
            i <= chars.len(),
            chars@ == line@,
            without_escapes(line@) == r@ + without_escapes(chars@.skip(i as int)),
        decreases chars.len() - i,
    {
        let ghost rest = chars@.skip(i as int);
        if chars[i] == '\u{1b}' && i + 1 < chars.len() && chars[i + 1] == '[' {
            push_char(&mut r, ' ');
            assert(rest.skip(2) =~= chars@.skip(i + 2));
            i += 2;
        } else {
            push_char(&mut r, chars[i]);
            assert(rest.skip(1) =~= chars@.skip(i + 1));
            i += 1;
        }
    }
    assert(chars@.skip(i as int) =~= Seq::<char>::empty());
    assert(r@ + Seq::<char>::empty() =~= r@);
    r
}

/// Whether the typed line asks to leave the one-line mode: `exit`, with
/// white space around it or not.
pub fn is_exit(code: &String) -> (r: bool)
    ensures
        r == (trimmed(code@) == "exit"@),
{
    let t = trim_text(code.as_str()).to_owned();
    let exit = "exit".to_owned();
    t == exit
}

/// What the one-line mode does with a typed line.
pub enum LineStep {
    /// Print these bracket errors and wait for the next line.
    Report(Vec<Error>),
    /// Leave the one-line mode.
    Exit,
    /// Run the line as a program.
    Run,
}

/// The one-line mode's decision on a typed (and prepared) line: report its
/// bracket errors if it has any; else leave on `exit`; else run it.
pub fn judge_line(code: &String) -> (r: LineStep)
    ensures
        match r {
            LineStep::Report(errors) => errors@ == bracket_errors(code@) && errors@.len() > 0,
            LineStep::Exit => bracket_errors(code@).len() == 0 && trimmed(code@) == "exit"@,
            LineStep::Run => bracket_errors(code@).len() == 0 && trimmed(code@) != "exit"@,
        },
{
    let errors = Error::check_brackets(code);
    if errors.len() > 0 {
        LineStep::Report(errors)
    } else if is_exit(code) {
        LineStep::Exit
    } else {
        LineStep::Run
    }
}

} // verus!
