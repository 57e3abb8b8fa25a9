use vstd::prelude::*;

use crate::bridge::push_char;
use crate::text::{chars_of, decimal, spaces, usize_text};

verus! {

/// A bracket error found before running a program: the number of spaces and
/// newlines seen before the bracket, then the bracket's character index.
#[derive(Clone, Copy, Debug, PartialEq, Eq, Structural)]
pub enum Error {
    UnclosedBracket(usize, usize),
    UnopenedBracket(usize, usize),
}

/// The state of the bracket scan after some prefix of the code.
pub struct BracketScan {
    /// Brackets still open: kind (0 for `(`, 1 for `{`, 2 for `[`) and index.
    pub open: Seq<(u8, usize)>,
    /// Errors found so far, in order.
    pub errors: Seq<Error>,
    /// Spaces and newlines seen so far.
    pub line: nat,
    /// Whether the previous significant character was a backtick.
    pub in_comment: bool,
}

/// The kind of an opening bracket.
pub open spec fn open_kind(c: char) -> Option<u8> {
    if c == '(' {
        Some(0u8)
    } else if c == '{' {
        Some(1u8)
    } else if c == '[' {
        Some(2u8)
    } else {
        None
    }
}

/// The kind of a closing bracket.
pub open spec fn close_kind(c: char) -> Option<u8> {
    if c == ')' {
        Some(0u8)
    } else if c == '}' {
        Some(1u8)
    } else if c == ']' {
        Some(2u8)
    } else {
        None
    }
}

/// One character of the bracket scan; `id` is the character's index.
pub open spec fn scan_step(st: BracketScan, c: char, id: int) -> BracketScan {
    if c == '\n' || c == ' ' {
        BracketScan { open: st.open, errors: st.errors, line: st.line + 1, in_comment: st.in_comment }
    } else if st.in_comment {
        BracketScan { open: st.open, errors: st.errors, line: st.line, in_comment: false }
    } else if c == '`' {
        BracketScan { open: st.open, errors: st.errors, line: st.line, in_comment: true }
    } else if open_kind(c) is Some {
        BracketScan {
            open: st.open.push((open_kind(c)->0, id as usize)),
            errors: st.errors,
            line: st.line,
            in_comment: st.in_comment,
        }
    } else if close_kind(c) is Some {
        if st.open.len() > 0 && st.open.last().0 == close_kind(c)->0 {
            BracketScan {
                open: st.open.drop_last(),
                errors: st.errors,
                line: st.line,
                in_comment: st.in_comment,
            }
        } else {
            BracketScan {
                open: st.open,
                errors: st.errors.push(Error::UnopenedBracket(st.line as usize, id as usize)),
                line: st.line,
                in_comment: st.in_comment,
            }
        }
    } else {
        st
    }
}

/// The bracket scan over a whole prefix of the code.
pub open spec fn bracket_scan(s: Seq<char>) -> BracketScan
    decreases s.len(),
{
    if s.len() == 0 {
        BracketScan { open: Seq::empty(), errors: Seq::empty(), line: 0, in_comment: false }
    } else {
        scan_step(bracket_scan(s.drop_last()), s.last(), s.len() - 1)
    }
}

/// One "never closed" error per bracket still open at the end.
pub open spec fn unclosed_errors(open: Seq<(u8, usize)>, line: nat) -> Seq<Error> {
    Seq::new(open.len(), |i: int| Error::UnclosedBracket(line as usize, open[i].1))
}

/// All bracket errors of a program: the "never opened" ones in the order
/// met, then one "never closed" error per bracket left open.
pub open spec fn bracket_errors(s: Seq<char>) -> Seq<Error> {
    let st = bracket_scan(s);
    st.errors + unclosed_errors(st.open, st.line)
}

impl Error {
    /// Finds the brackets of `code` that are never opened or never closed.
    pub fn check_brackets(code: &String) -> (errors: Vec<Error>)
        ensures
            errors@ == bracket_errors(code@),
    {
        let chars = chars_of(code.as_str());
        let mut brackets: Vec<(u8, usize)> = Vec::new();
        let mut errors: Vec<Error> = Vec::new();
        let mut string_id: usize = 0;
        let mut in_comment = false;
        let mut id: usize = 0;
        while id < chars.len()
            invariant
                chars@ == code@,
                id <= chars.len(),
                string_id <= id,
                bracket_scan(chars@.take(id as int)) == (BracketScan {
                    open: brackets@,
                    errors: errors@,
                    line: string_id as nat,
                    in_comment,
                }),
            decreases chars.len() - id,
        {
            let ch = chars[id];
            assert(chars@.take(id + 1).drop_last() =~= chars@.take(id as int));
            if ch == '\n' || ch == ' ' {
                string_id += 1;
            } else if in_comment {
                in_comment = false;
            } else if ch == '`' {
                in_comment = true;
            } else if ch == '(' {
                brackets.push((0, id));
            } else if ch == '{' {
                brackets.push((1, id));
            } else if ch == '[' {
                brackets.push((2, id));
            } else if ch == ')' || ch == '}' || ch == ']' {
                let kind: u8 = if ch == ')' {
                    0
                } else if ch == '}' {
                    1
                } else {
                    2
                };
                let len = brackets.len();
                if len == 0 {
                    errors.push(Error::UnopenedBracket(string_id, id));
                } else if brackets[len - 1].0 != kind {
                    errors.push(Error::UnopenedBracket(string_id, id));
                } else {
                    brackets.pop();
                }
            }
            id += 1;
        }
        assert(chars@.take(id as int) =~= code@);
        let ghost closed_before = errors@;
        let mut k: usize = 0;
        while k < brackets.len()
            invariant
                k <= brackets.len(),
                errors@ == closed_before + unclosed_errors(brackets@.take(k as int), string_id as nat),
            decreases brackets.len() - k,
        {
            errors.push(Error::UnclosedBracket(string_id, brackets[k].1));
            k += 1;
            assert(unclosed_errors(brackets@.take(k as int), string_id as nat) =~= unclosed_errors(
                brackets@.take(k - 1),
                string_id as nat,
            ).push(Error::UnclosedBracket(string_id, brackets@[k - 1].1)));
        }
        assert(brackets@.take(k as int) =~= brackets@);
        errors
    }

    /// All the errors that stop a program from running: its bracket errors.
    pub fn check_errors(code: &String) -> (errors: Vec<Error>)
        ensures
            errors@ == bracket_errors(code@),
    {
        let found = Error::check_brackets(code);
        let mut errors: Vec<Error> = Vec::new();
        let mut i: usize = 0;
        while i < found.len()
            invariant
                i <= found.len(),
                errors@ == found@.take(i as int),
            decreases found.len() - i,
        {
            errors.push(found[i]);
            i += 1;
            assert(found@.take(i as int) =~= found@.take(i - 1).push(found@[i - 1]));
        }
        assert(found@.take(i as int) =~= found@);
        errors
    }
}

/// The line number, the character index and the message of an error.
pub open spec fn error_parts(error: Error) -> (usize, usize, Seq<char>) {
    match error {
        Error::UnopenedBracket(l, i) => (l, i, "Bracket was newer opened"@),
        Error::UnclosedBracket(l, i) => (l, i, "Bracket was newer closed"@),
    }
}

/// `n` copies of `c`.
pub open spec fn repeated(c: char, n: nat) -> Seq<char> {
    Seq::new(n, |i: int| c)
}

/// The report of `error` in the program `s`: the program after its line
/// number, a caret under the bracket with three bars under it, a rule of
/// dashes, the message, and an empty line.
pub open spec fn report_text(s: Seq<char>, error: Error) -> Seq<char> {
    let (l, i, msg) = error_parts(error);
    let shift = spaces((decimal(l as int).len() + 4) as nat);
    let pad = spaces(i as nat);
    let rule = repeated('-', (i + 1 + shift.len()) as nat);
    ((((((((decimal(l as int) + ":   "@ + s).push('\n') + shift + pad + seq!['^', '\n']) + shift
        + pad + seq!['|', '\n']) + shift + pad + seq!['|', '\n']) + shift + pad + seq!['|', '\n'])
        + rule).push('\n') + msg).push('\n')).push('\n')
}

/// The index that an error points at.
pub open spec fn error_index(error: Error) -> usize {
    error_parts(error).1
}

/// Appends `n` copies of `c`.
fn push_repeated(r: &mut String, c: char, n: usize)
    ensures
        final(r)@ == old(r)@ + repeated(c, n as nat),
{
    let mut k: usize = 0;
    while k < n
        invariant
            k <= n,
            r@ == old(r)@ + repeated(c, k as nat),
        decreases n - k,
    {
        push_char(r, c);
        assert(repeated(c, (k + 1) as nat) =~= repeated(c, k as nat).push(c));
        k += 1;
    }
}

/// Appends a marker line: `shift + index` spaces, then `c`.
fn push_mark_line(r: &mut String, shift: usize, index: usize, c: char)
    ensures
        final(r)@ == old(r)@ + spaces(shift as nat) + spaces(index as nat) + seq![c, '\n'],
{
    push_repeated(r, ' ', shift);
    push_repeated(r, ' ', index);
    push_char(r, c);
    push_char(r, '\n');
    assert(repeated(' ', shift as nat) =~= spaces(shift as nat));
    assert(repeated(' ', index as nat) =~= spaces(index as nat));
    assert(final(r)@ =~= old(r)@ + spaces(shift as nat) + spaces(index as nat) + seq![c, '\n']);
}

/// The text that reports `error` in the program `s`.
pub fn error_report(s: &String, error: Error) -> (r: String)
    requires
        error_index(error) + 1 + decimal(error_parts(error).0 as int).len() + 4 <= usize::MAX,
    ensures
        r@ == report_text(s@, error),
{
    let (string_id, sym_id) = match error {
        Error::UnopenedBracket(l, i) => (l, i),
        Error::UnclosedBracket(l, i) => (l, i),
    };
    let line = usize_text(string_id);
    proof {
        crate::text::lemma_decimal_len(string_id as nat);
    }
    let shift = line.as_str().unicode_len() + 4;
    let mut r = String::new();
    r.append(line.as_str());
    r.append(":   ");
    r.append(s.as_str());
    push_char(&mut r, '\n');
    let ghost head = r@;
    push_mark_line(&mut r, shift, sym_id, '^');
    push_mark_line(&mut r, shift, sym_id, '|');
    push_mark_line(&mut r, shift, sym_id, '|');
    push_mark_line(&mut r, shift, sym_id, '|');
    let ghost marks = r@;
    push_repeated(&mut r, '-', sym_id + 1 + shift);
    push_char(&mut r, '\n');
    let ghost rule = r@;
    match error {
        Error::UnopenedBracket(_, _) => r.append("Bracket was newer opened"),
        Error::UnclosedBracket(_, _) => r.append("Bracket was newer closed"),
    }
    push_char(&mut r, '\n');
    push_char(&mut r, '\n');
    assert(r@ == report_text(s@, error));
    r
}

/// Every error points at a bracket of the program: a "never opened" error at
/// a closing bracket, a "never closed" one at an opening bracket; and the
/// count of spaces and newlines it carries is at most the bracket's index.
pub proof fn law_errors_point_at_brackets(s: Seq<char>)
    requires
        s.len() <= usize::MAX,
    ensures
        forall|k: int|
            0 <= k < bracket_errors(s).len() ==> match #[trigger] bracket_errors(s)[k] {
                Error::UnopenedBracket(l, i) => i < s.len() && close_kind(s[i as int]) is Some && l
                    <= i,
                Error::UnclosedBracket(l, i) => i < s.len() && open_kind(s[i as int]) is Some && l
                    <= s.len(),
            },
{
    lemma_scan_points(s);
    let st = bracket_scan(s);
    let u = unclosed_errors(st.open, st.line);
    assert forall|k: int| 0 <= k < bracket_errors(s).len() implies match #[trigger] bracket_errors(
        s,
    )[k] {
        Error::UnopenedBracket(l, i) => i < s.len() && close_kind(s[i as int]) is Some && l <= i,
        Error::UnclosedBracket(l, i) => i < s.len() && open_kind(s[i as int]) is Some && l <= s.len(),
    } by {
        if k >= st.errors.len() {
            assert(bracket_errors(s)[k] == u[k - st.errors.len()]);
        } else {
            assert(bracket_errors(s)[k] == st.errors[k]);
        }
    }
}

proof fn lemma_scan_points(s: Seq<char>)
    requires
        s.len() <= usize::MAX,
    ensures
        bracket_scan(s).line <= s.len(),
        forall|k: int|
            0 <= k < bracket_scan(s).errors.len() ==> match #[trigger] bracket_scan(s).errors[k] {
                Error::UnopenedBracket(l, i) => i < s.len() && close_kind(s[i as int]) is Some && l
                    <= i,
                Error::UnclosedBracket(_, _) => false,
            },
        forall|k: int|
            0 <= k < bracket_scan(s).open.len() ==> {
                let (kind, i) = #[trigger] bracket_scan(s).open[k];
                i < s.len() && open_kind(s[i as int]) == Some(kind)
            },
    decreases s.len(),
{
    if s.len() > 0 {
        let d = s.drop_last();
        lemma_scan_points(d);
        let prev = bracket_scan(d);
        let st = bracket_scan(s);
        let c = s.last();
        let id = s.len() - 1;
        assert forall|k: int| 0 <= k < st.errors.len() implies match #[trigger] st.errors[k] {
            Error::UnopenedBracket(l, i) => i < s.len() && close_kind(s[i as int]) is Some && l <= i,
            Error::UnclosedBracket(_, _) => false,
        } by {
            if k < prev.errors.len() {
                assert(st.errors[k] == prev.errors[k]);
                match prev.errors[k] {
                    Error::UnopenedBracket(l, i) => {
                        assert(s[i as int] == d[i as int]);
                    },
                    Error::UnclosedBracket(_, _) => {},
                }
            }
        }
        assert forall|k: int| 0 <= k < st.open.len() implies {
            let (kind, i) = #[trigger] st.open[k];
            i < s.len() && open_kind(s[i as int]) == Some(kind)
        } by {
            if k < prev.open.len() {
                assert(st.open[k] == prev.open[k]);
                assert(s[prev.open[k].1 as int] == d[prev.open[k].1 as int]);
            }
        }
    }
}

/// A program with no bracket characters has no bracket errors.
pub proof fn law_no_brackets_no_errors(s: Seq<char>)
    requires
        forall|i: int| 0 <= i < s.len() ==> open_kind(#[trigger] s[i]) is None && close_kind(s[i]) is None,
    ensures
        bracket_errors(s) == Seq::<Error>::empty(),
{
    lemma_scan_no_brackets(s);
    assert(bracket_errors(s) =~= Seq::<Error>::empty());
}

proof fn lemma_scan_no_brackets(s: Seq<char>)
    requires
        forall|i: int| 0 <= i < s.len() ==> open_kind(#[trigger] s[i]) is None && close_kind(s[i]) is None,
    ensures
        bracket_scan(s).errors.len() == 0,
        bracket_scan(s).open.len() == 0,
    decreases s.len(),
{
    if s.len() > 0 {
        let d = s.drop_last();
        assert forall|i: int| 0 <= i < d.len() implies open_kind(#[trigger] d[i]) is None && close_kind(d[i]) is None by {
            assert(d[i] == s[i]);
        }
        lemma_scan_no_brackets(d);
        assert(open_kind(s[s.len() - 1]) is None);
    }
}

/// Whether the character at index `n` of `s` is passed over as a comment:
/// a backtick, not itself passed over, makes the next character other than
/// a space or a newline a comment.
pub open spec fn commented_at(s: Seq<char>, n: int) -> bool
    decreases n,
{
    if n <= 0 {
        false
    } else {
        let c = s[n - 1];
        let before = commented_at(s, n - 1);
        if c == '\n' || c == ' ' {
            before
        } else if before {
            false
        } else {
            c == '`'
        }
    }
}

/// The number of opening brackets of kind `k` among the first `n`
/// characters of `s` that are not comments.
pub open spec fn opens_before(s: Seq<char>, n: int, k: u8) -> nat
    decreases n,
{
    if n <= 0 {
        0
    } else {
        opens_before(s, n - 1, k) + if !commented_at(s, n - 1) && open_kind(s[n - 1]) == Some(k) {
            1nat
        } else {
            0nat
        }
    }
}

/// The number of closing brackets of kind `k` among the first `n`
/// characters of `s` that are not comments.
pub open spec fn closes_before(s: Seq<char>, n: int, k: u8) -> nat
    decreases n,
{
    if n <= 0 {
        0
    } else {
        closes_before(s, n - 1, k) + if !commented_at(s, n - 1) && close_kind(s[n - 1]) == Some(k) {
            1nat
        } else {
            0nat
        }
    }
}

/// The number of brackets of kind `k` on a stack of open brackets.
pub open spec fn open_count(open: Seq<(u8, usize)>, k: u8) -> nat
    decreases open.len(),
{
    if open.len() == 0 {
        0
    } else {
        open_count(open.drop_last(), k) + if open.last().0 == k {
            1nat
        } else {
            0nat
        }
    }
}

/// Along the scan: the comment state is `commented_at`, errors only grow,
/// and while none was found, the open brackets of each kind are the opens
/// of that kind so far less its closes.
proof fn lemma_scan_counts(s: Seq<char>, n: int)
    requires
        0 <= n <= s.len(),
    ensures
        bracket_scan(s.take(n)).in_comment == commented_at(s, n),
        forall|m: int| 0 <= m <= n ==> bracket_scan(s.take(m)).errors.len() <= #[trigger] bracket_scan(s.take(n)).errors.len(),
        bracket_scan(s.take(n)).errors.len() == 0 ==> forall|k: u8|
            #[trigger] open_count(bracket_scan(s.take(n)).open, k) + closes_before(s, n, k) == opens_before(s, n, k),
    decreases n,
{
    if n == 0 {
        assert(s.take(0) =~= Seq::<char>::empty());
    } else {
        lemma_scan_counts(s, n - 1);
        assert(s.take(n).drop_last() =~= s.take(n - 1));
        assert(s.take(n).last() == s[n - 1]);
        let st = bracket_scan(s.take(n - 1));
        let nt = bracket_scan(s.take(n));
        assert(nt == scan_step(st, s[n - 1], n - 1));
        assert(nt.errors.len() >= st.errors.len());
        if nt.errors.len() == 0 {
            let c = s[n - 1];
            assert(st.errors.len() == 0);
            assert forall|k: u8| #[trigger] open_count(nt.open, k) + closes_before(s, n, k) == opens_before(s, n, k) by {
                assert(open_count(st.open, k) + closes_before(s, n - 1, k) == opens_before(s, n - 1, k));
                if c == '\n' || c == ' ' || st.in_comment || c == '`' {
                    assert(nt.open == st.open);
                } else if open_kind(c) is Some {
                    assert(nt.open == st.open.push((open_kind(c)->0, (n - 1) as usize)));
                    assert(nt.open.drop_last() =~= st.open);
                } else if close_kind(c) is Some {
                    assert(st.open.len() > 0 && st.open.last().0 == close_kind(c)->0);
                    assert(nt.open == st.open.drop_last());
                } else {
                    assert(nt.open == st.open);
                }
            }
        }
    }
}

/// A closing bracket closes only an open bracket of its own kind: when a
/// program has no bracket errors, then for each kind of bracket, no prefix
/// of it (comments left out) has more closing brackets than opening ones,
/// and the whole of it has as many of each.
pub proof fn law_no_errors_brackets_balance(s: Seq<char>)
    requires
        bracket_errors(s).len() == 0,
    ensures
        forall|k: u8, n: int| 0 <= n <= s.len() ==> #[trigger] closes_before(s, n, k) <= opens_before(s, n, k),
        forall|k: u8| #[trigger] closes_before(s, s.len() as int, k) == opens_before(s, s.len() as int, k),
{
    let len = s.len() as int;
    lemma_scan_counts(s, len);
    assert(s.take(len) =~= s);
    let st = bracket_scan(s);
    assert(st.errors.len() == 0);
    assert(unclosed_errors(st.open, st.line).len() == st.open.len());
    assert(st.open.len() == 0);
    assert forall|k: u8, n: int| 0 <= n <= s.len() implies #[trigger] closes_before(s, n, k) <= opens_before(s, n, k) by {
        lemma_scan_counts(s, n);
        assert(bracket_scan(s.take(n)).errors.len() <= bracket_scan(s.take(len)).errors.len());
        assert(open_count(bracket_scan(s.take(n)).open, k) + closes_before(s, n, k) == opens_before(s, n, k));
    }
    assert forall|k: u8| #[trigger] closes_before(s, s.len() as int, k) == opens_before(s, s.len() as int, k) by {
        assert(open_count(st.open, k) == 0);
        assert(open_count(bracket_scan(s.take(len)).open, k) + closes_before(s, len, k) == opens_before(s, len, k));
    }
}

/// Every bracket still open after the first `n` characters was opened
/// before them, and the part of the stack up to it is the stack just after
/// it was opened.
proof fn lemma_stack_history(s: Seq<char>, n: int)
    requires
        0 <= n <= s.len() <= usize::MAX,
    ensures
        forall|p: int|
            0 <= p < bracket_scan(s.take(n)).open.len() ==> #[trigger] bracket_scan(s.take(n)).open[p].1 < n
                && bracket_scan(s.take(n)).open.take(p + 1) == bracket_scan(
                s.take(bracket_scan(s.take(n)).open[p].1 + 1),
            ).open,
    decreases n,
{
    if n == 0 {
        assert(s.take(0) =~= Seq::<char>::empty());
    } else {
        lemma_stack_history(s, n - 1);
        assert(s.take(n).drop_last() =~= s.take(n - 1));
        assert(s.take(n).last() == s[n - 1]);
        let st = bracket_scan(s.take(n - 1));
        let nt = bracket_scan(s.take(n));
        assert(nt == scan_step(st, s[n - 1], n - 1));
        let c = s[n - 1];
        let pushed = !(c == '\n' || c == ' ' || st.in_comment || c == '`') && open_kind(c) is Some;
        if pushed {
            let e = (open_kind(c)->0, (n - 1) as usize);
            assert(nt.open == st.open.push(e));
            assert forall|p: int| 0 <= p < nt.open.len() implies #[trigger] nt.open[p].1 < n
                && nt.open.take(p + 1) == bracket_scan(s.take(nt.open[p].1 + 1)).open by {
                if p < st.open.len() {
                    assert(nt.open[p] == st.open[p]);
                    assert(nt.open.take(p + 1) =~= st.open.take(p + 1));
                } else {
                    assert(nt.open[p] == e);
                    assert(nt.open.take(p + 1) =~= nt.open);
                }
            }
        } else {
            assert(nt.open == st.open || nt.open == st.open.drop_last());
            assert forall|p: int| 0 <= p < nt.open.len() implies #[trigger] nt.open[p].1 < n
                && nt.open.take(p + 1) == bracket_scan(s.take(nt.open[p].1 + 1)).open by {
                assert(nt.open[p] == st.open[p]);
                assert(nt.open.take(p + 1) =~= st.open.take(p + 1));
            }
        }
    }
}

/// A closing bracket closes an opening one of its own kind with only
/// balanced brackets between them: when a program has no bracket errors,
/// each of its closing brackets (comments left out) has an opening bracket
/// of the same kind before it, such that between the two there are, for
/// each kind, as many opening brackets as closing ones.
pub proof fn law_no_errors_closes_match(s: Seq<char>, i: int)
    requires
        bracket_errors(s).len() == 0,
        s.len() <= usize::MAX,
        0 <= i < s.len(),
        !commented_at(s, i),
        close_kind(s[i]) is Some,
    ensures
        exists|j: int|
            0 <= j < i && !commented_at(s, j) && open_kind(s[j]) == close_kind(s[i]) && forall|q: u8|
                #[trigger] opens_before(s, i, q) - opens_before(s, j + 1, q) == closes_before(s, i, q)
                    - closes_before(s, j + 1, q),
{
    let len = s.len() as int;
    lemma_scan_counts(s, len);
    lemma_scan_counts(s, i + 1);
    lemma_scan_counts(s, i);
    assert(s.take(len) =~= s);
    let st = bracket_scan(s.take(i));
    let nt = bracket_scan(s.take(i + 1));
    assert(bracket_scan(s).errors.len() == 0);
    assert(nt.errors.len() <= bracket_scan(s.take(len)).errors.len());
    assert(s.take(i + 1).drop_last() =~= s.take(i));
    assert(s.take(i + 1).last() == s[i]);
    assert(nt == scan_step(st, s[i], i));
    assert(st.errors.len() == 0);
    assert(st.in_comment == commented_at(s, i));
    assert(st.open.len() > 0 && st.open.last().0 == close_kind(s[i])->0);
    lemma_stack_history(s, i);
    let p = st.open.len() - 1;
    let j = st.open[p].1 as int;
    assert(j < i);
    assert(st.open.take(p + 1) =~= st.open);
    let sj = bracket_scan(s.take(j + 1));
    assert(sj.open == st.open);
    lemma_scan_counts(s, j + 1);
    lemma_scan_counts(s, j);
    lemma_stack_history(s, j);
    let pj = bracket_scan(s.take(j));
    assert(s.take(j + 1).drop_last() =~= s.take(j));
    assert(s.take(j + 1).last() == s[j]);
    assert(sj == scan_step(pj, s[j], j));
    assert(sj.errors.len() <= st.errors.len());
    // the last open bracket was pushed at `j` itself: every bracket open before `j` comes from before it
    assert(!(pj.open.len() > 0 && pj.open.last().1 == j));
    if pj.open.len() > 0 {
        assert(pj.open[pj.open.len() - 1].1 < j);
    }
    assert(sj.open.len() == pj.open.len() + 1);
    assert(!commented_at(s, j) && open_kind(s[j]) == close_kind(s[i]));
    assert forall|q: u8| #[trigger] opens_before(s, i, q) - opens_before(s, j + 1, q) == closes_before(s, i, q)
        - closes_before(s, j + 1, q) by {
        assert(open_count(st.open, q) + closes_before(s, i, q) == opens_before(s, i, q));
        assert(open_count(sj.open, q) + closes_before(s, j + 1, q) == opens_before(s, j + 1, q));
    }
}

} // verus!
