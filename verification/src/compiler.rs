use vstd::prelude::*;

use crate::bridge::{format_with, strfmt_one};
use crate::error::{bracket_errors, Error};
use crate::lang::{
    rust_add, rust_end, rust_end_loop, rust_next, rust_start, rust_start_loop, rust_sub, Lang,
};
use crate::text::{decimal, fill_num, plain_num_template, spaces};
use crate::scan::{find_match, lemma_match_bound, lemma_match_nested, lemma_match_range, match_from, opt_int};

verus! {

/// A command of a program, as the compiler sees it.
#[derive(Debug, PartialEq, Eq)]
pub enum Token {
    Add(i32),
    Sub(i32),
    Next(i32),
    Prev(i32),
    Input,
    Output,
    Str(String),
    Loop(Vec<Token>),
}

/// The mathematical value of a `Token`.
pub enum Tok {
    Add(i32),
    Sub(i32),
    Next(i32),
    Prev(i32),
    Input,
    Output,
    Str(Seq<char>),
    Loop(Seq<Tok>),
}

impl Token {
    /// The value of this token; a loop's body by the values of its tokens.
    pub open spec fn tok(&self) -> Tok
        decreases self,
    {
        match self {
            Token::Add(n) => Tok::Add(*n),
            Token::Sub(n) => Tok::Sub(*n),
            Token::Next(n) => Tok::Next(*n),
            Token::Prev(n) => Tok::Prev(*n),
            Token::Input => Tok::Input,
            Token::Output => Tok::Output,
            Token::Str(s) => Tok::Str(s@),
            Token::Loop(v) => Tok::Loop(toks_of(v@)),
        }
    }
}

/// The values of a sequence of tokens.
pub open spec fn toks_of(s: Seq<Token>) -> Seq<Tok>
    decreases s,
{
    if s.len() == 0 {
        Seq::empty()
    } else {
        toks_of(s.drop_last()).push(s.last().tok())
    }
}

pub proof fn lemma_toks_of(s: Seq<Token>)
    ensures
        toks_of(s).len() == s.len(),
        forall|i: int| 0 <= i < s.len() ==> #[trigger] toks_of(s)[i] == s[i].tok(),
    decreases s.len(),
{
    if s.len() > 0 {
        lemma_toks_of(s.drop_last());
    }
}

/// `toks_of` taken element by element.
pub proof fn lemma_toks_of_ext(s: Seq<Token>, t: Seq<Tok>)
    requires
        s.len() == t.len(),
        forall|i: int| 0 <= i < s.len() ==> t[i] == #[trigger] s[i].tok(),
    ensures
        toks_of(s) == t,
{
    lemma_toks_of(s);
    assert(toks_of(s) =~= t);
}

/// The bytes of an ASCII text.
pub open spec fn ascii_bytes(s: Seq<char>) -> Seq<u8> {
    Seq::new(s.len(), |i: int| s[i] as u8)
}

/// The token of a single command byte that is not `[`.
pub open spec fn simple_token(c: u8) -> Tok {
    if c == 43 {
        Tok::Add(1)
    } else if c == 45 {
        Tok::Sub(1)
    } else if c == 62 {
        Tok::Next(1)
    } else if c == 60 {
        Tok::Prev(1)
    } else if c == 44 {
        Tok::Input
    } else if c == 46 {
        Tok::Output
    } else {
        Tok::Add(0)
    }
}

/// The tokens of the bytes `b[lo..hi]`: one token per byte, but a `[` with
/// everything up to its matching `]` gives one loop token.
pub open spec fn tokens_in(b: Seq<u8>, lo: int, hi: int) -> Seq<Tok>
    decreases hi - lo,
{
    if lo >= hi {
        Seq::empty()
    } else if b[lo] == 91 {
        match match_from(b, hi, lo + 1, 1, 91, 93) {
            Some(j) => if lo < j < hi {
                seq![Tok::Loop(tokens_in(b, lo + 1, j))] + tokens_in(b, j + 1, hi)
            } else {
                Seq::empty()
            },
            None => Seq::empty(),
        }
    } else {
        seq![simple_token(b[lo])] + tokens_in(b, lo + 1, hi)
    }
}

/// The tokens of a program text.
pub open spec fn tokenized(s: Seq<char>) -> Seq<Tok> {
    tokens_in(ascii_bytes(s), 0, s.len() as int)
}

/// Every `[` in `b[lo..hi]` has its matching `]` before `hi`.
pub open spec fn loops_closed(b: Seq<u8>, lo: int, hi: int) -> bool {
    forall|k: int|
        lo <= k < hi && #[trigger] b[k] == 91 ==> match_from(b, hi, k + 1, 1, 91, 93) is Some
}

/// Every byte of `b[lo..hi]` is ASCII.
pub open spec fn ascii_range(b: Seq<u8>, lo: int, hi: int) -> bool {
    forall|k: int| lo <= k < hi ==> #[trigger] b[k] < 128
}

/// The repeat count of an `Add` or `Sub` token (zero for others).
pub open spec fn count_of(t: Tok) -> int {
    match t {
        Tok::Add(n) => n as int,
        Tok::Sub(n) => n as int,
        _ => 0,
    }
}

/// Whether `optimize` merges `b` into the `a` just before it: an addition
/// followed by an addition or a subtraction.
pub open spec fn can_merge(a: Tok, b: Tok) -> bool {
    a is Add && (b is Add || b is Sub)
}

/// The exact count of merging `b` into `a`: the sum of two additions, or
/// the difference of an addition and a subtraction.
pub open spec fn merged_count(a: Tok, b: Tok) -> int {
    match b {
        Tok::Add(m) => count_of(a) + m,
        _ => if count_of(a) >= count_of(b) {
            count_of(a) - count_of(b)
        } else {
            count_of(b) - count_of(a)
        },
    }
}

/// The token that replaces `a` and `b` when they are merged.
pub open spec fn merged(a: Tok, b: Tok) -> Tok {
    if b is Add || count_of(a) >= count_of(b) {
        Tok::Add(merged_count(a, b) as i32)
    } else {
        Tok::Sub(merged_count(a, b) as i32)
    }
}

/// The tokens after `optimize`: from left to right, each addition absorbs
/// the additions and subtractions right after it.
pub open spec fn optimized(s: Seq<Tok>) -> Seq<Tok>
    decreases s.len(),
{
    if s.len() <= 1 {
        s
    } else if can_merge(s[0], s[1]) {
        optimized(seq![merged(s[0], s[1])] + s.skip(2))
    } else {
        seq![s[0]] + optimized(s.skip(1))
    }
}

/// Every count that `optimize` computes for `s` fits in an `i32`.
pub open spec fn opt_fits(s: Seq<Tok>) -> bool
    decreases s.len(),
{
    if s.len() <= 1 {
        true
    } else if can_merge(s[0], s[1]) {
        i32::MIN <= merged_count(s[0], s[1]) <= i32::MAX && opt_fits(
            seq![merged(s[0], s[1])] + s.skip(2),
        )
    } else {
        opt_fits(s.skip(1))
    }
}

/// The indentation of nesting level `deep`: four spaces per level.
pub open spec fn indent(deep: nat) -> Seq<char> {
    spaces(4 * deep)
}

/// A Rust template with its `{num}` fields filled with the count `n`.
pub open spec fn with_count(template: Seq<char>, n: i32) -> Seq<char> {
    fill_num(template, decimal(n as int))
}

/// The Rust text of one token at nesting level `deep` (after its indentation).
pub open spec fn token_text(t: Tok, deep: nat) -> Seq<char>
    decreases t,
{
    match t {
        Tok::Add(n) => with_count(rust_add(), n),
        Tok::Sub(n) => with_count(rust_sub(), n),
        Tok::Next(n) => with_count(rust_next(), n),
        Tok::Loop(ts) => rust_start_loop() + tokens_text(ts, deep + 1) + indent(deep)
            + rust_end_loop(),
        _ => seq!['\n'],
    }
}

/// The Rust text of a sequence of tokens at nesting level `deep`: each token
/// indented, one after the other.
pub open spec fn tokens_text(s: Seq<Tok>, deep: nat) -> Seq<char>
    decreases s,
{
    if s.len() == 0 {
        Seq::empty()
    } else {
        tokens_text(s.drop_last(), deep) + indent(deep) + token_text(s[s.len() - 1], deep)
    }
}

/// The Rust text of tokens at level `deep`, as a whole program when `main`.
pub open spec fn compiled(s: Seq<Tok>, deep: nat, main: bool) -> Seq<char> {
    if main {
        rust_start() + tokens_text(s, deep) + rust_end()
    } else {
        tokens_text(s, deep)
    }
}

/// How deeply loops nest in a token.
pub open spec fn nest(t: Tok) -> nat
    decreases t,
{
    match t {
        Tok::Loop(ts) => 1 + nest_all(ts),
        _ => 0,
    }
}

/// How deeply loops nest in a sequence of tokens.
pub open spec fn nest_all(s: Seq<Tok>) -> nat
    decreases s,
{
    if s.len() == 0 {
        0
    } else {
        let a = nest_all(s.drop_last());
        let b = nest(s[s.len() - 1]);
        if a >= b {
            a
        } else {
            b
        }
    }
}

/// A program text that `compile` can tokenize, optimize and translate:
/// ASCII, not empty, every `[` matched, and every count that merging the
/// additions and subtractions computes fits in an `i32`.
pub open spec fn compilable(s: Seq<char>) -> bool {
    &&& vstd::utf8::is_ascii_chars(s)
    &&& 0 < s.len()
    &&& loops_closed(ascii_bytes(s), 0, s.len() as int)
    &&& opt_fits(tokenized(s))
}

pub proof fn lemma_nest_all_bound(s: Seq<Tok>)
    ensures
        forall|i: int| 0 <= i < s.len() ==> nest(#[trigger] s[i]) <= nest_all(s),
    decreases s.len(),
{
    if s.len() > 0 {
        lemma_nest_all_bound(s.drop_last());
        assert forall|i: int| 0 <= i < s.len() implies nest(#[trigger] s[i]) <= nest_all(s) by {
            if i < s.len() - 1 {
                assert(s[i] == s.drop_last()[i]);
            }
        }
    }
}

pub proof fn lemma_nest_all_max(s: Seq<Tok>, k: nat)
    requires
        forall|i: int| 0 <= i < s.len() ==> nest(#[trigger] s[i]) <= k,
    ensures
        nest_all(s) <= k,
    decreases s.len(),
{
    if s.len() > 0 {
        assert forall|i: int| 0 <= i < s.drop_last().len() implies nest(
            #[trigger] s.drop_last()[i],
        ) <= k by {
            assert(s.drop_last()[i] == s[i]);
        }
        lemma_nest_all_max(s.drop_last(), k);
    }
}

/// The tokens of `n` bytes nest loops at most `n / 2` deep: each loop takes
/// a `[` and a `]`.
proof fn lemma_tokens_in_bounds(b: Seq<u8>, lo: int, hi: int)
    requires
        0 <= lo <= hi <= b.len(),
    ensures
        2 * nest_all(tokens_in(b, lo, hi)) <= hi - lo,
    decreases hi - lo,
{
    let t = tokens_in(b, lo, hi);
    let k = ((hi - lo) / 2) as nat;
    if lo >= hi {
    } else if b[lo] == 91 {
        match match_from(b, hi, lo + 1, 1, 91, 93) {
            Some(j) => if lo < j < hi {
                lemma_tokens_in_bounds(b, lo + 1, j);
                lemma_tokens_in_bounds(b, j + 1, hi);
                let r = tokens_in(b, j + 1, hi);
                lemma_nest_all_bound(r);
                assert forall|i: int| 0 <= i < t.len() implies nest(#[trigger] t[i]) <= k by {
                    if i > 0 {
                        assert(t[i] == r[i - 1]);
                    }
                }
                lemma_nest_all_max(t, k);
            } else {
            },
            None => {},
        }
    } else {
        lemma_tokens_in_bounds(b, lo + 1, hi);
        let r = tokens_in(b, lo + 1, hi);
        lemma_nest_all_bound(r);
        assert forall|i: int| 0 <= i < t.len() implies nest(#[trigger] t[i]) <= k by {
            if i > 0 {
                assert(t[i] == r[i - 1]);
            }
        }
        lemma_nest_all_max(t, k);
    }
}

/// Merging never deepens the loop nesting.
proof fn lemma_optimized_nest(s: Seq<Tok>)
    ensures
        nest_all(optimized(s)) <= nest_all(s),
    decreases s.len(),
{
    lemma_nest_all_bound(s);
    if s.len() > 1 {
        if can_merge(s[0], s[1]) {
            let m = merged(s[0], s[1]);
            let t = seq![m] + s.skip(2);
            assert forall|i: int| 0 <= i < t.len() implies nest(#[trigger] t[i]) <= nest_all(s) by {
                if i > 0 {
                    assert(t[i] == s[i + 1]);
                }
            }
            lemma_nest_all_max(t, nest_all(s));
            lemma_optimized_nest(t);
        } else {
            let r = optimized(s.skip(1));
            let t = seq![s[0]] + r;
            lemma_optimized_nest(s.skip(1));
            assert forall|i: int| 0 <= i < s.skip(1).len() implies nest(#[trigger] s.skip(1)[i])
                <= nest_all(s) by {
                assert(s.skip(1)[i] == s[i + 1]);
            }
            lemma_nest_all_max(s.skip(1), nest_all(s));
            lemma_nest_all_bound(r);
            assert forall|i: int| 0 <= i < t.len() implies nest(#[trigger] t[i]) <= nest_all(s) by {
                if i > 0 {
                    assert(t[i] == r[i - 1]);
                }
            }
            lemma_nest_all_max(t, nest_all(s));
        }
    }
}

/// The `add`, `sub` and `next` templates of Rust have no brace but their
/// `{num}` fields.
proof fn lemma_rust_templates_plain()
    ensures
        plain_num_template(rust_add()),
        plain_num_template(rust_sub()),
        plain_num_template(rust_next()),
{
    reveal_strlit("regs[ind] = (regs[ind]+{num})%100\n");
    reveal_strlit("regs[ind] = (regs[ind]+100-{num})%100\n");
    reveal_strlit("ind = (ind+{num})%100\n");
    reveal_with_fuel(plain_num_template, 45);
}

/// Appends the indentation of level `deep`.
fn push_indent(s: &mut String, deep: usize)
    ensures
        final(s)@ == old(s)@ + indent(deep as nat),
{
    let mut k: usize = 0;
    while k < deep
        invariant
            k <= deep,
            s@ == old(s)@ + spaces(4 * k as nat),
        decreases deep - k,
    {
        s.append("    ");
        proof {
            reveal_strlit("    ");
        }
        assert(spaces(4 * k as nat) + "    "@ =~= spaces(4 * (k + 1) as nat));
        k += 1;
    }
}

/// The template `s` formatted by `strfmt` with the variable `num` bound to
/// `num`.
fn format_num(s: &String, num: i32) -> (r: String)
    requires
        plain_num_template(s@) || strfmt_one(s@, seq!['n', 'u', 'm'], num) is Some,
    ensures
        strfmt_one(s@, seq!['n', 'u', 'm'], num) == Some(r@),
        plain_num_template(s@) ==> r@ == fill_num(s@, decimal(num as int)),
{
    let key = "num";
    proof {
        reveal_strlit("num");
    }
    assert(key@ =~= seq!['n', 'u', 'm']);
    match format_with(s.as_str(), key, num) {
        Some(r) => r,
        None => {
            proof {
                assert(false);
            }
            String::new()
        },
    }
}

pub struct Compiler {}

impl Compiler {
    /// The tokens of `b[lo..hi]`.
    fn tokenize_range(b: &[u8], lo: usize, hi: usize) -> (r: Vec<Token>)
        requires
            lo <= hi <= b@.len(),
            ascii_range(b@, lo as int, hi as int),
            loops_closed(b@, lo as int, hi as int),
        ensures
            toks_of(r@) == tokens_in(b@, lo as int, hi as int),
        decreases hi - lo,
    {
        let mut tokens: Vec<Token> = Vec::new();
        let mut ind: usize = lo;
        while ind < hi
            invariant
                lo <= ind <= hi <= b@.len(),
                ascii_range(b@, lo as int, hi as int),
                loops_closed(b@, lo as int, hi as int),
                tokens_in(b@, lo as int, hi as int) == toks_of(tokens@) + tokens_in(
                    b@,
                    ind as int,
                    hi as int,
                ),
            decreases hi - ind,
        {
            let c = b[ind];
            let ghost at = ind as int;
            let token = if c == 91 {
                let found = find_match(b, hi, ind + 1, 91, 93);
                assert(b@[ind as int] == 91);
                let j = match found {
                    Some(j) => j,
                    None => {
                        proof {
                            assert(false);
                        }
                        ind
                    },
                };
                proof {
                    lemma_match_range(b@, hi as int, ind + 1, 1, 91, 93);
                    assert forall|k: int|
                        ind + 1 <= k < j && #[trigger] b@[k] == 91 implies match_from(
                        b@,
                        j as int,
                        k + 1,
                        1,
                        91,
                        93,
                    ) is Some by {
                        lemma_match_nested(b@, hi as int, ind + 1, 1, k, 91, 93);
                        lemma_match_bound(b@, hi as int, j as int, k + 1, 1, 91, 93);
                    }
                }
                let inner = Compiler::tokenize_range(b, ind + 1, j);
                ind = j;
                let tok = Token::Loop(inner);
                assert(tokens_in(b@, at, hi as int) == seq![tok.tok()] + tokens_in(
                    b@,
                    j + 1,
                    hi as int,
                ));
                tok
            } else if c == 43 {
                Token::Add(1)
            } else if c == 45 {
                Token::Sub(1)
            } else if c == 62 {
                Token::Next(1)
            } else if c == 60 {
                Token::Prev(1)
            } else if c == 44 {
                Token::Input
            } else if c == 46 {
                Token::Output
            } else {
                Token::Add(0)
            };
            let ghost before = tokens@;
            let ghost t = token.tok();
            ind += 1;
            tokens.push(token);
            proof {
                assert(tokens@.drop_last() =~= before);
                assert(toks_of(tokens@) == toks_of(before).push(t));
                assert(tokens_in(b@, at, hi as int) == seq![t] + tokens_in(b@, ind as int, hi as int));
                assert(toks_of(before) + tokens_in(b@, at, hi as int) =~= toks_of(tokens@)
                    + tokens_in(b@, ind as int, hi as int));
            }
        }
        assert(toks_of(tokens@) + Seq::<Tok>::empty() =~= toks_of(tokens@));
        tokens
    }

    /// The tokens of an ASCII program whose every `[` is matched.
    pub fn tokenize(code: &String) -> (r: Vec<Token>)
        requires
            code.is_ascii(),
            loops_closed(ascii_bytes(code@), 0, code@.len() as int),
        ensures
            toks_of(r@) == tokenized(code@),
    {
        let text = code.as_str();
        let b = text.as_bytes();
        proof {
            vstd::string::is_ascii_spec_bytes(text);
            assert(b@ =~= ascii_bytes(code@));
        }
        Compiler::tokenize_range(b, 0, b.len())
    }

    /// Merges, from left to right, each addition with the additions and
    /// subtractions that follow it.
    pub fn optimize(token: &mut Vec<Token>)
        requires
            old(token).len() >= 1,
            opt_fits(toks_of(old(token)@)),
        ensures
            toks_of(final(token)@) == optimized(toks_of(old(token)@)),
    {
        let mut ind: usize = 0;
        assert(toks_of(token@).skip(0) =~= toks_of(token@));
        assert(toks_of(token@).take(0) + optimized(toks_of(token@)) =~= optimized(toks_of(token@)));
        while ind < token.len() - 1
            invariant
                1 <= token.len(),
                ind < token.len(),
                optimized(toks_of(old(token)@)) == toks_of(token@).take(ind as int) + optimized(
                    toks_of(token@).skip(ind as int),
                ),
                opt_fits(toks_of(token@).skip(ind as int)),
            decreases token.len() - ind,
        {
            let ghost v = toks_of(token@);
            proof {
                lemma_toks_of(token@);
                assert(v.skip(ind as int)[0] == v[ind as int]);
                assert(v.skip(ind as int)[1] == v[ind + 1]);
                assert(v.skip(ind as int).skip(1) =~= v.skip(ind + 1));
                assert(v.skip(ind as int).skip(2) =~= v.skip(ind + 2));
            }
            let next: Option<Token> = match &token[ind] {
                Token::Add(n) => match &token[ind + 1] {
                    Token::Add(n2) => Some(Token::Add(*n + *n2)),
                    Token::Sub(n2) => if *n >= *n2 {
                        Some(Token::Add(*n - *n2))
                    } else {
                        Some(Token::Sub(*n2 - *n))
                    },
                    _ => None,
                },
                _ => None,
            };
            match next {
                Some(t) => {
                    let ghost m = t.tok();
                    assert(m == merged(v[ind as int], v[ind + 1]));
                    let ghost before = token@;
                    token.set(ind, t);
                    token.remove(ind + 1);
                    proof {
                        let w = v.take(ind as int) + seq![m] + v.skip(ind + 2);
                        assert forall|i: int| 0 <= i < token@.len() implies w[i]
                            == #[trigger] token@[i].tok() by {
                            if i > ind {
                                assert(token@[i] == before[i + 1]);
                            }
                        }
                        lemma_toks_of_ext(token@, w);
                        assert(w.take(ind as int) =~= v.take(ind as int));
                        assert(w.skip(ind as int) =~= seq![m] + v.skip(ind as int).skip(2));
                    }
                },
                None => {
                    proof {
                        assert(v.take(ind + 1) =~= v.take(ind as int).push(v[ind as int]));
                        assert(v.take(ind as int) + optimized(v.skip(ind as int)) =~= v.take(
                            ind + 1,
                        ) + optimized(v.skip(ind + 1)));
                    }
                    ind += 1;
                },
            }
        }
        proof {
            let v = toks_of(token@);
            lemma_toks_of(token@);
            assert(v.take(ind as int) + v.skip(ind as int) =~= v);
        }
    }

    /// The Rust text of `tokens` at nesting level `deep`; a whole program,
    /// with header and closing brace, when `main`.
    pub fn _compile(tokens: &Vec<Token>, deep: usize, main: bool) -> (r: String)
        requires
            deep + nest_all(toks_of(tokens@)) <= usize::MAX,
        ensures
            r@ == compiled(toks_of(tokens@), deep as nat, main),
        decreases nest_all(toks_of(tokens@)),
    {
        let token_lang = Lang::to_tok_lang(Lang::Rust);
        proof {
            lemma_rust_templates_plain();
            lemma_toks_of(tokens@);
            lemma_nest_all_bound(toks_of(tokens@));
        }
        let ghost v = toks_of(tokens@);
        let mut compiled_code = String::new();
        if main {
            compiled_code.append(token_lang.start.as_str());
        }
        let ghost head = compiled_code@;
        let mut i: usize = 0;
        while i < tokens.len()
            invariant
                i <= tokens.len(),
                v == toks_of(tokens@),
                v.len() == tokens@.len(),
                forall|k: int| 0 <= k < tokens@.len() ==> #[trigger] v[k] == tokens@[k].tok(),
                forall|k: int| 0 <= k < v.len() ==> nest(#[trigger] v[k]) <= nest_all(v),
                deep + nest_all(v) <= usize::MAX,
                token_lang@ == crate::lang::rust_tok_lang(),
                plain_num_template(rust_add()),
                plain_num_template(rust_sub()),
                plain_num_template(rust_next()),
                compiled_code@ == head + tokens_text(v.take(i as int), deep as nat),
            decreases tokens.len() - i,
        {
            let ghost before = compiled_code@;
            push_indent(&mut compiled_code, deep);
            match &tokens[i] {
                Token::Add(n) => {
                    let t = format_num(&token_lang.add, *n);
                    compiled_code.append(t.as_str());
                },
                Token::Sub(n) => {
                    let t = format_num(&token_lang.sub, *n);
                    compiled_code.append(t.as_str());
                },
                Token::Next(n) => {
                    let t = format_num(&token_lang.next, *n);
                    compiled_code.append(t.as_str());
                },
                Token::Loop(toks) => {
                    assert(v[i as int] == Tok::Loop(toks_of(toks@)));
                    compiled_code.append(token_lang.start_loop.as_str());
                    let inner = Compiler::_compile(toks, deep + 1, false);
                    compiled_code.append(inner.as_str());
                    push_indent(&mut compiled_code, deep);
                    compiled_code.append(token_lang.end_loop.as_str());
                },
                _ => {
                    proof {
                        reveal_strlit("\n");
                    }
                    compiled_code.append("\n");
                },
            }
            proof {
                assert(v.take(i + 1).drop_last() =~= v.take(i as int));
                assert(v.take(i + 1)[i as int] == v[i as int]);
                assert(compiled_code@ =~= before + indent(deep as nat) + token_text(
                    v[i as int],
                    deep as nat,
                ));
            }
            i += 1;
        }
        assert(v.take(i as int) =~= v);
        if main {
            compiled_code.append(token_lang.end.as_str());
        }
        compiled_code
    }

    /// Checks `code` for bracket errors; when it has none, compiles it to a
    /// Rust program.
    pub fn compile(code: &String) -> (r: Result<String, Vec<Error>>)
        requires
            bracket_errors(code@).len() > 0 || compilable(code@),
        ensures
            match r {
                Err(errors) => errors@ == bracket_errors(code@) && errors@.len() > 0,
                Ok(text) => bracket_errors(code@).len() == 0 && text@ == compiled(
                    optimized(tokenized(code@)),
                    1,
                    true,
                ),
            },
    {
        let errors = Error::check_errors(code);
        if errors.len() > 0 {
            return Err(errors);
        }
        let text = code.as_str();
        let bytes = text.as_bytes();
        proof {
            vstd::string::is_ascii_spec_bytes(text);
            assert(bytes@ =~= ascii_bytes(code@));
        }
        let _ = bytes.len();
        let mut tokens = Compiler::tokenize(code);
        proof {
            let b = ascii_bytes(code@);
            let n = code@.len() as int;
            lemma_tokens_in_bounds(b, 0, n);
            lemma_optimized_nest(tokenized(code@));
            if b[0] == 91 {
                lemma_match_range(b, n, 1, 1, 91, 93);
            }
            assert(tokenized(code@).len() > 0);
            lemma_toks_of(tokens@);
        }
        Compiler::optimize(&mut tokens);
        Ok(Compiler::_compile(&tokens, 1, true))
    }

    /// Whether `compile` can handle `code` (instead of stopping with a
    /// panic): bracket errors, or an ASCII, non-empty text whose every `[`
    /// is matched and whose merged counts fit in an `i32`.
    pub fn can_compile(code: &String) -> (r: bool)
        ensures
            r == (bracket_errors(code@).len() > 0 || compilable(code@)),
    {
        let errors = Error::check_errors(code);
        if errors.len() > 0 {
            return true;
        }
        let text = code.as_str();
        if !text.is_ascii() {
            return false;
        }
        let b = text.as_bytes();
        proof {
            vstd::string::is_ascii_spec_bytes(text);
            assert(b@ =~= ascii_bytes(code@));
        }
        let n = b.len();
        if n == 0 {
            return false;
        }
        let mut k: usize = 0;
        while k < n
            invariant
                k <= n,
                n == b@.len(),
                b@ == ascii_bytes(code@),
                bracket_errors(code@).len() == 0,
                forall|i: int|
                    0 <= i < k && #[trigger] b@[i] == 91 ==> match_from(b@, n as int, i + 1, 1, 91, 93) is Some,
            decreases n - k,
        {
            if b[k] == 91 {
                let found = find_match(b, n, k + 1, 91, 93);
                if found.is_none() {
                    assert(b@[k as int] == 91);
                    assert(!loops_closed(ascii_bytes(code@), 0, code@.len() as int));
                    return false;
                }
            }
            k += 1;
        }
        let tokens = Compiler::tokenize(code);
        Compiler::counts_fit(&tokens)
    }

    /// Whether every count that `optimize` computes for `tokens` fits in an
    /// `i32`: the merges are followed, with the counts in an `i64`.
    pub fn counts_fit(tokens: &Vec<Token>) -> (r: bool)
        ensures
            r == opt_fits(toks_of(tokens@)),
    {
        let ghost v = toks_of(tokens@);
        proof {
            lemma_toks_of(tokens@);
        }
        if tokens.len() == 0 {
            return true;
        }
        let (mut kind, mut val) = Compiler::count_kind(&tokens[0]);
        let ghost mut cur: Tok = v[0];
        assert(seq![cur] + v.skip(1) =~= v);
        let mut i: usize = 1;
        while i < tokens.len()
            invariant
                1 <= i <= tokens.len(),
                v == toks_of(tokens@),
                v.len() == tokens@.len(),
                forall|k: int| 0 <= k < tokens@.len() ==> #[trigger] v[k] == tokens@[k].tok(),
                opt_fits(v) == opt_fits(seq![cur] + v.skip(i as int)),
                kind == 0 ==> cur == Tok::Add(val as i32) && i32::MIN <= val <= i32::MAX,
                kind == 1 ==> cur == Tok::Sub(val as i32) && i32::MIN <= val <= i32::MAX,
                kind == 2 ==> !(cur is Add) && !(cur is Sub),
                kind <= 2,
            decreases tokens.len() - i,
        {
            let ghost s = seq![cur] + v.skip(i as int);
            assert(s[0] == cur);
            assert(s[1] == v[i as int]);
            assert(s.skip(1) =~= v.skip(i as int));
            assert(s.skip(2) =~= v.skip(i + 1));
            assert(v.skip(i as int) =~= seq![v[i as int]] + v.skip(i + 1));
            let (k2, m) = Compiler::count_kind(&tokens[i]);
            if kind == 0 && k2 <= 1 {
                let total: i64 = if k2 == 0 {
                    val + m
                } else if val >= m {
                    val - m
                } else {
                    m - val
                };
                assert(total == merged_count(cur, v[i as int]));
                if total < -2147483648 || total > 2147483647 {
                    return false;
                }
                proof {
                    cur = merged(cur, v[i as int]);
                }
                kind = if k2 == 0 || val >= m {
                    0
                } else {
                    1
                };
                val = total;
            } else {
                proof {
                    cur = v[i as int];
                }
                kind = k2;
                val = m;
            }
            i += 1;
        }
        true
    }

    /// The kind of a token for merging (0 for an addition, 1 for a
    /// subtraction, 2 for any other) and its count (0 for others).
    fn count_kind(t: &Token) -> (r: (u8, i64))
        ensures
            r.0 <= 2,
            r.0 == 0 ==> t.tok() == Tok::Add(r.1 as i32) && i32::MIN <= r.1 <= i32::MAX,
            r.0 == 1 ==> t.tok() == Tok::Sub(r.1 as i32) && i32::MIN <= r.1 <= i32::MAX,
            r.0 == 2 ==> !(t.tok() is Add) && !(t.tok() is Sub) && r.1 == 0,
    {
        match t {
            Token::Add(n) => (0, *n as i64),
            Token::Sub(n) => (1, *n as i64),
            _ => (2, 0),
        }
    }
}

/// The net change of the cell that a sequence of tokens makes at its top
/// level: its additions minus its subtractions.
pub open spec fn net_count(s: Seq<Tok>) -> int
    decreases s.len(),
{
    if s.len() == 0 {
        0
    } else {
        signed_count(s[0]) + net_count(s.skip(1))
    }
}

/// What one token adds to the cell: its count for an addition, minus it for
/// a subtraction, nothing otherwise.
pub open spec fn signed_count(t: Tok) -> int {
    match t {
        Tok::Add(n) => n as int,
        Tok::Sub(n) => -n,
        _ => 0,
    }
}

/// No addition of `s` is followed by an addition or a subtraction.
pub open spec fn settled(s: Seq<Tok>) -> bool {
    forall|i: int| 0 <= i < s.len() - 1 ==> !can_merge(#[trigger] s[i], s[i + 1])
}

proof fn lemma_net_front(x: Tok, r: Seq<Tok>)
    ensures
        net_count(seq![x] + r) == signed_count(x) + net_count(r),
{
    assert((seq![x] + r).skip(1) =~= r);
}

/// Merging keeps the net change of the cell: `optimize` never changes what
/// a run of `+` and `-` adds up to.
pub proof fn law_optimize_keeps_net(s: Seq<Tok>)
    requires
        opt_fits(s),
    ensures
        net_count(optimized(s)) == net_count(s),
    decreases s.len(),
{
    if s.len() > 1 {
        assert(s.skip(1).skip(1) =~= s.skip(2));
        assert(s.skip(1)[0] == s[1]);
        assert(net_count(s.skip(1)) == signed_count(s[1]) + net_count(s.skip(1).skip(1)));
        assert(net_count(s) == signed_count(s[0]) + signed_count(s[1]) + net_count(s.skip(2)));
        if can_merge(s[0], s[1]) {
            let m = merged(s[0], s[1]);
            assert(signed_count(m) == signed_count(s[0]) + signed_count(s[1]));
            lemma_net_front(m, s.skip(2));
            law_optimize_keeps_net(seq![m] + s.skip(2));
        } else {
            law_optimize_keeps_net(s.skip(1));
            lemma_net_front(s[0], optimized(s.skip(1)));
        }
    }
}

/// `optimize` never makes the tokens longer.
pub proof fn law_optimize_shortens(s: Seq<Tok>)
    ensures
        optimized(s).len() <= s.len(),
    decreases s.len(),
{
    if s.len() > 1 {
        if can_merge(s[0], s[1]) {
            law_optimize_shortens(seq![merged(s[0], s[1])] + s.skip(2));
        } else {
            law_optimize_shortens(s.skip(1));
        }
    }
}

proof fn lemma_optimized_front(t: Seq<Tok>)
    requires
        t.len() >= 1,
    ensures
        optimized(t).len() >= 1,
        !(t[0] is Add) ==> optimized(t)[0] == t[0],
        (t[0] is Add || t[0] is Sub) ==> (optimized(t)[0] is Add || optimized(t)[0] is Sub),
    decreases t.len(),
{
    if t.len() > 1 {
        if can_merge(t[0], t[1]) {
            let u = seq![merged(t[0], t[1])] + t.skip(2);
            lemma_optimized_front(u);
        } else {
            lemma_optimized_front(t.skip(1));
        }
    }
}

proof fn lemma_optimized_settled(s: Seq<Tok>)
    ensures
        settled(optimized(s)),
    decreases s.len(),
{
    if s.len() > 1 {
        if can_merge(s[0], s[1]) {
            lemma_optimized_settled(seq![merged(s[0], s[1])] + s.skip(2));
        } else {
            let r = optimized(s.skip(1));
            lemma_optimized_settled(s.skip(1));
            lemma_optimized_front(s.skip(1));
            let o = seq![s[0]] + r;
            assert forall|i: int| 0 <= i < o.len() - 1 implies !can_merge(#[trigger] o[i], o[i + 1]) by {
                if i > 0 {
                    assert(o[i] == r[i - 1]);
                    assert(o[i + 1] == r[i]);
                }
            }
        }
    }
}

proof fn lemma_settled_optimized(s: Seq<Tok>)
    requires
        settled(s),
    ensures
        optimized(s) == s,
    decreases s.len(),
{
    if s.len() > 1 {
        assert(!can_merge(s[0], s[1]));
        assert forall|i: int| 0 <= i < s.skip(1).len() - 1 implies !can_merge(#[trigger] s.skip(1)[i], s.skip(1)[i + 1]) by {
            assert(s.skip(1)[i] == s[i + 1]);
            assert(s.skip(1)[i + 1] == s[i + 2]);
        }
        lemma_settled_optimized(s.skip(1));
        assert(seq![s[0]] + s.skip(1) =~= s);
    }
}

/// `optimize` leaves no addition followed by an addition or a subtraction,
/// so optimizing again changes nothing.
pub proof fn law_optimize_idempotent(s: Seq<Tok>)
    ensures
        settled(optimized(s)),
        optimized(optimized(s)) == optimized(s),
{
    lemma_optimized_settled(s);
    lemma_settled_optimized(optimized(s));
}

/// Compiling tokens as a whole program gives the header of the Rust target
/// language, then the text of the same tokens compiled alone, then the
/// language's closing text.
pub proof fn law_program_wraps_body(s: Seq<Tok>, deep: nat)
    ensures
        compiled(s, deep, true) == crate::lang::tok_lang_of(Lang::Rust).start + compiled(s, deep, false)
            + crate::lang::tok_lang_of(Lang::Rust).end,
{
}

/// The tokens of `s` that are neither additions nor subtractions (loops,
/// moves, input, output), in order.
pub open spec fn kept_tokens(s: Seq<Tok>) -> Seq<Tok>
    decreases s.len(),
{
    if s.len() == 0 {
        Seq::empty()
    } else if s[0] is Add || s[0] is Sub {
        kept_tokens(s.skip(1))
    } else {
        seq![s[0]] + kept_tokens(s.skip(1))
    }
}

proof fn lemma_kept_front(x: Tok, r: Seq<Tok>)
    ensures
        kept_tokens(seq![x] + r) == if x is Add || x is Sub {
            kept_tokens(r)
        } else {
            seq![x] + kept_tokens(r)
        },
{
    assert((seq![x] + r).skip(1) =~= r);
    assert((seq![x] + r)[0] == x);
}

/// `optimize` touches only additions and subtractions: every other token
/// (each loop, move, input and output) stays, in the same order.
pub proof fn law_optimize_keeps_other_tokens(s: Seq<Tok>)
    ensures
        kept_tokens(optimized(s)) == kept_tokens(s),
    decreases s.len(),
{
    if s.len() > 1 {
        assert(s.skip(1).skip(1) =~= s.skip(2));
        assert(seq![s[0]] + s.skip(1) =~= s);
        assert(seq![s[1]] + s.skip(2) =~= s.skip(1));
        lemma_kept_front(s[0], s.skip(1));
        lemma_kept_front(s[1], s.skip(2));
        if can_merge(s[0], s[1]) {
            let m = merged(s[0], s[1]);
            lemma_kept_front(m, s.skip(2));
            law_optimize_keeps_other_tokens(seq![m] + s.skip(2));
        } else {
            law_optimize_keeps_other_tokens(s.skip(1));
            lemma_kept_front(s[0], optimized(s.skip(1)));
        }
    }
}

/// A token other than an addition, a subtraction, a move right or a loop
/// (a move left, an input, an output) compiles to an indented empty line,
/// wherever it stands.
pub proof fn law_other_tokens_compile_to_empty_lines(s: Seq<Tok>, t: Tok, deep: nat)
    requires
        !(t is Add || t is Sub || t is Next || t is Loop),
    ensures
        tokens_text(s.push(t), deep) == tokens_text(s, deep) + spaces(4 * deep) + seq!['\n'],
{
    assert(s.push(t).drop_last() =~= s);
    assert(s.push(t)[s.len() as int] == t);
    assert(tokens_text(s.push(t), deep) == tokens_text(s, deep) + indent(deep) + token_text(t, deep));
}

/// Each token compiles to the text of its own template: an addition to the
/// `add` template, a subtraction to `sub`, a move right to `next`, each with
/// its count; a loop to its body between `start_loop` and `end_loop`.
pub proof fn law_tokens_compile_to_their_templates(s: Seq<Tok>, t: Tok, deep: nat)
    ensures
        tokens_text(s.push(t), deep) == tokens_text(s, deep) + spaces(4 * deep) + match t {
            Tok::Add(n) => fill_num(rust_add(), decimal(n as int)),
            Tok::Sub(n) => fill_num(rust_sub(), decimal(n as int)),
            Tok::Next(n) => fill_num(rust_next(), decimal(n as int)),
            Tok::Loop(body) => rust_start_loop() + tokens_text(body, deep + 1) + spaces(4 * deep)
                + rust_end_loop(),
            _ => seq!['\n'],
        },
{
    assert(s.push(t).drop_last() =~= s);
    assert(s.push(t)[s.len() as int] == t);
    assert(tokens_text(s.push(t), deep) == tokens_text(s, deep) + indent(deep) + token_text(t, deep));
}

} // verus!
