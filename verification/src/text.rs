use vstd::prelude::*;

use crate::bridge::push_char;

verus! {

/// The characters of a string slice, one by one.
pub fn chars_of(s: &str) -> (r: Vec<char>)
    ensures
        r@ == s@,
{
    let mut v: Vec<char> = Vec::new();
    for c in iter: s.chars()
        invariant
            v@ == iter.seq().take(iter.index() as int),
    {
        v.push(c);
    }
    v
}

/// Whether `code` is the code of a character (not a surrogate, at most
/// `0x10FFFF`).
pub open spec fn is_char_code(code: u32) -> bool {
    code <= 0x10FFFF && !(0xD800 <= code <= 0xDFFF)
}

/// The decimal digit character for `d` in `0..10`.
pub open spec fn digit_char(d: nat) -> char {
    (('0' as nat) + d) as char
}

/// The decimal digits of `n`, without leading zeros.
pub open spec fn digits(n: nat) -> Seq<char>
    decreases n,
{
    if n < 10 {
        seq![digit_char(n)]
    } else {
        digits(n / 10).push(digit_char(n % 10))
    }
}

/// The decimal text of `n`, with a `-` in front when it is negative.
pub open spec fn decimal(n: int) -> Seq<char> {
    if n < 0 {
        seq!['-'] + digits((-n) as nat)
    } else {
        digits(n as nat)
    }
}

/// Whether `t` begins with the field `{num}`.
pub open spec fn starts_with_num(t: Seq<char>) -> bool {
    t.len() >= 5 && t[0] == '{' && t[1] == 'n' && t[2] == 'u' && t[3] == 'm' && t[4] == '}'
}

/// Whether every brace of `t` belongs to a `{num}` field.
pub open spec fn plain_num_template(t: Seq<char>) -> bool
    decreases t.len(),
{
    if t.len() == 0 {
        true
    } else if starts_with_num(t) {
        plain_num_template(t.skip(5))
    } else {
        t[0] != '{' && t[0] != '}' && plain_num_template(t.skip(1))
    }
}

/// `t` with each `{num}` field replaced by `value`.
pub open spec fn fill_num(t: Seq<char>, value: Seq<char>) -> Seq<char>
    decreases t.len(),
{
    if t.len() == 0 {
        t
    } else if starts_with_num(t) {
        value + fill_num(t.skip(5), value)
    } else {
        seq![t[0]] + fill_num(t.skip(1), value)
    }
}

/// `n` spaces.
pub open spec fn spaces(n: nat) -> Seq<char> {
    Seq::new(n, |i: int| ' ')
}

/// The decimal text of a count.
pub fn usize_text(n: usize) -> (r: String)
    ensures
        r@ == decimal(n as int),
{
    let mut rev: Vec<char> = Vec::new();
    let mut m: usize = n;
    let ghost mut low: Seq<char> = Seq::empty();
    while m >= 10
        invariant
            m <= n,
            rev@.reverse() == low,
            digits(n as nat) == digits(m as nat) + low,
        decreases m,
    {
        let c: char = (48u8 + (m % 10) as u8) as char;
        assert(c == digit_char((m % 10) as nat));
        rev.push(c);
        proof {
            assert(digits(m as nat) + low =~= digits((m / 10) as nat) + (seq![c] + low));
            low = seq![c] + low;
            assert(rev@.reverse() =~= seq![c] + rev@.drop_last().reverse());
        }
        m = m / 10;
    }
    let c: char = (48u8 + m as u8) as char;
    assert(c == digit_char(m as nat));
    rev.push(c);
    assert(rev@.reverse() =~= seq![c] + rev@.drop_last().reverse());
    assert(rev@.reverse() == digits(n as nat));
    let mut r = String::new();
    let mut i: usize = rev.len();
    while i > 0
        invariant
            i <= rev.len(),
            r@ == rev@.subrange(i as int, rev@.len() as int).reverse(),
        decreases i,
    {
        i -= 1;
        push_char(&mut r, rev[i]);
        assert(rev@.subrange(i as int, rev@.len() as int).reverse() =~= rev@.subrange(
            i + 1,
            rev@.len() as int,
        ).reverse().push(rev@[i as int]));
    }
    assert(rev@.subrange(0, rev@.len() as int) =~= rev@);
    r
}

/// Ten to the power `k`.
pub open spec fn pow10(k: nat) -> nat
    decreases k,
{
    if k == 0 {
        1
    } else {
        10 * pow10((k - 1) as nat)
    }
}

proof fn lemma_digits_len(n: nat, k: nat)
    requires
        n < pow10(k),
        k >= 1,
    ensures
        digits(n).len() <= k,
    decreases k,
{
    if n >= 10 {
        let p = pow10((k - 1) as nat);
        assert(n / 10 < p) by (nonlinear_arith)
            requires
                n < 10 * p,
        ;
        if k == 1 {
            assert(pow10(1) == 10) by {
                reveal_with_fuel(pow10, 2);
            }
        } else {
            lemma_digits_len(n / 10, (k - 1) as nat);
        }
    }
}

/// The decimal text of a count has at most 20 characters.
pub proof fn lemma_decimal_len(n: nat)
    requires
        n <= usize::MAX,
    ensures
        decimal(n as int).len() <= 20,
{
    assert(pow10(20) == 100000000000000000000nat) by {
        reveal_with_fuel(pow10, 21);
    }
    lemma_digits_len(n, 20);
}

/// Whether `c` has Unicode's `White_Space` property.
pub open spec fn is_white_space(c: char) -> bool {
    let u = c as u32;
    ||| 0x9 <= u <= 0xD
    ||| u == 0x20
    ||| u == 0x85
    ||| u == 0xA0
    ||| u == 0x1680
    ||| 0x2000 <= u <= 0x200A
    ||| u == 0x2028
    ||| u == 0x2029
    ||| u == 0x202F
    ||| u == 0x205F
    ||| u == 0x3000
}

/// `s` without the white space at its start.
pub open spec fn trim_start(s: Seq<char>) -> Seq<char>
    decreases s.len(),
{
    if s.len() > 0 && is_white_space(s[0]) {
        trim_start(s.skip(1))
    } else {
        s
    }
}

/// `s` without the white space at its end.
pub open spec fn trim_end(s: Seq<char>) -> Seq<char>
    decreases s.len(),
{
    if s.len() > 0 && is_white_space(s.last()) {
        trim_end(s.drop_last())
    } else {
        s
    }
}

/// `s` without the white space at either end.
pub open spec fn trimmed(s: Seq<char>) -> Seq<char> {
    trim_end(trim_start(s))
}

} // verus!
