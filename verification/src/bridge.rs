//! Calls into std and into `strfmt` whose behaviour Verus takes from the
//! contracts written here.
use vstd::prelude::*;

use crate::text::{decimal, fill_num, plain_num_template, trimmed};

verus! {

/// What `strfmt::strfmt` returns for the template `template` when the only
/// variable, named `key`, is bound to `value`: the formatted text, or `None`
/// for the error it reports.
pub uninterp spec fn strfmt_one(template: Seq<char>, key: Seq<char>, value: i32) -> Option<Seq<char>>;

/// Calls `strfmt::strfmt(template, &vars)` where `vars` maps `key` to
/// `value`, and maps its error to `None`.
///
/// Claimed of `strfmt`: its result depends only on the template text, the
/// key and the value; and when the key is `num` and every brace of the
/// template belongs to a `{num}` field (no other `{` or `}` occurs), it
/// succeeds and returns the template with each `{num}` replaced by the
/// decimal text of `value` (that is what `strfmt_map` and the integer
/// formatter without a format spec do in strfmt 0.2.6). For other templates
/// only the name is given.
#[verifier::external_body]
pub(crate) fn format_with(template: &str, key: &str, value: i32) -> (r: Option<String>)
    ensures
        match r {
            Some(s) => strfmt_one(template@, key@, value) == Some(s@),
            None => strfmt_one(template@, key@, value) is None,
        },
        key@ == seq!['n', 'u', 'm'] && plain_num_template(template@) ==> r is Some && r->0@
            == fill_num(template@, decimal(value as int)),
{
    let mut vars: std::collections::HashMap<String, i32> = std::collections::HashMap::new();
    vars.insert(key.to_string(), value);
    strfmt::strfmt(template, &vars).ok()
}

/// `char::from_u32`: the character with the code `code`, or `None` when
/// `code` is a surrogate or beyond `0x10FFFF` (as std documents it).
#[verifier::external_body]
pub(crate) fn char_from_code(code: u32) -> (r: Option<char>)
    ensures
        r == (if crate::text::is_char_code(code) {
            Some(code as char)
        } else {
            None
        }),
{
    char::from_u32(code)
}

/// `String::push`: appends one character (as std documents it).
#[verifier::external_body]
pub(crate) fn push_char(s: &mut String, c: char)
    ensures
        final(s)@ == old(s)@.push(c),
{
    s.push(c)
}

/// `str::trim`: `s` without its leading and trailing white space, white
/// space being the characters of Unicode's `White_Space` property (as std
/// documents it).
#[verifier::external_body]
pub(crate) fn trim_text(s: &str) -> (r: &str)
    ensures
        r@ == trimmed(s@),
{
    s.trim()
}

} // verus!
