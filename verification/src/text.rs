use vstd::prelude::*;

verus! {

/// Relies on char's `to_string`: the result is exactly that one character.
#[verifier::external_body]
pub(crate) fn char_to_string(c: char) -> (r: String)
    ensures
        r@ == seq![c],
{
    c.to_string()
}

/// Whether `c` is whitespace: the Unicode White_Space set, which is what
/// std's whitespace splitting and trimming go by.
pub open spec fn is_unicode_blank(c: char) -> bool {
    let n = c as u32;
    ||| n == 0x20
    ||| (0x09 <= n && n <= 0x0D)
    ||| n == 0x85
    ||| n == 0xA0
    ||| n == 0x1680
    ||| (0x2000 <= n && n <= 0x200A)
    ||| n == 0x2028
    ||| n == 0x2029
    ||| n == 0x202F
    ||| n == 0x205F
    ||| n == 0x3000
}

pub fn unicode_blank(c: char) -> (r: bool)
    ensures
        r == is_unicode_blank(c),
{
    let n = c as u32;
    n == 0x20 || (0x09 <= n && n <= 0x0D) || n == 0x85 || n == 0xA0 || n == 0x1680 || (0x2000 <= n
        && n <= 0x200A) || n == 0x2028 || n == 0x2029 || n == 0x202F || n == 0x205F || n == 0x3000
}

} // verus!
