//! Small text helpers shared with the command-line shell.

use vstd::prelude::*;

verus! {

/// Whether `c` is an ASCII hexadecimal digit.
pub open spec fn is_hex_digit(c: char) -> bool {
    let u = c as u32;
    (48 <= u && u <= 57) || (97 <= u && u <= 102) || (65 <= u && u <= 70)
}

/// Executable form of `is_hex_digit`.
pub fn hex_digit_char(c: char) -> (r: bool)
    ensures
        r == is_hex_digit(c),
{
    let u = c as u32;
    (48 <= u && u <= 57) || (97 <= u && u <= 102) || (65 <= u && u <= 70)
}

/// What `is_hex` accepts: hexadecimal digits throughout, behind an
/// optional `0x` or `0X` prefix when the text is long enough.
pub open spec fn spec_is_hex(s: Seq<char>) -> bool {
    if s.len() > 2 && s[0] == '0' && (s[1] == 'x' || s[1] == 'X') {
        forall|k: int| 2 <= k < s.len() ==> is_hex_digit(#[trigger] s[k])
    } else {
        forall|k: int| 0 <= k < s.len() ==> is_hex_digit(#[trigger] s[k])
    }
}

/// Whether `s` is a hexadecimal value, with or without a `0x` prefix.
#[verifier::loop_isolation(false)]
pub fn is_hex(s: &[char]) -> (r: bool)
    ensures
        r == spec_is_hex(s@),
{
    let start: usize = if s.len() > 2 && s[0] == '0' && (s[1] == 'x' || s[1] == 'X') {
        2
    } else {
        0
    };
    let mut i: usize = start;
    while i < s.len()
        invariant
            start <= i <= s@.len(),
            forall|k: int| start <= k < i ==> is_hex_digit(#[trigger] s@[k]),
        decreases s@.len() - i,
    {
        if !hex_digit_char(s[i]) {
            return false;
        }
        i = i + 1;
    }
    true
}

} // verus!
