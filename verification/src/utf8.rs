//! Checking that bytes are well-formed UTF-8.
//!
//! A byte string is well formed where it is a row of encoded scalar values:
//! each a leading byte with the right number of continuation bytes, in the
//! shortest form that holds its value, and no surrogate.

use vstd::prelude::*;
use vstd::utf8::{
    length_of_first_scalar, not_overlong_encoding, not_surrogate, pop_first_scalar,
    valid_first_scalar, valid_utf8,
};

verus! {

/// Whether `b` is a continuation byte: `10xxxxxx`.
fn is_continuation(b: u8) -> (r: bool)
    ensures
        r == vstd::utf8::is_continuation_byte(b),
{
    0x80 <= b && b <= 0xbf
}

/// Whether a scalar value that took `length` bytes to encode is allowed: it
/// needs that many bytes, and it is no surrogate.
fn is_allowed(scalar: u32, length: usize) -> (r: bool)
    requires
        1 <= length <= 4,
    ensures
        r == (not_overlong_encoding(scalar, length as int) && not_surrogate(scalar)),
{
    let long_enough = match length {
        1 => true,
        2 => 0x80 <= scalar,
        3 => 0x800 <= scalar,
        _ => 0x10000 <= scalar && scalar <= 0x10ffff,
    };
    long_enough && !(0xD800 <= scalar && scalar <= 0xDFFF)
}

/// The six data bits of a continuation byte.
fn data_bits(b: u8) -> (r: u32)
    ensures
        r == vstd::utf8::continuation_bits(b),
{
    (b & 0x3f) as u32
}

/// The length in bytes of the scalar value that is encoded at index `from` of
/// `s`, or 0 where what stands there is not the well-formed encoding of one.
fn scalar_length(s: &[u8], from: usize) -> (n: usize)
    requires
        from <= s.len(),
    ensures
        n == 0 <==> !valid_first_scalar(s@.skip(from as int)),
        n != 0 ==> n == length_of_first_scalar(s@.skip(from as int)) && n <= s.len() - from,
{
    if from >= s.len() {
        return 0;
    }
    let ghost rest = s@.skip(from as int);
    let left = s.len() - from;
    let first = s[from];
    assert(rest[0] == first);
    if first <= 0x7f {
        let scalar = (first & 0x7F) as u32;
        if is_allowed(scalar, 1) {
            1
        } else {
            0
        }
    } else if 0xc0 <= first && first <= 0xdf {
        if left < 2 || !is_continuation(s[from + 1]) {
            return 0;
        }
        let second = s[from + 1];
        assert(rest[1] == second);
        let scalar = (((first & 0x1F) as u32) << 6) | data_bits(second);
        if is_allowed(scalar, 2) {
            2
        } else {
            0
        }
    } else if 0xe0 <= first && first <= 0xef {
        if left < 3 || !is_continuation(s[from + 1]) || !is_continuation(s[from + 2]) {
            return 0;
        }
        let second = s[from + 1];
        let third = s[from + 2];
        assert(rest[1] == second);
        assert(rest[2] == third);
        let scalar = (((first & 0x0F) as u32) << 12) | (data_bits(second) << 6) | data_bits(third);
        if is_allowed(scalar, 3) {
            3
        } else {
            0
        }
    } else if 0xf0 <= first && first <= 0xf7 {
        if left < 4 || !is_continuation(s[from + 1]) || !is_continuation(s[from + 2])
            || !is_continuation(s[from + 3]) {
            return 0;
        }
        let second = s[from + 1];
        let third = s[from + 2];
        let fourth = s[from + 3];
        assert(rest[1] == second);
        assert(rest[2] == third);
        assert(rest[3] == fourth);
        let scalar = (((first & 0x07) as u32) << 18) | (data_bits(second) << 12) | (data_bits(third)
            << 6) | data_bits(fourth);
        if is_allowed(scalar, 4) {
            4
        } else {
            0
        }
    } else {
        0
    }
}

/// Whether `s` is well-formed UTF-8.
pub fn is_utf8(s: &[u8]) -> (ok: bool)
    ensures
        ok == valid_utf8(s@),
{
    let mut i: usize = 0;
    assert(s@.skip(0) =~= s@);
    while i < s.len()
        invariant
            i <= s.len(),
            valid_utf8(s@) == valid_utf8(s@.skip(i as int)),
        decreases s.len() - i,
    {
        let n = scalar_length(s, i);
        if n == 0 {
            return false;
        }
        assert(pop_first_scalar(s@.skip(i as int)) =~= s@.skip(i + n));
        i += n;
    }
    true
}

} // verus!
