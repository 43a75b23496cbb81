//! A Caesar cipher over text: every ASCII letter is rotated forward within
//! its own case by a shift, every other character passes through unchanged.
//! Decryption rotates by the complementary shift.

use vstd::prelude::*;

verus! {

/// Relies on String::push: appends the given character to the end of the
/// string.
pub assume_specification[ String::push ](s: &mut String, c: char)
    ensures
        final(s)@ == old(s)@.push(c),
;

/// Whether `c` is an ASCII lower-case letter.
pub open spec fn lower_case(c: char) -> bool {
    97 <= c as u32 && c as u32 <= 122
}

/// Whether `c` is an ASCII upper-case letter.
pub open spec fn upper_case(c: char) -> bool {
    65 <= c as u32 && c as u32 <= 90
}

/// The character `c` rotated forward by `k` places within its own alphabet
/// case; anything but an ASCII letter stays as it is.
pub open spec fn shift_char(c: char, k: u8) -> char {
    if lower_case(c) {
        ((((c as u32 - 97 + k) % 26 + 97) as u8) as char)
    } else if upper_case(c) {
        ((((c as u32 - 65 + k) % 26 + 65) as u8) as char)
    } else {
        c
    }
}

/// A whole text rotated forward by `k`: the Caesar encryption.
pub open spec fn cipher_spec(s: Seq<char>, k: u8) -> Seq<char> {
    s.map(|i: int, c: char| shift_char(c, k))
}

/// Rotates every ASCII letter of `text` forward by `shift` within its case
/// and keeps every other character. The bound on `shift` keeps the byte
/// arithmetic of the rotation inside `u8`.
pub fn encrypt(text: &str, shift: u8) -> (r: String)
    requires
        shift <= 230,
    ensures
        r@ == cipher_spec(text@, shift),
{
    let mut result = String::new();
    let ghost out = cipher_spec(text@, shift);
    let n = text.unicode_len();
    proof {
        assert(out.len() == n);
        assert(result@ =~= out.take(0));
    }
    let mut i: usize = 0;
    while i < n
        invariant
            i <= n,
            n == text@.len(),
            shift <= 230,
            out == cipher_spec(text@, shift),
            out.len() == n,
            result@ == out.take(i as int),
        decreases n - i,
    {
        let c = text.get_char(i);
        let u = c as u32;
        let shifted: char;
        if 97 <= u && u <= 122 {
            let b: u8 = (c as u8) - 97;
            shifted = (((b + shift) % 26 + 97) as u8) as char;
        } else if 65 <= u && u <= 90 {
            let b: u8 = (c as u8) - 65;
            shifted = (((b + shift) % 26 + 65) as u8) as char;
        } else {
            shifted = c;
        }
        proof {
            assert(shifted == shift_char(c, shift));
            assert(out[i as int] == shift_char(text@[i as int], shift));
            assert(out.take(i + 1).drop_last() =~= out.take(i as int));
        }
        result.push(shifted);
        proof {
            assert(result@ =~= out.take(i + 1));
        }
        i += 1;
    }
    proof {
        assert(out.take(n as int) =~= out);
    }
    result
}

/// Undoes `encrypt` with the same shift by rotating forward the
/// complementary number of places.
pub fn decrypt(text: &str, shift: u8) -> (r: String)
    requires
        shift <= 26,
    ensures
        r@ == cipher_spec(text@, (26 - shift) as u8),
{
    encrypt(text, 26 - shift)
}

} // verus!
