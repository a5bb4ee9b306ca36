//! Word boundaries in UTF-8 text: a match counts only where the characters on
//! either side of it are not letters or digits.
use vstd::prelude::*;
use vstd::utf8::*;
use vstd::std_specs::iter::IteratorSpec;
use crate::text::{str_from_utf8, char_is_alphanumeric, is_alphanumeric_char};

verus! {

broadcast use vstd::string::group_string_axioms;

/// The ASCII bytes that separate words.
pub open spec fn ascii_boundary_byte(b: u8) -> bool {
    b == 0x20u8 || b == 0x09u8 || b == 0x0au8 || b == 0x0du8 || b == 0x2eu8 || b == 0x2cu8
        || b == 0x3bu8 || b == 0x3au8 || b == 0x21u8 || b == 0x3fu8 || b == 0x22u8 || b == 0x27u8
        || b == 0x28u8 || b == 0x29u8 || b == 0x5bu8 || b == 0x5du8 || b == 0x7bu8 || b == 0x7du8
        || b == 0x2fu8 || b == 0x5cu8 || b == 0x2du8 || b == 0x5fu8
}

/// The character that starts at `pos`, when the bytes from `pos` to the end
/// are valid UTF-8 and not empty.
pub open spec fn char_at(bytes: Seq<u8>, pos: int) -> Option<char> {
    let rest = bytes.subrange(pos, bytes.len() as int);
    if pos < bytes.len() && valid_utf8(rest) {
        Some(decode_utf8(rest)[0])
    } else {
        None
    }
}

/// Searching backwards from `pos` with windows of `k`, `k + 1`, ... up to
/// four bytes: the last character of the first window that is valid UTF-8.
pub open spec fn char_before_from(bytes: Seq<u8>, pos: int, k: int) -> Option<char>
    decreases 5 - k,
{
    if k > 4 || k > pos || k < 1 {
        None
    } else {
        let w = bytes.subrange(pos - k, pos);
        if valid_utf8(w) {
            Some(decode_utf8(w).last())
        } else {
            char_before_from(bytes, pos, k + 1)
        }
    }
}

/// The character that ends just before `pos`.
pub open spec fn char_before(bytes: Seq<u8>, pos: int) -> Option<char> {
    char_before_from(bytes, pos, 1)
}

/// A character that is neither a letter nor a digit separates words.
pub open spec fn unicode_boundary_char(c: char) -> bool {
    !is_alphanumeric_char(c)
}

/// Whether the character after (`forward`) or before position `pos` separates words.
pub open spec fn boundary_at(bytes: Seq<u8>, pos: int, forward: bool) -> bool {
    if forward {
        if pos >= bytes.len() {
            true
        } else if bytes[pos] < 128 {
            ascii_boundary_byte(bytes[pos])
        } else {
            match char_at(bytes, pos) {
                Some(c) => unicode_boundary_char(c),
                None => false,
            }
        }
    } else {
        if pos <= 0 {
            true
        } else if bytes[pos - 1] < 128 {
            ascii_boundary_byte(bytes[pos - 1])
        } else {
            match char_before(bytes, pos) {
                Some(c) => unicode_boundary_char(c),
                None => false,
            }
        }
    }
}

/// A match `[start, end)` stands on word boundaries on both sides.
pub open spec fn word_boundary(bytes: Seq<u8>, start: int, end: int) -> bool {
    &&& (start == 0 || boundary_at(bytes, start, false))
    &&& (end >= bytes.len() || boundary_at(bytes, end, true))
}

proof fn lemma_decode_nonempty(b: Seq<u8>)
    requires valid_utf8(b), b.len() > 0,
    ensures decode_utf8(b).len() > 0,
{
    assert(decode_utf8(b) == seq![decode_first_scalar(b) as char] + decode_utf8(pop_first_scalar(b)));
}

/// Whether the ASCII byte separates words.
pub fn is_ascii_boundary(b: u8) -> (r: bool)
    ensures r == ascii_boundary_byte(b),
{
    b == 0x20u8 || b == 0x09u8 || b == 0x0au8 || b == 0x0du8 || b == 0x2eu8 || b == 0x2cu8
        || b == 0x3bu8 || b == 0x3au8 || b == 0x21u8 || b == 0x3fu8 || b == 0x22u8 || b == 0x27u8
        || b == 0x28u8 || b == 0x29u8 || b == 0x5bu8 || b == 0x5du8 || b == 0x7bu8 || b == 0x7du8
        || b == 0x2fu8 || b == 0x5cu8 || b == 0x2du8 || b == 0x5fu8
}

/// Whether the character separates words: it is neither a letter nor a digit.
pub fn is_unicode_boundary(ch: char) -> (r: bool)
    ensures r == unicode_boundary_char(ch),
{
    !char_is_alphanumeric(ch)
}

/// The character starting at `pos`; `None` when the bytes from `pos` on are
/// not valid UTF-8 or there are none.
pub fn decode_utf8_char_at(bytes: &[u8], pos: usize) -> (r: Option<char>)
    requires pos <= bytes@.len(),
    ensures r == char_at(bytes@, pos as int),
{
    let rest = vstd::slice::slice_subrange(bytes, pos, bytes.len());
    match str_from_utf8(rest) {
        Some(s) => {
            let mut it = s.chars();
            let c = it.next();
            proof {
                if pos < bytes@.len() {
                    lemma_decode_nonempty(rest@);
                } else {
                    assert(rest@.len() == 0);
                    assert(decode_utf8(rest@) =~= Seq::<char>::empty());
                }
            }
            if pos < bytes.len() { c } else { None }
        },
        None => None,
    }
}

/// The character ending just before `pos`, found by trying windows of one
/// to four bytes.
pub fn decode_utf8_char_before(bytes: &[u8], pos: usize) -> (r: Option<char>)
    requires pos <= bytes@.len(),
    ensures r == char_before(bytes@, pos as int),
{
    let max = if pos < 4 { pos } else { 4 };
    let mut offset: usize = 1;
    while offset <= max
        invariant
            1 <= offset <= 5,
            max == (if pos < 4 { pos } else { 4 }),
            pos <= bytes@.len(),
            offset > max ==> char_before_from(bytes@, pos as int, offset as int) is None,
            char_before_from(bytes@, pos as int, offset as int) == char_before(bytes@, pos as int),
        decreases 5 - offset,
    {
        let start = pos - offset;
        let w = vstd::slice::slice_subrange(bytes, start, pos);
        match str_from_utf8(w) {
            Some(s) => {
                proof { lemma_decode_nonempty(w@); }
                let mut it = s.chars();
                let mut last: Option<char> = None;
                let ghost mut n: int = 0;
                loop
                    invariant_except_break
                        0 <= n <= s@.len(),
                        it.remaining() == s@.skip(n),
                        n == 0 ==> last is None,
                        n > 0 ==> last == Some(s@[n - 1]),
                    ensures
                        n == s@.len(),
                        n > 0 ==> last == Some(s@[n - 1]),
                    decreases s@.len() - n,
                {
                    match it.next() {
                        Some(c) => {
                            proof {
                                assert(s@.skip(n)[0] == s@[n]);
                                assert(s@.skip(n).drop_first() =~= s@.skip(n + 1));
                                n = n + 1;
                            }
                            last = Some(c);
                        },
                        None => {
                            assert(s@.skip(n).len() == 0);
                            break;
                        },
                    }
                }
                return last;
            },
            None => {},
        }
        offset = offset + 1;
    }
    None
}

/// Whether the character after (`forward`) or before position `pos` separates words.
pub fn is_boundary_at(bytes: &[u8], pos: usize, forward: bool) -> (r: bool)
    requires pos <= bytes@.len(),
    ensures r == boundary_at(bytes@, pos as int, forward),
{
    if forward {
        if pos >= bytes.len() {
            return true;
        }
        let b = bytes[pos];
        if b < 128 {
            return is_ascii_boundary(b);
        }
        match decode_utf8_char_at(bytes, pos) {
            Some(ch) => is_unicode_boundary(ch),
            None => false,
        }
    } else {
        if pos == 0 {
            return true;
        }
        let b = bytes[pos - 1];
        if b < 128 {
            return is_ascii_boundary(b);
        }
        match decode_utf8_char_before(bytes, pos) {
            Some(ch) => is_unicode_boundary(ch),
            None => false,
        }
    }
}

/// Whether a match `[start, end)` stands on word boundaries on both sides.
pub fn is_word_boundary(bytes: &[u8], start: usize, end: usize) -> (r: bool)
    requires start <= bytes@.len(),
    ensures r == word_boundary(bytes@, start as int, end as int),
{
    let len = bytes.len();
    let left_ok = start == 0 || is_boundary_at(bytes, start, false);
    let right_ok = end >= len || is_boundary_at(bytes, end, true);
    left_ok && right_ok
}

} // verus!
