//! Small verified text utilities shared by the cursor and the renderer:
//! character-level string equality and search, byte-range slicing that
//! respects UTF-8 boundaries, and decimal formatting of line numbers.
use vstd::prelude::*;

verus! {

use vstd::string::StrSliceExecFns;
use vstd::string::StringSliceAdditionalSpecFns;
use vstd::utf8::encode_scalar;
use vstd::utf8::encode_utf8;
use vstd::utf8::decode_utf8;
use vstd::utf8::valid_utf8;
use vstd::utf8::encode_utf8_valid_utf8;
use vstd::utf8::encode_utf8_decode_utf8;
use vstd::utf8::valid_utf8_split;
use vstd::utf8::decode_utf8_split;
use vstd::utf8::char_is_scalar;

/// Relies on std's `String::push`: appends one character to the string.
pub assume_specification[ String::push ](s: &mut String, c: char)
    ensures
        final(s)@ == old(s)@.push(c),
;

/// The number of bytes the UTF-8 encoding of one character takes.
pub open spec fn char_utf8_len(c: char) -> int {
    encode_scalar(c as u32).len() as int
}

/// Computes the UTF-8 encoded width of a character from its scalar value.
pub fn char_width(c: char) -> (r: usize)
    ensures
        r == char_utf8_len(c),
        1 <= r <= 4,
{
    proof {
        char_is_scalar(c);
    }
    let u = c as u32;
    if u < 0x80 {
        1
    } else if u < 0x800 {
        2
    } else if u < 0x10000 {
        3
    } else {
        4
    }
}

/// Character-by-character string equality: true exactly when the two
/// strings consist of the same characters.
pub fn str_eq(a: &str, b: &str) -> (r: bool)
    ensures
        r == (a@ == b@),
{
    let a_len = a.unicode_len();
    let b_len = b.unicode_len();
    if a_len != b_len {
        return false;
    }
    let mut i: usize = 0;
    while i < a_len
        invariant
            0 <= i <= a_len,
            a_len == a@.len(),
            a_len == b@.len(),
            forall|j: int| 0 <= j < i ==> a@[j] == b@[j],
        decreases a_len - i,
    {
        if a.get_char(i) != b.get_char(i) {
            return false;
        }
        i += 1;
    }
    proof {
        assert(a@ =~= b@);
    }
    true
}

/// True exactly when the character occurs in the string.
pub fn str_contains_char(s: &str, c: char) -> (r: bool)
    ensures
        r == s@.contains(c),
{
    let len = s.unicode_len();
    let mut i: usize = 0;
    while i < len
        invariant
            0 <= i <= len,
            len == s@.len(),
            forall|j: int| 0 <= j < i ==> s@[j] != c,
        decreases len - i,
    {
        if s.get_char(i) == c {
            return true;
        }
        i += 1;
    }
    false
}

/// Slices a string by a byte range whose two ends lie on character
/// boundaries; the result holds exactly the bytes of that range.
pub fn substring_bytes<'a>(s: &'a str, from: usize, to: usize) -> (r: &'a str)
    requires
        from <= to <= s.spec_bytes().len(),
        vstd::utf8::is_char_boundary(s.spec_bytes(), from as int),
        vstd::utf8::is_char_boundary(s.spec_bytes(), to as int),
    ensures
        r.spec_bytes() == s.spec_bytes().subrange(from as int, to as int),
        r@ == decode_utf8(s.spec_bytes().subrange(from as int, to as int)),
{
    proof {
        broadcast use encode_utf8_valid_utf8;
        broadcast use valid_utf8_split;
        broadcast use decode_utf8_split;

    }
    let (head, _) = s.split_at(to);
    proof {
        let bytes = s.spec_bytes();
        let head_bytes = bytes.subrange(0, to as int);
        assert(head.spec_bytes() =~= head_bytes);
        // the lower cut is still a boundary of the shortened string
        assert(vstd::utf8::is_char_boundary(head_bytes, from as int)) by {
            lemma_boundary_of_prefix(bytes, to as int, from as int);
        }
    }
    let (_, r) = head.split_at(from);
    proof {
        let bytes = s.spec_bytes();
        assert(r.spec_bytes() =~= bytes.subrange(from as int, to as int));
        // the view of the result is the decoding of its own bytes
        broadcast use encode_utf8_decode_utf8;

        assert(decode_utf8(encode_utf8(r@)) == r@);
    }
    r
}

/// A boundary below a boundary cut remains a boundary of the prefix.
pub proof fn lemma_boundary_of_prefix(bytes: Seq<u8>, cut: int, k: int)
    requires
        valid_utf8(bytes),
        0 <= k <= cut <= bytes.len(),
        vstd::utf8::is_char_boundary(bytes, cut),
        vstd::utf8::is_char_boundary(bytes, k),
    ensures
        vstd::utf8::is_char_boundary(bytes.subrange(0, cut), k),
{
    valid_utf8_split(bytes, cut);
    let prefix = bytes.subrange(0, cut);
    if k == cut {
        vstd::utf8::is_char_boundary_start_end_of_seq(prefix);
    } else {
        assert(prefix[k] == bytes[k]);
        vstd::utf8::is_char_boundary_iff_not_is_continuation_byte(bytes, k);
        vstd::utf8::is_char_boundary_iff_not_is_continuation_byte(prefix, k);
    }
}

/// A character sequence's UTF-8 encoding takes at most four bytes per
/// character; this is how a caller bounds a text's byte length by its
/// character count.
pub proof fn lemma_bytes_at_most_quadruple(chars: Seq<char>)
    ensures
        encode_utf8(chars).len() <= 4 * chars.len(),
    decreases chars.len(),
{
    if chars.len() > 0 {
        lemma_bytes_at_most_quadruple(chars.drop_first());
    }
}

/// The decimal digits of a number, most significant first.
pub open spec fn dec_digits(n: int) -> Seq<char>
    recommends
        n >= 0,
    decreases n,
{
    if n < 10 {
        seq![dec_digit(n)]
    } else {
        dec_digits(n / 10).push(dec_digit(n % 10))
    }
}

/// The character for one decimal digit.
pub open spec fn dec_digit(d: int) -> char {
    if d == 0 {
        '0'
    } else if d == 1 {
        '1'
    } else if d == 2 {
        '2'
    } else if d == 3 {
        '3'
    } else if d == 4 {
        '4'
    } else if d == 5 {
        '5'
    } else if d == 6 {
        '6'
    } else if d == 7 {
        '7'
    } else if d == 8 {
        '8'
    } else {
        '9'
    }
}

fn dec_digit_char(d: usize) -> (r: char)
    requires
        d < 10,
    ensures
        r == dec_digit(d as int),
{
    if d == 0 {
        '0'
    } else if d == 1 {
        '1'
    } else if d == 2 {
        '2'
    } else if d == 3 {
        '3'
    } else if d == 4 {
        '4'
    } else if d == 5 {
        '5'
    } else if d == 6 {
        '6'
    } else if d == 7 {
        '7'
    } else if d == 8 {
        '8'
    } else {
        '9'
    }
}

/// Appends the decimal form of a number to a string.
pub fn push_decimal(out: &mut String, n: usize)
    ensures
        final(out)@ == old(out)@ + dec_digits(n as int),
    decreases n,
{
    if n < 10 {
        out.push(dec_digit_char(n));
    } else {
        push_decimal(out, n / 10);
        out.push(dec_digit_char(n % 10));
    }
}

/// The number of decimal digits of a number.
pub open spec fn dec_len(n: int) -> int
    recommends
        n >= 0,
    decreases n,
{
    if n < 10 {
        1
    } else {
        1 + dec_len(n / 10)
    }
}

pub proof fn lemma_dec_digits_len(n: int)
    requires
        n >= 0,
    ensures
        dec_digits(n).len() == dec_len(n),
    decreases n,
{
    if n >= 10 {
        lemma_dec_digits_len(n / 10);
    }
}

/// The number of decimal digits, computed.
pub fn dec_len_exec(n: usize) -> (r: usize)
    ensures
        r == dec_len(n as int),
        r >= 1,
    decreases n,
{
    if n < 10 {
        1
    } else {
        let rest = dec_len_exec(n / 10);
        proof {
            lemma_dec_len_bound(n as int / 10);
        }
        rest + 1
    }
}

proof fn lemma_dec_len_bound(n: int)
    requires
        n >= 0,
    ensures
        dec_len(n) <= n + 1,
    decreases n,
{
    if n >= 10 {
        lemma_dec_len_bound(n / 10);
    }
}

/// A sequence of the same character repeated.
pub open spec fn repeat_char(c: char, n: int) -> Seq<char>
    recommends
        n >= 0,
{
    Seq::new(n as nat, |i: int| c)
}

/// Appends the same character a given number of times.
pub fn push_repeated(out: &mut String, c: char, n: usize)
    ensures
        final(out)@ == old(out)@ + repeat_char(c, n as int),
{
    let mut i: usize = 0;
    while i < n
        invariant
            0 <= i <= n,
            out@ == old(out)@ + repeat_char(c, i as int),
        decreases n - i,
    {
        out.push(c);
        proof {
            assert(old(out)@ + repeat_char(c, (i + 1) as int) =~= (old(out)@ + repeat_char(
                c,
                i as int,
            )).push(c));
        }
        i += 1;
    }
    proof {
        assert(out@ =~= old(out)@ + repeat_char(c, n as int));
    }
}

} // verus!
