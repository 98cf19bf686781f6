//! Facts about the UTF-8 encoding of text, and cutting a string slice at a
//! byte offset.
//!
//! A string slice is stored as the UTF-8 encoding of its characters. The
//! characters that the pattern language gives a meaning to are all ASCII, and
//! an ASCII byte in well-formed UTF-8 always stands for itself, so text can be
//! searched for them byte by byte.

use vstd::prelude::*;
use vstd::string::*;
use vstd::utf8::*;

verus! {

/// Whether `c` is an ASCII character.
pub open spec fn is_ascii_char(c: char) -> bool {
    (c as u32) < 0x80
}

/// Encoding goes through concatenation.
pub proof fn lemma_encode_concat(a: Seq<char>, b: Seq<char>)
    ensures
        encode_utf8(a + b) == encode_utf8(a) + encode_utf8(b),
    decreases a.len(),
{
    if a.len() == 0 {
        assert(a + b =~= b);
        assert(encode_utf8(a) + encode_utf8(b) =~= encode_utf8(b));
    } else {
        lemma_encode_concat(a.drop_first(), b);
        assert((a + b).drop_first() =~= a.drop_first() + b);
        assert(encode_scalar(a[0] as u32) + (encode_utf8(a.drop_first()) + encode_utf8(b))
            =~= encode_utf8(a) + encode_utf8(b));
    }
}

/// The encoding of the front of a text is the front of its encoding.
pub proof fn lemma_encode_prefix(front: Seq<char>, chars: Seq<char>)
    requires
        front.is_prefix_of(chars),
    ensures
        encode_utf8(front).is_prefix_of(encode_utf8(chars)),
{
    let back = chars.skip(front.len() as int);
    assert(front + back =~= chars);
    lemma_encode_concat(front, back);
}

/// Texts with the same encoding are the same.
pub proof fn lemma_encode_injective(a: Seq<char>, b: Seq<char>)
    requires
        encode_utf8(a) == encode_utf8(b),
    ensures
        a == b,
{
    encode_utf8_decode_utf8(a);
    encode_utf8_decode_utf8(b);
}

/// Text is empty exactly when its encoding is.
pub proof fn lemma_encode_empty(chars: Seq<char>)
    ensures
        encode_utf8(chars).len() == 0 <==> chars.len() == 0,
{
    if chars.len() > 0 {
        encode_utf8_first_scalar(chars);
    }
}

/// An ASCII character is encoded as the one byte of its own number.
pub proof fn lemma_encode_ascii(c: char)
    requires
        is_ascii_char(c),
    ensures
        encode_scalar(c as u32) == seq![c as u8],
{
    let v = c as u32;
    assert(leading_byte_width_1(v) == v as u8) by (bit_vector)
        requires
            v < 0x80,
    ;
}

/// An ASCII character of a text occurs as a byte in the encoding of the text.
pub proof fn lemma_ascii_char_occurs(chars: Seq<char>, k: int)
    requires
        0 <= k < chars.len(),
        is_ascii_char(chars[k]),
    ensures
        encode_utf8(chars).contains(chars[k] as u8),
    decreases chars.len(),
{
    let first = encode_scalar(chars[0] as u32);
    let rest = encode_utf8(chars.drop_first());
    if k == 0 {
        lemma_encode_ascii(chars[0]);
        assert((first + rest)[0] == chars[0] as u8);
    } else {
        lemma_ascii_char_occurs(chars.drop_first(), k - 1);
        let j = choose|j: int| 0 <= j < rest.len() && rest[j] == chars[k] as u8;
        assert((first + rest)[first.len() + j] == chars[k] as u8);
    }
}

/// Where the encoding of a text begins with an ASCII byte, the text begins
/// with the character of that number.
pub proof fn lemma_first_ascii_byte(chars: Seq<char>)
    requires
        encode_utf8(chars).len() > 0,
        encode_utf8(chars)[0] < 0x80,
    ensures
        chars.len() > 0,
        is_ascii_char(chars[0]),
        chars[0] as u8 == encode_utf8(chars)[0],
{
    lemma_encode_empty(chars);
    encode_utf8_first_scalar(chars);
    let b = encode_utf8(chars)[0];
    assert((b & 0x7f) as u32 == b as u32) by (bit_vector)
        requires
            b < 0x80,
    ;
    assert(decode_first_scalar(encode_utf8(chars)) == b as u32);
    lemma_char_of_byte(chars[0], b);
}

/// A character with the number of a byte is that byte.
proof fn lemma_char_of_byte(c: char, b: u8)
    requires
        c as u32 == b as u32,
    ensures
        c as u8 == b,
{
}

/// Where the first `mid` bytes of well-formed UTF-8 are well formed by
/// themselves, `mid` lies between two characters.
pub proof fn lemma_valid_prefix_is_boundary(bytes: Seq<u8>, mid: int)
    requires
        valid_utf8(bytes),
        0 <= mid <= bytes.len(),
        valid_utf8(bytes.subrange(0, mid)),
    ensures
        is_char_boundary(bytes, mid),
    decreases bytes.len(),
{
    if mid > 0 {
        let front = bytes.subrange(0, mid);
        let width = length_of_first_scalar(bytes);
        assert(front[0] == bytes[0]);
        assert(length_of_first_scalar(front) == width);
        assert(width <= mid);
        let rest = pop_first_scalar(bytes);
        assert(pop_first_scalar(front) =~= rest.subrange(0, mid - width));
        lemma_valid_prefix_is_boundary(rest, mid - width);
    }
}

/// Splits `s` at the byte offset `mid`, which must lie between two characters.
pub fn cut<'a>(s: &'a str, mid: usize) -> (r: (&'a str, &'a str))
    requires
        is_char_boundary(s.spec_bytes(), mid as int),
    ensures
        r.0@ + r.1@ == s@,
        mid <= s.spec_bytes().len(),
        r.0.spec_bytes() == s.spec_bytes().subrange(0, mid as int),
        r.1.spec_bytes() == s.spec_bytes().subrange(mid as int, s.spec_bytes().len() as int),
{
    let r = s.split_at(mid);
    proof {
        let bytes = s.spec_bytes();
        encode_utf8_valid_utf8(s@);
        decode_utf8_split(bytes, mid as int);
        encode_utf8_decode_utf8(s@);
        encode_utf8_decode_utf8(r.0@);
        encode_utf8_decode_utf8(r.1@);
        assert(r.0@ + r.1@ =~= s@);
    }
    r
}

/// The byte length of the first character of `s`, read off its first byte.
pub fn first_char_width(s: &str) -> (width: usize)
    requires
        s@.len() > 0,
    ensures
        1 <= width <= 4,
        width == encode_scalar(s@[0] as u32).len(),
        width <= s.spec_bytes().len(),
        is_char_boundary(s.spec_bytes(), width as int),
        s.spec_bytes().subrange(0, width as int) == encode_utf8(seq![s@[0]]),
        s.spec_bytes().subrange(width as int, s.spec_bytes().len() as int) == encode_utf8(
            s@.drop_first(),
        ),
{
    let bytes = s.as_bytes();
    proof {
        lemma_encode_empty(s@);
        encode_utf8_first_scalar(s@);
        encode_utf8_valid_utf8(s@);
        reveal_with_fuel(is_char_boundary, 2);
        let first = encode_scalar(s@[0] as u32);
        let rest = encode_utf8(s@.drop_first());
        assert(s.spec_bytes() == first + rest);
        assert((first + rest).subrange(0, first.len() as int) =~= first);
        assert((first + rest).subrange(first.len() as int, (first + rest).len() as int) =~= rest);
        let single = seq![s@[0]];
        assert(single.drop_first() =~= Seq::<char>::empty());
        assert(encode_utf8(single.drop_first()) =~= Seq::<u8>::empty());
        assert(single[0] == s@[0]);
        assert(encode_utf8(single) =~= first);
    }
    let lead = bytes[0];
    if lead < 0x80 {
        1
    } else if lead < 0xe0 {
        2
    } else if lead < 0xf0 {
        3
    } else {
        4
    }
}

/// The byte offset in `s` of the first `a` or `b`, both ASCII, or the byte
/// length of `s` where neither occurs.
pub fn find_either(s: &str, a: char, b: char) -> (at: usize)
    requires
        is_ascii_char(a),
        is_ascii_char(b),
    ensures
        at <= s.spec_bytes().len(),
        is_char_boundary(s.spec_bytes(), at as int),
        forall|j: int| 0 <= j < at ==> s.spec_bytes()[j] != a as u8 && s.spec_bytes()[j] != b as u8,
        at < s.spec_bytes().len() ==> s.spec_bytes()[at as int] == a as u8 || s.spec_bytes()[at as int]
            == b as u8,
{
    let bytes = s.as_bytes();
    let n: usize = bytes.len();
    let first: u8 = a as u8;
    let second: u8 = b as u8;
    let mut at: usize = 0;
    while at < n && bytes[at] != first && bytes[at] != second
        invariant
            n == bytes@.len(),
            at <= n,
            forall|j: int| 0 <= j < at ==> bytes@[j] != first && bytes@[j] != second,
        decreases n - at,
    {
        at = at + 1;
    }
    proof {
        encode_utf8_valid_utf8(s@);
        if at < n {
            is_char_boundary_iff_not_is_continuation_byte(s.spec_bytes(), at as int);
        } else {
            is_char_boundary_start_end_of_seq(s.spec_bytes());
        }
    }
    at
}

/// Whether the bytes of `s` begin with the bytes of `prefix`.
pub fn starts_with_bytes(s: &str, prefix: &str) -> (r: bool)
    ensures
        r == prefix.spec_bytes().is_prefix_of(s.spec_bytes()),
{
    let bytes = s.as_bytes();
    let wanted = prefix.as_bytes();
    let m: usize = wanted.len();
    if m > bytes.len() {
        return false;
    }
    let mut i: usize = 0;
    while i < m
        invariant
            bytes@ == s.spec_bytes(),
            wanted@ == prefix.spec_bytes(),
            m == wanted@.len(),
            m <= bytes@.len(),
            i <= m,
            forall|j: int| 0 <= j < i ==> bytes@[j] == wanted@[j],
        decreases m - i,
    {
        if bytes[i] != wanted[i] {
            proof {
                if wanted@.is_prefix_of(bytes@) {
                    assert(bytes@.subrange(0, m as int)[i as int] == wanted@[i as int]);
                }
            }
            return false;
        }
        i = i + 1;
    }
    proof {
        assert(wanted@ =~= bytes@.subrange(0, m as int));
    }
    true
}

} // verus!
