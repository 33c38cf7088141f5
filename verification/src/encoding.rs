//! UTF-8: writing characters as bytes and checking that bytes are UTF-8.
//! The statements are those of `vstd::utf8`.
use vstd::prelude::*;
use vstd::utf8::*;

verus! {

broadcast use vstd::utf8::group_utf8_lib;

/// Whether two byte sequences are equal.
pub fn bytes_eq(a: &[u8], b: &[u8]) -> (r: bool)
    ensures
        r == (a@ == b@),
{
    if a.len() != b.len() {
        return false;
    }
    let mut i: usize = 0;
    while i < a.len()
        invariant
            a@.len() == b@.len(),
            0 <= i <= a@.len(),
            forall|j: int| 0 <= j < i ==> a@[j] == b@[j],
        decreases a@.len() - i,
    {
        if a[i] != b[i] {
            return false;
        }
        i = i + 1;
    }
    assert(a@ =~= b@);
    true
}

/// The UTF-8 encoding of a sequence followed by one more character.
pub proof fn lemma_encode_push(a: Seq<char>, c: char)
    ensures
        encode_utf8(a.push(c)) == encode_utf8(a) + encode_scalar(c as u32),
    decreases a.len(),
{
    if a.len() == 0 {
        assert(a.push(c).drop_first() =~= Seq::<char>::empty());
        assert(encode_utf8(Seq::<char>::empty()) =~= Seq::<u8>::empty());
        assert(encode_utf8(a.push(c)) =~= encode_scalar(c as u32));
    } else {
        lemma_encode_push(a.drop_first(), c);
        assert(a.push(c).drop_first() =~= a.drop_first().push(c));
        assert(a.push(c)[0] == a[0]);
        assert(encode_utf8(a.push(c)) =~= encode_utf8(a) + encode_scalar(c as u32));
    }
}

/// The UTF-8 encoding of a concatenation is the concatenation of the encodings.
pub proof fn lemma_encode_concat(a: Seq<char>, b: Seq<char>)
    ensures
        encode_utf8(a + b) == encode_utf8(a) + encode_utf8(b),
    decreases a.len(),
{
    if a.len() == 0 {
        assert(a + b =~= b);
        assert(encode_utf8(a) =~= Seq::<u8>::empty());
        assert(encode_utf8(a) + encode_utf8(b) =~= encode_utf8(b));
    } else {
        lemma_encode_concat(a.drop_first(), b);
        assert((a + b).drop_first() =~= a.drop_first() + b);
        assert((a + b)[0] == a[0]);
        assert(encode_utf8(a + b) =~= encode_utf8(a) + encode_utf8(b));
    }
}

/// Appends the UTF-8 encoding of `c`.
pub fn push_char_utf8(c: char, out: &mut Vec<u8>)
    ensures
        final(out)@ == old(out)@ + encode_scalar(c as u32),
{
    let v = c as u32;
    proof {
        char_is_scalar(c);
    }
    if v <= 0x7F {
        out.push((v & 0x7F) as u8);
        assert(final(out)@ =~= old(out)@ + encode_scalar(c as u32));
    } else if v <= 0x7FF {
        out.push(0xC0 | ((v >> 6) & 0x1F) as u8);
        out.push(0x80 | (v & 0x3F) as u8);
        assert(final(out)@ =~= old(out)@ + encode_scalar(c as u32));
    } else if v <= 0xFFFF {
        out.push(0xE0 | ((v >> 12) & 0x0F) as u8);
        out.push(0x80 | ((v >> 6) & 0x3F) as u8);
        out.push(0x80 | (v & 0x3F) as u8);
        assert(final(out)@ =~= old(out)@ + encode_scalar(c as u32));
    } else {
        out.push(0xF0 | ((v >> 18) & 0x7) as u8);
        out.push(0x80 | ((v >> 12) & 0x3F) as u8);
        out.push(0x80 | ((v >> 6) & 0x3F) as u8);
        out.push(0x80 | (v & 0x3F) as u8);
        assert(final(out)@ =~= old(out)@ + encode_scalar(c as u32));
    }
}

/// Appends the UTF-8 encoding of `s` (what `str::as_bytes` gives for it).
pub fn push_chars_utf8(s: &Vec<char>, out: &mut Vec<u8>)
    ensures
        final(out)@ == old(out)@ + encode_utf8(s@),
{
    let mut i: usize = 0;
    while i < s.len()
        invariant
            0 <= i <= s@.len(),
            out@ == old(out)@ + encode_utf8(s@.take(i as int)),
        decreases s@.len() - i,
    {
        proof {
            lemma_encode_push(s@.take(i as int), s@[i as int]);
            assert(s@.take(i as int).push(s@[i as int]) =~= s@.take(i + 1));
        }
        push_char_utf8(s[i], out);
        assert(out@ =~= old(out)@ + encode_utf8(s@.take(i + 1)));
        i = i + 1;
    }
    assert(s@.take(s@.len() as int) =~= s@);
}

/// The UTF-8 encoding of `s`.
pub fn utf8_bytes(s: &Vec<char>) -> (r: Vec<u8>)
    ensures
        r@ == encode_utf8(s@),
{
    let mut out: Vec<u8> = Vec::new();
    push_chars_utf8(s, &mut out);
    assert(out@ =~= encode_utf8(s@));
    out
}

/// The length of the well-formed UTF-8 scalar at the front of `b[i..end]`,
/// or 0 when there is none.
fn first_scalar_len(b: &Vec<u8>, i: usize, end: usize) -> (r: usize)
    requires
        i < end <= b@.len(),
    ensures
        r == 0 <==> !valid_first_scalar(b@.subrange(i as int, end as int)),
        r != 0 ==> r == length_of_first_scalar(b@.subrange(i as int, end as int)),
{
    let ghost t = b@.subrange(i as int, end as int);
    let n = end - i;
    let b0 = b[i];
    assert(t[0] == b0);
    if b0 <= 0x7F {
        1
    } else if 0xC0 <= b0 && b0 <= 0xDF {
        if n < 2 {
            return 0;
        }
        let b1 = b[i + 1];
        assert(t[1] == b1);
        if !(0x80 <= b1 && b1 <= 0xBF) {
            return 0;
        }
        let cp = (((b0 & 0x1F) as u32) << 6) | ((b1 & 0x3F) as u32);
        assert(cp == decode_first_codepoint(t));
        if cp < 0x80 || (0xD800 <= cp && cp <= 0xDFFF) {
            0
        } else {
            2
        }
    } else if 0xE0 <= b0 && b0 <= 0xEF {
        if n < 3 {
            return 0;
        }
        let b1 = b[i + 1];
        let b2 = b[i + 2];
        assert(t[1] == b1 && t[2] == b2);
        if !(0x80 <= b1 && b1 <= 0xBF) || !(0x80 <= b2 && b2 <= 0xBF) {
            return 0;
        }
        let cp = (((b0 & 0x0F) as u32) << 12) | (((b1 & 0x3F) as u32) << 6) | ((b2 & 0x3F) as u32);
        assert(cp == decode_first_codepoint(t));
        if cp < 0x800 || (0xD800 <= cp && cp <= 0xDFFF) {
            0
        } else {
            3
        }
    } else if 0xF0 <= b0 && b0 <= 0xF7 {
        if n < 4 {
            return 0;
        }
        let b1 = b[i + 1];
        let b2 = b[i + 2];
        let b3 = b[i + 3];
        assert(t[1] == b1 && t[2] == b2 && t[3] == b3);
        if !(0x80 <= b1 && b1 <= 0xBF) || !(0x80 <= b2 && b2 <= 0xBF) || !(0x80 <= b3 && b3
            <= 0xBF) {
            return 0;
        }
        let cp = (((b0 & 0x07) as u32) << 18) | (((b1 & 0x3F) as u32) << 12) | (((b2 & 0x3F) as u32)
            << 6) | ((b3 & 0x3F) as u32);
        assert(cp == decode_first_codepoint(t));
        if cp < 0x10000 || cp > 0x10FFFF || (0xD800 <= cp && cp <= 0xDFFF) {
            0
        } else {
            4
        }
    } else {
        0
    }
}

/// Whether `b[start..end]` is well-formed UTF-8 (what `String::from_utf8`
/// accepts).
pub fn is_valid_utf8(b: &Vec<u8>, start: usize, end: usize) -> (r: bool)
    requires
        start <= end <= b@.len(),
    ensures
        r == valid_utf8(b@.subrange(start as int, end as int)),
{
    let mut i: usize = start;
    while i < end
        invariant
            start <= i <= end <= b@.len(),
            valid_utf8(b@.subrange(start as int, end as int)) == valid_utf8(
                b@.subrange(i as int, end as int),
            ),
        decreases end - i,
    {
        let w = first_scalar_len(b, i, end);
        if w == 0 {
            return false;
        }
        assert(pop_first_scalar(b@.subrange(i as int, end as int)) =~= b@.subrange(
            (i + w) as int,
            end as int,
        ));
        i = i + w;
    }
    assert(b@.subrange(i as int, end as int) =~= Seq::<u8>::empty());
    true
}

} // verus!
