//! Byte offsets of character positions in UTF-8 text, so that a scanner
//! that counts characters can hand out slices of the text it reads.
use vstd::prelude::*;

use vstd::string::StringSliceAdditionalSpecFns;
use vstd::utf8::{encode_scalar, encode_utf8, is_char_boundary, length_of_first_scalar, pop_first_scalar};

use std::borrow::Cow;

verus! {

broadcast use vstd::utf8::encode_utf8_valid_utf8;

/// The number of bytes that the first `k` characters of `x` take in UTF-8.
pub open spec fn byte_offset(x: Seq<char>, k: int) -> nat {
    encode_utf8(x.take(k)).len()
}

/// The UTF-8 encoding of two runs of characters is the encoding of the
/// first followed by that of the second.
pub proof fn lemma_encode_concat(a: Seq<char>, b: Seq<char>)
    ensures
        encode_utf8(a + b) == encode_utf8(a) + encode_utf8(b),
    decreases a.len(),
{
    if a.len() == 0 {
        assert(a + b =~= b);
        assert(encode_utf8(a) =~= Seq::<u8>::empty());
        assert(encode_utf8(a) + encode_utf8(b) =~= encode_utf8(b));
    } else {
        assert((a + b)[0] == a[0]);
        assert((a + b).drop_first() =~= a.drop_first() + b);
        lemma_encode_concat(a.drop_first(), b);
        assert(encode_utf8(a + b) =~= encode_utf8(a) + encode_utf8(b));
    }
}

/// The encoding of one character.
proof fn lemma_encode_one(c: char)
    ensures
        encode_utf8(seq![c]) == encode_scalar(c as u32),
{
    assert(seq![c].drop_first() =~= Seq::<char>::empty());
    assert(encode_utf8(seq![c]) =~= encode_scalar(c as u32) + encode_utf8(Seq::<char>::empty()));
}

/// One character further, the offset grows by that character's width.
pub proof fn lemma_byte_offset_step(x: Seq<char>, k: int)
    requires
        0 <= k < x.len(),
    ensures
        byte_offset(x, k + 1) == byte_offset(x, k) + encode_scalar(x[k] as u32).len(),
{
    assert(x.take(k + 1) =~= x.take(k) + seq![x[k]]);
    lemma_encode_concat(x.take(k), seq![x[k]]);
    lemma_encode_one(x[k]);
}

/// The encoding of `x` splits at the offset of its `k`-th character.
pub proof fn lemma_byte_offset_split(x: Seq<char>, k: int)
    requires
        0 <= k <= x.len(),
    ensures
        encode_utf8(x) == encode_utf8(x.take(k)) + encode_utf8(x.skip(k)),
        byte_offset(x, k) <= encode_utf8(x).len(),
{
    assert(x =~= x.take(k) + x.skip(k));
    lemma_encode_concat(x.take(k), x.skip(k));
}

/// The offset of a character position is a character boundary.
pub proof fn lemma_byte_offset_boundary(x: Seq<char>, k: int)
    requires
        0 <= k <= x.len(),
    ensures
        is_char_boundary(encode_utf8(x), byte_offset(x, k) as int),
    decreases k,
{
    let bytes = encode_utf8(x);
    if k > 0 {
        vstd::utf8::encode_utf8_first_scalar(x);
        let w = encode_scalar(x[0] as u32).len() as int;
        let tail = x.drop_first();
        assert(pop_first_scalar(bytes) =~= encode_utf8(tail));
        assert(x.take(k) =~= seq![x[0]] + tail.take(k - 1));
        lemma_encode_concat(seq![x[0]], tail.take(k - 1));
        lemma_encode_one(x[0]);
        assert(byte_offset(x, k) == w + byte_offset(tail, k - 1));
        lemma_byte_offset_split(x, k);
        lemma_byte_offset_boundary(tail, k - 1);
        assert(length_of_first_scalar(bytes) == w);
    }
}

/// The number of bytes `c` takes in UTF-8.
pub fn utf8_width(c: char) -> (w: usize)
    ensures
        w as nat == encode_scalar(c as u32).len(),
        1 <= w <= 4,
{
    proof { vstd::utf8::char_is_scalar(c); }
    let v = c as u32;
    if v < 0x80 {
        1
    } else if v < 0x800 {
        2
    } else if v < 0x10000 {
        3
    } else {
        4
    }
}

/// The characters of `s` from `from` to `to`, borrowed from `s`; `bfrom`
/// and `bto` are their byte offsets.
pub fn slice_at_offsets<'a>(s: &'a str, from: usize, to: usize, bfrom: usize, bto: usize) -> (r: Cow<'a, str>)
    requires
        from <= to <= s@.len(),
        bfrom == byte_offset(s@, from as int),
        bto == byte_offset(s@, to as int),
    ensures
        r@ == s@.subrange(from as int, to as int),
        r is Borrowed,
{
    let ghost x = s@;
    proof {
        lemma_byte_offset_boundary(x, from as int);
        lemma_byte_offset_split(x, from as int);
    }
    let (_, tail) = s.split_at(bfrom);
    let ghost y = x.skip(from as int);
    proof {
        assert(tail.spec_bytes() =~= encode_utf8(y));
        assert(encode_utf8(tail@) == encode_utf8(y));
        vstd::utf8::encode_utf8_decode_utf8(tail@);
        vstd::utf8::encode_utf8_decode_utf8(y);
        assert(tail@ == y);
        assert(x.take(to as int) =~= x.take(from as int) + y.take(to - from));
        lemma_encode_concat(x.take(from as int), y.take(to - from));
        assert(byte_offset(y, to - from) == bto - bfrom);
        lemma_byte_offset_boundary(y, to - from);
        lemma_byte_offset_split(y, to - from);
    }
    let (mid, _) = tail.split_at(bto - bfrom);
    proof {
        assert(mid.spec_bytes() =~= encode_utf8(y.take(to - from)));
        assert(encode_utf8(mid@) == encode_utf8(y.take(to - from)));
        vstd::utf8::encode_utf8_decode_utf8(mid@);
        vstd::utf8::encode_utf8_decode_utf8(y.take(to - from));
        assert(mid@ == y.take(to - from));
        assert(y.take(to - from) =~= x.subrange(from as int, to as int));
    }
    Cow::Borrowed(mid)
}

} // verus!
