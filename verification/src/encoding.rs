//! How the characters of a text lie in its UTF-8 encoding: what is needed to
//! cut a string slice at a character position.

use vstd::prelude::*;
use vstd::utf8::{
    char_is_scalar, encode_scalar, encode_utf8, encode_utf8_first_scalar, encode_utf8_valid_utf8,
    is_char_boundary, pop_first_scalar,
};

verus! {

/// The number of bytes that the encoding of `c` takes.
pub fn encoded_len(c: char) -> (n: usize)
    ensures
        n == encode_scalar(c as u32).len(),
        1 <= n <= 4,
{
    let code = c as u32;
    proof {
        char_is_scalar(c);
    }
    if code < 0x80 {
        1
    } else if code < 0x800 {
        2
    } else if code < 0x10000 {
        3
    } else {
        4
    }
}

/// A text has no more characters than its encoding has bytes.
pub proof fn lemma_encoding_is_no_shorter(chars: Seq<char>)
    ensures
        chars.len() <= encode_utf8(chars).len(),
    decreases chars.len(),
{
    if chars.len() > 0 {
        lemma_encoding_is_no_shorter(chars.drop_first());
    }
}

/// Cutting a text behind its first `k` characters cuts its encoding at a
/// character boundary, into the encodings of the two parts.
pub proof fn lemma_encoding_splits(chars: Seq<char>, k: int)
    requires
        0 <= k <= chars.len(),
    ensures
        ({
            let bytes = encode_utf8(chars);
            let mid = encode_utf8(chars.take(k)).len() as int;
            &&& mid <= bytes.len()
            &&& is_char_boundary(bytes, mid)
            &&& bytes.subrange(0, mid) == encode_utf8(chars.take(k))
            &&& bytes.subrange(mid, bytes.len() as int) == encode_utf8(chars.skip(k))
        }),
    decreases k,
{
    let bytes = encode_utf8(chars);
    encode_utf8_valid_utf8(chars);
    if k == 0 {
        assert(chars.take(0) =~= Seq::<char>::empty());
        assert(chars.skip(0) =~= chars);
        assert(bytes.subrange(0, 0) =~= encode_utf8(chars.take(0)));
        assert(bytes.subrange(0, bytes.len() as int) =~= bytes);
    } else {
        let rest = chars.drop_first();
        let head = encode_scalar(chars[0] as u32);
        let front = encode_utf8(rest.take(k - 1));
        lemma_encoding_splits(rest, k - 1);
        encode_utf8_first_scalar(chars);
        assert(pop_first_scalar(bytes) =~= encode_utf8(rest));
        assert(chars.take(k).drop_first() =~= rest.take(k - 1));
        assert(rest.skip(k - 1) =~= chars.skip(k));
        assert(encode_utf8(chars.take(k)) =~= head + front);
        let mid = (head.len() + front.len()) as int;
        assert(bytes.subrange(0, mid) =~= head + encode_utf8(rest).subrange(
            0,
            front.len() as int,
        ));
        assert(bytes.subrange(mid, bytes.len() as int) =~= encode_utf8(rest).subrange(
            front.len() as int,
            encode_utf8(rest).len() as int,
        ));
    }
}

} // verus!
