//! Scalar positions and byte offsets.
//!
//! The matcher walks input strings scalar by scalar, but reported offsets
//! are byte positions into the UTF-8 encoding.  This module converts
//! between the two: the byte offset of a scalar position is the encoded
//! length of the prefix before it, and every such offset is a character
//! boundary of the encoded string.

use vstd::prelude::*;
use vstd::utf8::*;
use vstd::string::StringSliceAdditionalSpecFns;

verus! {

/// The byte offset of scalar position `k`: the encoded length of the
/// first `k` scalars.
pub open spec fn byte_of(s: Seq<char>, k: int) -> int {
    encode_utf8(s.take(k)).len() as int
}

/// Encoding a concatenation encodes the parts in order.
pub proof fn lemma_encode_concat(a: Seq<char>, b: Seq<char>)
    ensures
        encode_utf8(a + b) == encode_utf8(a) + encode_utf8(b),
    decreases a.len(),
{
    if a.len() == 0 {
        assert(a + b =~= b);
        assert(encode_utf8(a) + encode_utf8(b) =~= encode_utf8(b));
    } else {
        lemma_encode_concat(a.drop_first(), b);
        assert((a + b).drop_first() =~= a.drop_first() + b);
        assert((a + b)[0] == a[0]);
        assert(encode_utf8(a + b) == encode_scalar(a[0] as u32) + (encode_utf8(a.drop_first())
            + encode_utf8(b)));
        assert(encode_scalar(a[0] as u32) + (encode_utf8(a.drop_first()) + encode_utf8(b)) =~= (
        encode_scalar(a[0] as u32) + encode_utf8(a.drop_first())) + encode_utf8(b));
    }
}

/// Encoding one scalar is that scalar's encoding.
pub proof fn lemma_encode_one(c: char)
    ensures
        encode_utf8(seq![c]) == encode_scalar(c as u32),
{
    assert(seq![c].len() == 1 && seq![c][0] == c);
    assert(seq![c].drop_first() =~= Seq::<char>::empty());
    assert(encode_utf8(Seq::<char>::empty()) =~= Seq::<u8>::empty());
    assert(encode_utf8(seq![c]) =~= encode_scalar(c as u32));
}

/// Every scalar encodes to at least one byte and at most four.
pub proof fn lemma_scalar_width(c: char)
    ensures
        1 <= encode_scalar(c as u32).len() <= 4,
{
    char_is_scalar(c);
}

/// The byte offset of the next position advances by the width of the
/// scalar at the current one.
pub proof fn lemma_byte_of_succ(s: Seq<char>, k: int)
    requires
        0 <= k < s.len(),
    ensures
        byte_of(s, k + 1) == byte_of(s, k) + encode_scalar(s[k] as u32).len(),
{
    assert(s.take(k + 1) =~= s.take(k) + seq![s[k]]);
    lemma_encode_concat(s.take(k), seq![s[k]]);
    assert(encode_utf8(seq![s[k]]) == encode_scalar(s[k] as u32) + encode_utf8(
        seq![s[k]].drop_first(),
    ));
    assert(seq![s[k]].drop_first() =~= Seq::<char>::empty());
    assert(encode_scalar(s[k] as u32) + encode_utf8(Seq::<char>::empty()) =~= encode_scalar(
        s[k] as u32,
    ));
}

/// Byte offsets are monotone, bounded by the whole encoding, and strictly
/// increase from one scalar position to the next.
pub proof fn lemma_byte_of_bounds(s: Seq<char>, k: int)
    requires
        0 <= k <= s.len(),
    ensures
        0 <= byte_of(s, k) <= encode_utf8(s).len(),
        byte_of(s, 0) == 0,
        k == s.len() ==> byte_of(s, k) == encode_utf8(s).len(),
{
    assert(s.take(0) =~= Seq::<char>::empty());
    assert(s.take(s.len() as int) =~= s);
    assert(s =~= s.take(k) + s.skip(k));
    lemma_encode_concat(s.take(k), s.skip(k));
}

/// The bytes between two scalar positions are the encoding of the
/// scalars between them.
pub proof fn lemma_encode_slice(s: Seq<char>, i: int, j: int)
    requires
        0 <= i <= j <= s.len(),
    ensures
        encode_utf8(s).subrange(byte_of(s, i), byte_of(s, j)) == encode_utf8(s.subrange(i, j)),
{
    assert(s =~= s.take(j) + s.skip(j));
    lemma_encode_concat(s.take(j), s.skip(j));
    assert(s.take(j) =~= s.take(i) + s.subrange(i, j));
    lemma_encode_concat(s.take(i), s.subrange(i, j));
    lemma_byte_of_bounds(s, i);
    lemma_byte_of_bounds(s, j);
    assert(byte_of(s, j) == byte_of(s, i) + encode_utf8(s.subrange(i, j)).len());
    assert(encode_utf8(s).subrange(byte_of(s, i), byte_of(s, j)) =~= encode_utf8(
        s.subrange(i, j),
    ));
}

/// Every scalar position's byte offset is a character boundary of the
/// encoding.
pub proof fn lemma_byte_of_boundary(s: Seq<char>, k: int)
    requires
        0 <= k <= s.len(),
    ensures
        is_char_boundary(encode_utf8(s), byte_of(s, k)),
    decreases k,
{
    broadcast use encode_utf8_valid_utf8;

    if k == 0 {
        assert(s.take(0) =~= Seq::<char>::empty());
        assert(byte_of(s, 0) == 0);
    } else {
        let bytes = encode_utf8(s);
        assert(s.len() > 0);
        encode_utf8_first_scalar(s);
        assert(length_of_first_scalar(bytes) == encode_scalar(s[0] as u32).len());
        assert(pop_first_scalar(bytes) =~= encode_utf8(s.drop_first())) by {
            assert(s =~= seq![s[0]] + s.drop_first());
            lemma_encode_concat(seq![s[0]], s.drop_first());
            lemma_encode_one(s[0]);
            assert(bytes =~= encode_scalar(s[0] as u32) + encode_utf8(s.drop_first()));
        }
        lemma_byte_of_boundary(s.drop_first(), k - 1);
        assert(byte_of(s.drop_first(), k - 1) == byte_of(s, k) - length_of_first_scalar(
            bytes,
        )) by {
            assert(s.take(k) =~= seq![s[0]] + s.drop_first().take(k - 1));
            lemma_encode_concat(seq![s[0]], s.drop_first().take(k - 1));
            lemma_encode_one(s[0]);
        }
        lemma_scalar_width(s[0]);
        lemma_byte_of_bounds(s, k);
        assert(byte_of(s, k) >= length_of_first_scalar(bytes)) by {
            assert(byte_of(s, 1) == encode_scalar(s[0] as u32).len()) by {
                lemma_byte_of_succ(s, 0);
                assert(s.take(0) =~= Seq::<char>::empty());
            }
            lemma_byte_of_mono(s, 1, k);
        }
    }
}

/// Byte offsets are monotone in the scalar position.
pub proof fn lemma_byte_of_mono(s: Seq<char>, k1: int, k2: int)
    requires
        0 <= k1 <= k2 <= s.len(),
    ensures
        byte_of(s, k1) <= byte_of(s, k2),
        k1 < k2 ==> byte_of(s, k1) < byte_of(s, k2),
    decreases k2 - k1,
{
    if k1 < k2 {
        lemma_byte_of_succ(s, k1);
        lemma_scalar_width(s[k1]);
        lemma_byte_of_mono(s, k1 + 1, k2);
    }
}

/// Every character boundary of the encoding is the byte offset of some
/// scalar position.
pub proof fn lemma_boundary_is_byte_of(s: Seq<char>, b: int)
    requires
        is_char_boundary(encode_utf8(s), b),
    ensures
        exists|k: int| 0 <= k <= s.len() && byte_of(s, k) == b,
    decreases s.len(),
{
    broadcast use encode_utf8_valid_utf8;

    let bytes = encode_utf8(s);
    if b == 0 {
        assert(s.take(0) =~= Seq::<char>::empty());
        assert(byte_of(s, 0) == b);
    } else {
        assert(s.len() > 0) by {
            if s.len() == 0 {
                assert(bytes =~= Seq::<u8>::empty());
            }
        }
        encode_utf8_first_scalar(s);
        assert(pop_first_scalar(bytes) =~= encode_utf8(s.drop_first())) by {
            assert(s =~= seq![s[0]] + s.drop_first());
            lemma_encode_concat(seq![s[0]], s.drop_first());
            lemma_encode_one(s[0]);
            assert(bytes =~= encode_scalar(s[0] as u32) + encode_utf8(s.drop_first()));
        }
        let w = length_of_first_scalar(bytes);
        assert(is_char_boundary(encode_utf8(s.drop_first()), b - w));
        lemma_boundary_is_byte_of(s.drop_first(), b - w);
        let k = choose|k: int|
            0 <= k <= s.drop_first().len() && byte_of(s.drop_first(), k) == b - w;
        assert(byte_of(s, k + 1) == b) by {
            assert(s.take(k + 1) =~= seq![s[0]] + s.drop_first().take(k));
            lemma_encode_concat(seq![s[0]], s.drop_first().take(k));
            lemma_encode_one(s[0]);
        }
    }
}

/// The width in bytes of one scalar's UTF-8 encoding.
pub fn char_width(c: char) -> (r: usize)
    ensures
        r as int == encode_scalar(c as u32).len(),
        1 <= r <= 4,
{
    proof {
        char_is_scalar(c);
    }
    let u = c as u32;
    if u < 0x80 {
        1
    } else if u < 0x800 {
        2
    } else if u < 0x10000 {
        3
    } else {
        4
    }
}

/// The scalars of a string, in order.
pub fn scalars_of(s: &str) -> (r: Vec<char>)
    ensures
        r@ == s@,
{
    let n = s.unicode_len();
    let mut r: Vec<char> = Vec::new();
    let mut i: usize = 0;
    proof {
        assert(r@ =~= s@.take(0));
    }
    while i < n
        invariant
            n == s@.len(),
            i <= n,
            r@ == s@.take(i as int),
        decreases n - i,
    {
        let c = s.get_char(i);
        r.push(c);
        proof {
            assert(s@.take(i as int).push(s@[i as int]) =~= s@.take(i as int + 1));
        }
        i = i + 1;
    }
    proof {
        assert(s@.take(s@.len() as int) =~= s@);
    }
    r
}

/// The byte offset of every scalar position of a string, ending with the
/// string's byte length.
pub fn offsets_of(s: &str) -> (r: Vec<usize>)
    ensures
        r@.len() == s@.len() + 1,
        forall|k: int| 0 <= k <= s@.len() ==> (#[trigger] r@[k]) as int == byte_of(s@, k),
{
    let n = s.unicode_len();
    let total = s.as_bytes().len();
    proof {
        assert(total as int == encode_utf8(s@).len());
    }
    let mut r: Vec<usize> = Vec::new();
    let mut acc: usize = 0;
    r.push(0);
    proof {
        assert(s@.take(0) =~= Seq::<char>::empty());
        assert(r@[0] == 0usize);
    }
    let mut i: usize = 0;
    while i < n
        invariant
            n == s@.len(),
            total as int == encode_utf8(s@).len(),
            i <= n,
            r@.len() == i + 1,
            acc as int == byte_of(s@, i as int),
            forall|k: int| 0 <= k <= i ==> (#[trigger] r@[k]) as int == byte_of(s@, k),
        decreases n - i,
    {
        let c = s.get_char(i);
        let w = char_width(c);
        proof {
            lemma_byte_of_succ(s@, i as int);
            lemma_byte_of_bounds(s@, i as int + 1);
            assert(acc + w <= total);
        }
        acc = acc + w;
        r.push(acc);
        i = i + 1;
    }
    r
}

/// The substring between two byte offsets lying on character boundaries.
pub fn slice_str<'a>(s: &'a str, bstart: usize, bend: usize) -> (r: &'a str)
    requires
        bstart <= bend <= s.spec_bytes().len(),
        is_char_boundary(s.spec_bytes(), bstart as int),
        is_char_boundary(s.spec_bytes(), bend as int),
    ensures
        r.spec_bytes() == s.spec_bytes().subrange(bstart as int, bend as int),
{
    let (pre, _) = s.split_at(bend);
    proof {
        broadcast use vstd::string::group_string_axioms;

        let bytes = s.spec_bytes();
        assert(valid_utf8(bytes)) by {
            broadcast use encode_utf8_valid_utf8;

        }
        valid_utf8_split(bytes, bend as int);
        let prebytes = bytes.subrange(0, bend as int);
        assert(pre.spec_bytes() =~= prebytes);
        if bstart == bend {
            is_char_boundary_start_end_of_seq(prebytes);
        } else {
            is_char_boundary_iff_not_is_continuation_byte(bytes, bstart as int);
            is_char_boundary_iff_not_is_continuation_byte(prebytes, bstart as int);
            assert(prebytes[bstart as int] == bytes[bstart as int]);
        }
        assert(is_char_boundary(pre.spec_bytes(), bstart as int));
    }
    let (_, mid) = pre.split_at(bstart);
    proof {
        assert(mid.spec_bytes() =~= s.spec_bytes().subrange(bstart as int, bend as int));
    }
    mid
}

} // verus!
