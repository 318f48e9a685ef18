//! Words as UTF-8: where each character starts, and slices between
//! character boundaries.

use vstd::prelude::*;
use vstd::string::*;
use vstd::utf8::*;

verus! {

/// The byte offset at which the character of index `k` starts; for `k` the
/// number of characters, the length in bytes.
pub open spec fn char_offset(chars: Seq<char>, k: int) -> int {
    encode_utf8(chars.take(k)).len() as int
}

/// The encoding of two sequences joined is the two encodings joined.
pub proof fn lemma_encode_concat(a: Seq<char>, b: Seq<char>)
    ensures
        encode_utf8(a + b) == encode_utf8(a) + encode_utf8(b),
    decreases a.len(),
{
    if a.len() == 0 {
        assert(a + b =~= b);
        assert(encode_utf8(a) + encode_utf8(b) =~= encode_utf8(b));
    } else {
        lemma_encode_concat(a.drop_first(), b);
        assert((a + b).drop_first() =~= a.drop_first() + b);
        assert(encode_utf8(a + b) =~= encode_utf8(a) + encode_utf8(b));
    }
}

/// A character takes between one and four bytes.
pub proof fn lemma_scalar_width(c: char)
    ensures
        1 <= encode_scalar(c as u32).len() <= 4,
{
}

/// A single character is encoded as its scalar.
pub proof fn lemma_encode_single(c: char)
    ensures
        encode_utf8(seq![c]) == encode_scalar(c as u32),
{
    let s = seq![c];
    assert(s.drop_first() =~= Seq::<char>::empty());
    reveal_with_fuel(encode_utf8, 2);
    assert(encode_utf8(s) =~= encode_scalar(c as u32));
}

/// Each character starts where the one before it ends.
pub proof fn lemma_char_offset_step(chars: Seq<char>, k: int)
    requires
        0 <= k < chars.len(),
    ensures
        char_offset(chars, k + 1) == char_offset(chars, k) + encode_scalar(chars[k] as u32).len(),
        char_offset(chars, k) < char_offset(chars, k + 1) <= char_offset(chars, k) + 4,
{
    assert(chars.take(k + 1) =~= chars.take(k) + seq![chars[k]]);
    lemma_encode_concat(chars.take(k), seq![chars[k]]);
    lemma_encode_single(chars[k]);
    lemma_scalar_width(chars[k]);
}

/// The first character starts at 0, and the last one ends with the bytes.
pub proof fn lemma_char_offset_ends(chars: Seq<char>)
    ensures
        char_offset(chars, 0) == 0,
        char_offset(chars, chars.len() as int) == encode_utf8(chars).len(),
{
    assert(chars.take(0) =~= Seq::<char>::empty());
    assert(chars.take(chars.len() as int) =~= chars);
}

/// Later characters start later.
pub proof fn lemma_char_offset_ascends(chars: Seq<char>, j: int, k: int)
    requires
        0 <= j <= k <= chars.len(),
    ensures
        char_offset(chars, j) <= char_offset(chars, k),
        j < k ==> char_offset(chars, j) < char_offset(chars, k),
        char_offset(chars, k) - char_offset(chars, j) >= k - j,
    decreases k - j,
{
    if j < k {
        lemma_char_offset_ascends(chars, j, k - 1);
        lemma_char_offset_step(chars, k - 1);
    }
}

/// No character starts beyond the end of the bytes.
pub proof fn lemma_char_offset_bound(chars: Seq<char>, k: int)
    requires
        0 <= k <= chars.len(),
    ensures
        0 <= char_offset(chars, k) <= encode_utf8(chars).len(),
        k < chars.len() ==> char_offset(chars, k) < encode_utf8(chars).len(),
        k <= char_offset(chars, k),
{
    lemma_char_offset_ends(chars);
    lemma_char_offset_ascends(chars, k, chars.len() as int);
    lemma_char_offset_ascends(chars, 0, k);
}

/// Where two valid encodings are joined, the seam is a character boundary.
pub proof fn lemma_seam_is_boundary(a: Seq<u8>, b: Seq<u8>)
    requires
        valid_utf8(a),
        valid_utf8(b),
    ensures
        is_char_boundary(a + b, a.len() as int),
    decreases a.len(),
{
    valid_utf8_concat(a, b);
    if a.len() > 0 {
        let rest = pop_first_scalar(a);
        assert(rest.len() < a.len());
        assert(pop_first_scalar(a + b) =~= rest + b);
        assert(length_of_first_scalar(a + b) == length_of_first_scalar(a));
        lemma_seam_is_boundary(rest, b);
    }
}

/// The start of each character, and the end of the last, is a character
/// boundary.
pub proof fn lemma_char_offset_is_boundary(chars: Seq<char>, k: int)
    requires
        0 <= k <= chars.len(),
    ensures
        is_char_boundary(encode_utf8(chars), char_offset(chars, k)),
{
    let head = chars.take(k);
    let tail = chars.skip(k);
    assert(chars =~= head + tail);
    lemma_encode_concat(head, tail);
    encode_utf8_valid_utf8(head);
    encode_utf8_valid_utf8(tail);
    lemma_seam_is_boundary(encode_utf8(head), encode_utf8(tail));
}

/// A character boundary is the start of a character, or the end of the last.
pub proof fn lemma_boundary_is_char_offset(chars: Seq<char>, i: int) -> (k: int)
    requires
        0 <= i <= encode_utf8(chars).len(),
        is_char_boundary(encode_utf8(chars), i),
    ensures
        0 <= k <= chars.len(),
        char_offset(chars, k) == i,
{
    let bytes = encode_utf8(chars);
    encode_utf8_valid_utf8(chars);
    valid_utf8_split(bytes, i);
    decode_utf8_split(bytes, i);
    encode_utf8_decode_utf8(chars);
    let head = decode_utf8(bytes.subrange(0, i));
    let tail = decode_utf8(bytes.subrange(i, bytes.len() as int));
    assert(chars =~= head + tail);
    let k = head.len() as int;
    assert(chars.take(k) =~= head);
    decode_utf8_encode_utf8(bytes.subrange(0, i));
    k
}

/// The number of bytes that the character takes.
pub fn utf8_width(c: char) -> (w: usize)
    ensures
        w == encode_scalar(c as u32).len(),
        1 <= w <= 4,
{
    let v = c as u32;
    if v < 0x80 {
        1
    } else if v < 0x800 {
        2
    } else if v < 0x10000 {
        3
    } else {
        4
    }
}

/// Each character of the word with the byte offset at which it starts.
pub fn char_indices(word: &str) -> (r: Vec<(usize, char)>)
    ensures
        r.len() == word@.len(),
        forall|k: int|
            0 <= k < r.len() ==> (#[trigger] r[k]).0 == char_offset(word@, k) && r[k].1 == word@[k],
{
    let mut r: Vec<(usize, char)> = Vec::new();
    let mut at: usize = 0;
    let total = word.as_bytes().len();
    proof {
        lemma_char_offset_ends(word@);
    }
    for c in it: word.chars()
        invariant
            it.seq() == word@,
            total == encode_utf8(word@).len(),
            r.len() == it.index(),
            at == char_offset(word@, it.index() as int),
            forall|k: int|
                0 <= k < r.len() ==> (#[trigger] r[k]).0 == char_offset(word@, k) && r[k].1
                    == word@[k],
    {
        let ghost k = it.index() as int;
        proof {
            lemma_char_offset_step(word@, k);
            lemma_char_offset_bound(word@, k + 1);
        }
        r.push((at, c));
        at = at + utf8_width(c);
    }
    r
}

/// The part of the word between two character boundaries.
pub fn slice(word: &str, from: usize, to: usize) -> (r: &str)
    requires
        from <= to <= word.spec_bytes().len(),
        is_char_boundary(word.spec_bytes(), from as int),
        is_char_boundary(word.spec_bytes(), to as int),
    ensures
        r.spec_bytes() == word.spec_bytes().subrange(from as int, to as int),
{
    let (head, _) = word.split_at(to);
    proof {
        let bytes = word.spec_bytes();
        let first = bytes.subrange(0, to as int);
        encode_utf8_valid_utf8(word@);
        encode_utf8_valid_utf8(head@);
        if from < to {
            assert(first[from as int] == bytes[from as int]);
            is_char_boundary_iff_not_is_continuation_byte(bytes, from as int);
            is_char_boundary_iff_not_is_continuation_byte(first, from as int);
        } else {
            is_char_boundary_start_end_of_seq(first);
        }
    }
    let (_, r) = head.split_at(from);
    assert(head.spec_bytes().subrange(from as int, head.spec_bytes().len() as int)
        =~= word.spec_bytes().subrange(from as int, to as int));
    r
}

} // verus!
