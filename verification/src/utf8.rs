//! Byte positions in UTF-8 text: where a string may be cut, and what the parts
//! hold.

use vstd::prelude::*;
use vstd::string::*;
use vstd::utf8::*;

verus! {

/// Whether `text`, seen as bytes, may be cut at `start` and at `end`, in this
/// order.
pub open spec fn is_cut(bytes: Seq<u8>, start: int, end: int) -> bool {
    &&& 0 <= start <= end <= bytes.len()
    &&& is_char_boundary(bytes, start)
    &&& is_char_boundary(bytes, end)
}

/// The characters of `bytes[start..end]`.
pub open spec fn text_between(bytes: Seq<u8>, start: int, end: int) -> Seq<char> {
    decode_utf8(bytes.subrange(start, end))
}

/// Text may be cut on both sides of an ASCII byte.
pub proof fn lemma_ascii_boundaries(bytes: Seq<u8>, at: int)
    requires
        valid_utf8(bytes),
        0 <= at < bytes.len(),
        bytes[at] < 0x80,
    ensures
        is_char_boundary(bytes, at),
        is_char_boundary(bytes, at + 1),
{
    is_char_boundary_iff_not_is_continuation_byte(bytes, at);
    let rest = bytes.subrange(at, bytes.len() as int);
    valid_utf8_split(bytes, at);
    if at + 1 == bytes.len() {
        is_char_boundary_start_end_of_seq(bytes);
    } else {
        assert(rest[0] == bytes[at]);
        assert(is_leading_byte_width_1(rest[0]));
        let after = pop_first_scalar(rest);
        assert(after =~= bytes.subrange(at + 1, bytes.len() as int));
        assert(valid_utf8(after));
        assert(after[0] == bytes[at + 1]);
        assert(valid_first_scalar(after));
        is_char_boundary_iff_not_is_continuation_byte(bytes, at + 1);
    }
}

/// Text may be cut at its start and at its end.
pub proof fn lemma_end_boundaries(bytes: Seq<u8>)
    requires
        valid_utf8(bytes),
    ensures
        is_char_boundary(bytes, 0),
        is_char_boundary(bytes, bytes.len() as int),
{
    is_char_boundary_start_end_of_seq(bytes);
}

/// What lies between two places where text may be cut is text.
pub proof fn lemma_cut(bytes: Seq<u8>, start: int, end: int)
    requires
        valid_utf8(bytes),
        is_cut(bytes, start, end),
    ensures
        valid_utf8(bytes.subrange(start, end)),
        is_char_boundary(bytes.subrange(0, end), start),
{
    let head = bytes.subrange(0, end);
    valid_utf8_split(bytes, end);
    if start < end {
        is_char_boundary_iff_not_is_continuation_byte(bytes, start);
        is_char_boundary_iff_not_is_continuation_byte(head, start);
    } else {
        is_char_boundary_start_end_of_seq(head);
    }
    valid_utf8_split(head, start);
    assert(head.subrange(start, end) =~= bytes.subrange(start, end));
}

/// The bytes of two texts one after the other.
pub proof fn lemma_encode_concat(left: Seq<char>, right: Seq<char>)
    ensures
        encode_utf8(left + right) == encode_utf8(left) + encode_utf8(right),
    decreases left.len(),
{
    if left.len() == 0 {
        assert(left + right =~= right);
        assert(encode_utf8(left) + encode_utf8(right) =~= encode_utf8(right));
    } else {
        lemma_encode_concat(left.drop_first(), right);
        assert((left + right).drop_first() =~= left.drop_first() + right);
        assert((left + right)[0] == left[0]);
        let first = encode_scalar(left[0] as u32);
        assert(first + (encode_utf8(left.drop_first()) + encode_utf8(right)) =~= (first
            + encode_utf8(left.drop_first())) + encode_utf8(right));
    }
}

/// Texts with the same bytes are the same.
pub proof fn lemma_encode_injective(left: Seq<char>, right: Seq<char>)
    requires
        encode_utf8(left) == encode_utf8(right),
    ensures
        left == right,
{
    encode_utf8_decode_utf8(left);
    encode_utf8_decode_utf8(right);
}

/// The part of `source` between two byte positions.
pub fn cut(source: &str, start: usize, end: usize) -> (part: &str)
    requires
        is_cut(source.spec_bytes(), start as int, end as int),
    ensures
        part.spec_bytes() == source.spec_bytes().subrange(start as int, end as int),
        part@ == text_between(source.spec_bytes(), start as int, end as int),
{
    let ghost bytes = source.spec_bytes();
    proof {
        encode_utf8_valid_utf8(source@);
        lemma_cut(bytes, start as int, end as int);
    }
    let (head, _) = source.split_at(end);
    let (_, part) = head.split_at(start);
    proof {
        assert(bytes.subrange(0, end as int).subrange(start as int, end as int)
            =~= bytes.subrange(start as int, end as int));
        encode_utf8_decode_utf8(part@);
    }
    part
}

/// Whether `piece` stands in `bytes` at `at`.
pub open spec fn holds_at(bytes: Seq<u8>, at: int, piece: Seq<u8>) -> bool {
    &&& 0 <= at
    &&& at + piece.len() <= bytes.len()
    &&& forall|i: int| 0 <= i < piece.len() ==> bytes[at + i] == #[trigger] piece[i]
}

/// Two pieces one behind the other.
pub proof fn lemma_pieces(bytes: Seq<u8>, at: int, first: Seq<u8>, second: Seq<u8>)
    requires
        holds_at(bytes, at, first + second),
    ensures
        holds_at(bytes, at, first),
        holds_at(bytes, at + first.len(), second),
{
    let both = first + second;
    assert forall|i: int| 0 <= i < first.len() implies bytes[at + i] == #[trigger] first[i] by {
        assert(both[i] == first[i]);
    }
    assert forall|i: int| 0 <= i < second.len() implies bytes[at + first.len() + i]
        == #[trigger] second[i] by {
        assert(both[first.len() + i] == second[i]);
    }
}

} // verus!
