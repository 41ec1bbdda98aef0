//! Text of a source file, addressed by byte offsets.

use vstd::prelude::*;
use vstd::string::StringSliceAdditionalSpecFns;
use vstd::utf8::*;

verus! {

/// The text that the bytes `start..end` of the UTF-8 encoding of `source`
/// hold, where that range lies within the text and cuts no character.
pub open spec fn span_text(source: Seq<char>, start: int, end: int) -> Option<Seq<char>> {
    let bytes = encode_utf8(source);
    if 0 <= start <= end <= bytes.len() && is_char_boundary(bytes, start) && is_char_boundary(
        bytes,
        end,
    ) {
        Some(decode_utf8(bytes.subrange(start, end)))
    } else {
        None
    }
}

/// Two texts with the same encoding are the same text.
pub proof fn lemma_encoding_determines_text(a: Seq<char>, b: Seq<char>)
    requires
        encode_utf8(a) == encode_utf8(b),
    ensures
        a == b,
{
    encode_utf8_decode_utf8(a);
    encode_utf8_decode_utf8(b);
}

/// Whether two strings hold the same text.
pub fn same_text(a: &str, b: &str) -> (same: bool)
    ensures
        same == (a@ == b@),
{
    let x = a.as_bytes();
    let y = b.as_bytes();
    if x.len() != y.len() {
        return false;
    }
    let mut i: usize = 0;
    while i < x.len()
        invariant
            x@ == a.spec_bytes(),
            y@ == b.spec_bytes(),
            x.len() == y.len(),
            i <= x.len(),
            forall|j: int| 0 <= j < i ==> x@[j] == y@[j],
        decreases x.len() - i,
    {
        if x[i] != y[i] {
            return false;
        }
        i = i + 1;
    }
    proof {
        assert(x@ =~= y@);
        lemma_encoding_determines_text(a@, b@);
    }
    true
}

/// A byte offset that is a character boundary of a text is one of each
/// prefix that reaches it and ends at a boundary.
proof fn lemma_boundary_in_prefix(bytes: Seq<u8>, start: int, end: int)
    requires
        valid_utf8(bytes),
        0 <= start <= end <= bytes.len(),
        is_char_boundary(bytes, start),
        is_char_boundary(bytes, end),
    ensures
        valid_utf8(bytes.subrange(0, end)),
        is_char_boundary(bytes.subrange(0, end), start),
{
    let head = bytes.subrange(0, end);
    valid_utf8_split(bytes, end);
    if start == end {
        is_char_boundary_start_end_of_seq(head);
    } else {
        is_char_boundary_iff_not_is_continuation_byte(bytes, start);
        is_char_boundary_iff_not_is_continuation_byte(head, start);
    }
}

/// The part of `source` between the byte offsets `start` and `end`, or
/// nothing where the range leaves the text or cuts a character.
pub fn slice_text(source: &str, start: usize, end: usize) -> (part: Option<&str>)
    ensures
        part matches Some(text) ==> span_text(source@, start as int, end as int) == Some(text@),
        part is None ==> span_text(source@, start as int, end as int) is None,
{
    proof {
        encode_utf8_valid_utf8(source@);
    }
    let length = source.as_bytes().len();
    if start <= end && end <= length && source.is_char_boundary(start) && source.is_char_boundary(
        end,
    ) {
        let ghost bytes = source.spec_bytes();
        proof {
            lemma_boundary_in_prefix(bytes, start as int, end as int);
        }
        let (head, _) = source.split_at(end);
        let (_, text) = head.split_at(start);
        proof {
            assert(head.spec_bytes() == bytes.subrange(0, end as int));
            assert(text.spec_bytes() =~= bytes.subrange(start as int, end as int));
            encode_utf8_decode_utf8(text@);
        }
        Some(text)
    } else {
        None
    }
}

} // verus!
