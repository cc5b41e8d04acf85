//! Character boundaries under byte search.
//!
//! A path is searched as bytes, but what is captured is handed out as text.
//! Text that is found in text starts and ends between two characters, so
//! the ranges that a match yields can be cut out of the path.

use crate::text::occurs_at;
use vstd::prelude::*;
use vstd::utf8::{
    is_char_boundary, is_char_boundary_iff_not_is_continuation_byte,
    is_char_boundary_start_end_of_seq, is_continuation_byte, length_of_first_scalar,
    pop_first_scalar, valid_utf8, valid_utf8_split,
};

verus! {

/// Text that begins with other text has a character boundary where that
/// text ends.
pub proof fn lemma_prefix_end_is_boundary(s: Seq<u8>, n: Seq<u8>)
    requires
        valid_utf8(s),
        valid_utf8(n),
        occurs_at(s, n, 0),
    ensures
        is_char_boundary(s, n.len() as int),
    decreases n.len(),
{
    if n.len() > 0 {
        assert(s.subrange(0, n.len() as int)[0] == s[0]);
        let width = length_of_first_scalar(s);
        assert(width == length_of_first_scalar(n));
        assert forall|k: int| 0 <= k < width implies s[k] == n[k] by {
            assert(s.subrange(0, n.len() as int)[k] == s[k]);
        }
        let rest = pop_first_scalar(s);
        let tail = pop_first_scalar(n);
        assert(rest.subrange(0, tail.len() as int) =~= tail) by {
            assert forall|k: int| 0 <= k < tail.len() implies rest[k] == tail[k] by {
                assert(s.subrange(0, n.len() as int)[k + width] == s[k + width]);
            }
        }
        lemma_prefix_end_is_boundary(rest, tail);
    }
}

/// A character boundary of what follows a boundary is a boundary of the
/// whole.
pub proof fn lemma_boundary_of_suffix(h: Seq<u8>, from: int, k: int)
    requires
        valid_utf8(h),
        0 <= from <= h.len(),
        is_char_boundary(h, from),
        0 <= k <= h.len() - from,
        is_char_boundary(h.subrange(from, h.len() as int), k),
    ensures
        is_char_boundary(h, from + k),
{
    let suffix = h.subrange(from, h.len() as int);
    valid_utf8_split(h, from);
    if from + k == h.len() {
        is_char_boundary_start_end_of_seq(h);
    } else {
        is_char_boundary_iff_not_is_continuation_byte(suffix, k);
        assert(suffix[k] == h[from + k]);
        is_char_boundary_iff_not_is_continuation_byte(h, from + k);
    }
}

/// Text that is not empty starts at a character boundary wherever it
/// occurs.
pub proof fn lemma_occurrence_starts_at_boundary(h: Seq<u8>, n: Seq<u8>, at: int)
    requires
        valid_utf8(h),
        valid_utf8(n),
        n.len() > 0,
        occurs_at(h, n, at),
    ensures
        is_char_boundary(h, at),
{
    is_char_boundary_iff_not_is_continuation_byte(n, 0);
    assert(h.subrange(at, at + n.len())[0] == h[at]);
    is_char_boundary_iff_not_is_continuation_byte(h, at);
}

/// Text that occurs at a character boundary ends at one.
pub proof fn lemma_occurrence_ends_at_boundary(h: Seq<u8>, n: Seq<u8>, at: int)
    requires
        valid_utf8(h),
        valid_utf8(n),
        is_char_boundary(h, at),
        occurs_at(h, n, at),
    ensures
        is_char_boundary(h, at + n.len()),
{
    let suffix = h.subrange(at, h.len() as int);
    valid_utf8_split(h, at);
    assert(suffix.subrange(0, n.len() as int) =~= h.subrange(at, at + n.len()));
    lemma_prefix_end_is_boundary(suffix, n);
    lemma_boundary_of_suffix(h, at, n.len() as int);
}

/// A character boundary of text is one of each beginning of the text that
/// reaches it and ends at a boundary.
pub proof fn lemma_boundary_of_prefix(h: Seq<u8>, end: int, k: int)
    requires
        valid_utf8(h),
        0 <= k <= end <= h.len(),
        is_char_boundary(h, end),
        is_char_boundary(h, k),
    ensures
        is_char_boundary(h.subrange(0, end), k),
{
    let prefix = h.subrange(0, end);
    valid_utf8_split(h, end);
    if k == end {
        is_char_boundary_start_end_of_seq(prefix);
    } else {
        is_char_boundary_iff_not_is_continuation_byte(h, k);
        assert(prefix[k] == h[k]);
        is_char_boundary_iff_not_is_continuation_byte(prefix, k);
    }
}

/// A byte below 128 stands for one character: where it occurs, a character
/// starts, and the next one starts right behind it.
pub proof fn lemma_ascii_byte_is_character(h: Seq<u8>, byte: u8, at: int)
    requires
        valid_utf8(h),
        byte < 128,
        occurs_at(h, seq![byte], at),
    ensures
        is_char_boundary(h, at),
        is_char_boundary(h, at + 1),
{
    assert(h.subrange(at, at + 1)[0] == h[at]);
    is_char_boundary_iff_not_is_continuation_byte(h, at);
    if at + 1 == h.len() {
        is_char_boundary_start_end_of_seq(h);
    } else {
        let suffix = h.subrange(at, h.len() as int);
        valid_utf8_split(h, at);
        assert(suffix[0] == h[at]);
        assert(pop_first_scalar(suffix) =~= h.subrange(at + 1, h.len() as int));
        assert(is_char_boundary(suffix, 1)) by {
            reveal_with_fuel(is_char_boundary, 2);
        }
        lemma_boundary_of_suffix(h, at, 1);
    }
}

} // verus!
