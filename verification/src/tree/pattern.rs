//! What a pattern means: how its text splits into pieces, and what each piece
//! consumes of a path.

use crate::boundary::{lemma_occurrence_ends_at_boundary, lemma_occurrence_starts_at_boundary};
use crate::text::{
    first_occurrence, is_first_occurrence, lemma_first_occurrence_none, occurs_at,
};
use vstd::prelude::*;
use vstd::utf8::{
    encode_utf8, encode_utf8_valid_utf8, is_char_boundary, is_char_boundary_start_end_of_seq,
    valid_utf8,
};

verus! {

/// One unit of a compiled pattern.
pub enum Piece {
    /// Text that must stand at the current position.
    Literal(Seq<char>),
    /// Everything up to the first occurrence of a delimiter, which is
    /// consumed too.
    CaptureUntil(Seq<char>),
    /// Everything that is left, at least one byte.
    CaptureToEnd,
}

/// Where a piece leaves off, and the half-open byte range it captured.
pub struct Advance {
    pub next: int,
    pub span: Option<(int, int)>,
}

impl Piece {
    /// What the piece consumes of `path` from byte position `ind`, if it
    /// applies there.
    pub open spec fn step(self, path: Seq<u8>, ind: int) -> Option<Advance> {
        match self {
            Piece::Literal(text) => {
                if occurs_at(path, encode_utf8(text), ind) {
                    Some(Advance { next: ind + encode_utf8(text).len(), span: None })
                } else {
                    None
                }
            },
            Piece::CaptureUntil(delimiter) => {
                match first_occurrence(path, encode_utf8(delimiter), ind) {
                    Some(at) => Some(
                        Advance { next: at + encode_utf8(delimiter).len(), span: Some((ind, at)) },
                    ),
                    None => None,
                }
            },
            Piece::CaptureToEnd => {
                if 0 <= ind < path.len() {
                    Some(Advance { next: path.len() as int, span: Some((ind, path.len() as int)) })
                } else {
                    None
                }
            },
        }
    }
}

/// `ts` with `c` put in front of its first token.
pub open spec fn prepend(c: char, ts: Seq<Seq<char>>) -> Seq<Seq<char>> {
    ts.update(0, seq![c] + ts[0])
}

/// The tokens between the wildcards of a pattern. An asterisk is a wildcard
/// unless a backslash stands directly before it; such a pair is one asterisk
/// of text. Every other character, a lone backslash too, is text.
pub open spec fn tokens(p: Seq<char>) -> Seq<Seq<char>>
    decreases p.len(),
{
    if p.len() == 0 {
        seq![Seq::<char>::empty()]
    } else if p.len() >= 2 && p[0] == '\\' && p[1] == '*' {
        prepend('*', tokens(p.skip(2)))
    } else if p[0] == '*' {
        seq![Seq::<char>::empty()] + tokens(p.skip(1))
    } else {
        prepend(p[0], tokens(p.skip(1)))
    }
}

/// The piece that the token at index `i` becomes: text if it is the first
/// token and not empty, capture-to-end if it is the last and empty, and
/// capture-until otherwise.
pub open spec fn piece_at(ts: Seq<Seq<char>>, i: int) -> Piece {
    if i == 0 && ts[0].len() > 0 {
        Piece::Literal(ts[0])
    } else if i == ts.len() - 1 && ts[i].len() == 0 {
        Piece::CaptureToEnd
    } else {
        Piece::CaptureUntil(ts[i])
    }
}

/// The pieces of a pattern. The empty pattern has none, and a pattern that
/// is one bare wildcard captures everything; any other pattern gives one
/// piece for each of its tokens.
pub open spec fn compile(p: Seq<char>) -> Seq<Piece> {
    if p.len() == 0 {
        Seq::empty()
    } else if p == seq!['*'] {
        seq![Piece::CaptureToEnd]
    } else {
        Seq::new(tokens(p).len(), |i: int| piece_at(tokens(p), i))
    }
}

/// A pattern always has at least one token.
pub proof fn lemma_tokens_nonempty(p: Seq<char>)
    ensures
        tokens(p).len() >= 1,
    decreases p.len(),
{
    if p.len() == 0 {
    } else if p.len() >= 2 && p[0] == '\\' && p[1] == '*' {
        lemma_tokens_nonempty(p.skip(2));
    } else {
        lemma_tokens_nonempty(p.skip(1));
    }
}

/// A byte range of `path` that can be cut out of it as text.
pub open spec fn is_text_range(path: Seq<u8>, span: (int, int)) -> bool {
    &&& 0 <= span.0 <= span.1 <= path.len()
    &&& is_char_boundary(path, span.0)
    &&& is_char_boundary(path, span.1)
}

/// A piece moves forward within the path, and what it captures starts where
/// it was applied and ends before what it consumed of a delimiter.
pub proof fn lemma_step_in_bounds(piece: Piece, path: Seq<u8>, ind: int)
    requires
        0 <= ind,
    ensures
        piece.step(path, ind) matches Some(adv) ==> {
            &&& ind <= adv.next <= path.len()
            &&& adv.span matches Some(span) ==> span.0 == ind && ind <= span.1 <= adv.next
        },
{
    if let Piece::CaptureUntil(delimiter) = piece {
        let needle = encode_utf8(delimiter);
        if let Some(at) = first_occurrence(path, needle, ind) {
            assert(is_first_occurrence(path, needle, ind, at));
        }
    }
}

/// Applied at a character boundary of a path that is text, a piece leaves
/// off at a character boundary, and what it captures is text.
pub proof fn lemma_step_keeps_boundaries(piece: Piece, path: Seq<u8>, ind: int)
    requires
        valid_utf8(path),
        0 <= ind,
        is_char_boundary(path, ind),
    ensures
        piece.step(path, ind) matches Some(adv) ==> {
            &&& is_char_boundary(path, adv.next)
            &&& adv.span matches Some(span) ==> is_text_range(path, span)
        },
{
    lemma_step_in_bounds(piece, path, ind);
    match piece {
        Piece::Literal(text) => {
            let needle = encode_utf8(text);
            encode_utf8_valid_utf8(text);
            if occurs_at(path, needle, ind) {
                lemma_occurrence_ends_at_boundary(path, needle, ind);
            }
        },
        Piece::CaptureUntil(delimiter) => {
            let needle = encode_utf8(delimiter);
            encode_utf8_valid_utf8(delimiter);
            if let Some(at) = first_occurrence(path, needle, ind) {
                assert(is_first_occurrence(path, needle, ind, at));
                if needle.len() > 0 {
                    lemma_occurrence_starts_at_boundary(path, needle, at);
                } else if ind < at {
                    assert(path.subrange(ind, ind + needle.len()) =~= needle);
                    assert(occurs_at(path, needle, ind));
                }
                lemma_occurrence_ends_at_boundary(path, needle, at);
            }
        },
        Piece::CaptureToEnd => {
            is_char_boundary_start_end_of_seq(path);
        },
    }
}

/// A capture that runs up to a delimiter fails exactly where the delimiter
/// does not occur in what is left of the path.
pub proof fn lemma_capture_until_needs_delimiter(delimiter: Seq<char>, path: Seq<u8>, ind: int)
    ensures
        Piece::CaptureUntil(delimiter).step(path, ind) is None <==> forall|at: int|
            ind <= at ==> !occurs_at(path, encode_utf8(delimiter), at),
{
    lemma_first_occurrence_none(path, encode_utf8(delimiter), ind);
}

/// A capture to the end fails exactly where nothing is left of the path.
pub proof fn lemma_capture_to_end_needs_text(path: Seq<u8>, ind: int)
    requires
        0 <= ind,
    ensures
        Piece::CaptureToEnd.step(path, ind) is None <==> ind >= path.len(),
{
}

/// The text written as a pattern: a backslash is put before each asterisk.
pub open spec fn escape(text: Seq<char>) -> Seq<char>
    decreases text.len(),
{
    if text.len() == 0 {
        Seq::empty()
    } else if text[0] == '*' {
        seq!['\\', '*'] + escape(text.skip(1))
    } else {
        seq![text[0]] + escape(text.skip(1))
    }
}

/// Escaped text does not begin with an asterisk.
pub proof fn lemma_escape_head(text: Seq<char>)
    ensures
        escape(text).len() >= text.len(),
        text.len() > 0 ==> escape(text)[0] != '*',
    decreases text.len(),
{
    if text.len() > 0 {
        lemma_escape_head(text.skip(1));
    }
}

/// Escaped text is one token: the text itself.
pub proof fn lemma_tokens_of_escape(text: Seq<char>)
    ensures
        tokens(escape(text)) == seq![text],
    decreases text.len(),
{
    if text.len() == 0 {
        assert(text =~= Seq::<char>::empty());
        assert(tokens(escape(text)) =~= seq![text]);
    } else {
        let rest = text.skip(1);
        let p = escape(text);
        lemma_tokens_of_escape(rest);
        lemma_escape_head(rest);
        if text[0] == '*' {
            assert(p.skip(2) =~= escape(rest));
            assert(seq!['*'] + rest =~= text);
            assert(prepend('*', seq![rest]) =~= seq![text]);
        } else {
            assert(p.skip(1) =~= escape(rest));
            assert(seq![text[0]] + rest =~= text);
            assert(prepend(text[0], seq![rest]) =~= seq![text]);
        }
    }
}

/// Compiling is the inverse of escaping: text that is not empty, written as
/// a pattern, compiles to that text as its one piece.
pub proof fn lemma_escape_round_trip(text: Seq<char>)
    requires
        text.len() > 0,
    ensures
        compile(escape(text)) == seq![Piece::Literal(text)],
{
    lemma_tokens_of_escape(text);
    lemma_escape_head(text);
    assert(compile(escape(text)) =~= seq![Piece::Literal(text)]);
}

/// Text without an asterisk needs no escaping.
pub proof fn lemma_escape_plain(text: Seq<char>)
    requires
        forall|i: int| 0 <= i < text.len() ==> text[i] != '*',
    ensures
        escape(text) == text,
    decreases text.len(),
{
    if text.len() > 0 {
        lemma_escape_plain(text.skip(1));
        assert(seq![text[0]] + text.skip(1) =~= text);
    }
}

/// A pattern without an asterisk, if it is not empty, compiles to itself as
/// its one piece.
pub proof fn lemma_compile_plain(p: Seq<char>)
    requires
        p.len() > 0,
        forall|i: int| 0 <= i < p.len() ==> p[i] != '*',
    ensures
        compile(p) == seq![Piece::Literal(p)],
{
    lemma_escape_plain(p);
    lemma_escape_round_trip(p);
}

/// A pattern that is not empty has at least one piece.
pub proof fn lemma_compile_nonempty(p: Seq<char>)
    ensures
        compile(p).len() == 0 <==> p.len() == 0,
{
    lemma_tokens_nonempty(p);
}

} // verus!
