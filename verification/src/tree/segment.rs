//! Segments: the executable form of a pattern's pieces.

use crate::text::{find_from, matches_at};
use crate::tree::pattern::{
    compile, lemma_tokens_nonempty, piece_at, prepend, tokens, Advance, Piece,
};
use vstd::prelude::*;
use vstd::std_specs::cmp::PartialEqSpecImpl;
use vstd::std_specs::iter::IteratorSpec;
use vstd::string::{StrSliceExecFns, StringSliceAdditionalSpecFns};

verus! {

/// One unit of a compiled pattern.
#[derive(Debug)]
pub enum Segment {
    /// Text that must stand at the current position.
    Static(String),
    /// A capture that runs up to the first occurrence of the delimiter.
    Until(String),
    /// A capture that takes all that is left of the path.
    UntilEnd,
}

impl View for Segment {
    type V = Piece;

    open spec fn view(&self) -> Piece {
        match self {
            Segment::Static(text) => Piece::Literal(text@),
            Segment::Until(delimiter) => Piece::CaptureUntil(delimiter@),
            Segment::UntilEnd => Piece::CaptureToEnd,
        }
    }
}

impl PartialEq for Segment {
    fn eq(&self, other: &Segment) -> (same: bool) {
        match (self, other) {
            (Segment::Static(a), Segment::Static(b)) => *a == *b,
            (Segment::Until(a), Segment::Until(b)) => *a == *b,
            (Segment::UntilEnd, Segment::UntilEnd) => true,
            _ => false,
        }
    }
}

impl PartialEqSpecImpl for Segment {
    open spec fn obeys_eq_spec() -> bool {
        true
    }

    open spec fn eq_spec(&self, other: &Segment) -> bool {
        self@ == other@
    }
}

impl Eq for Segment {

}

/// The result of `Segment::check` in positions of the model.
pub open spec fn advance_of(r: Option<(usize, Option<(usize, usize)>)>) -> Option<Advance> {
    match r {
        Some((next, Some((start, end)))) => Some(
            Advance { next: next as int, span: Some((start as int, end as int)) },
        ),
        Some((next, None)) => Some(Advance { next: next as int, span: None }),
        None => None,
    }
}

/// The piece of a token that a wildcard follows.
spec fn inner_piece(token: Seq<char>, i: int) -> Piece {
    if i == 0 && token.len() > 0 {
        Piece::Literal(token)
    } else {
        Piece::CaptureUntil(token)
    }
}

/// The piece of the token that ends the pattern.
spec fn final_piece(token: Seq<char>, i: int) -> Piece {
    if i == 0 && token.len() > 0 {
        Piece::Literal(token)
    } else if token.len() == 0 {
        Piece::CaptureToEnd
    } else {
        Piece::CaptureUntil(token)
    }
}

/// The token list of a pattern of which a front part has been read: `done`
/// holds the tokens that are complete, `cur` the text of the token that is
/// being read, and `ts` the tokens of what is still to be read.
spec fn glue(done: Seq<Seq<char>>, cur: Seq<char>, ts: Seq<Seq<char>>) -> Seq<Seq<char>> {
    done + seq![cur + ts[0]] + ts.skip(1)
}

proof fn lemma_glue_prepend(done: Seq<Seq<char>>, cur: Seq<char>, c: char, ts: Seq<Seq<char>>)
    requires
        ts.len() >= 1,
    ensures
        glue(done, cur, prepend(c, ts)) == glue(done, cur.push(c), ts),
{
    assert(cur + (seq![c] + ts[0]) =~= cur.push(c) + ts[0]);
    assert(prepend(c, ts).skip(1) =~= ts.skip(1));
}

proof fn lemma_glue_split(done: Seq<Seq<char>>, cur: Seq<char>, ts: Seq<Seq<char>>)
    requires
        ts.len() >= 1,
    ensures
        glue(done, cur, seq![Seq::<char>::empty()] + ts) == glue(
            done.push(cur),
            Seq::<char>::empty(),
            ts,
        ),
{
    assert(cur + Seq::<char>::empty() =~= cur);
    assert(Seq::<char>::empty() + ts[0] =~= ts[0]);
    assert((seq![Seq::<char>::empty()] + ts).skip(1) =~= ts);
    assert(glue(done, cur, seq![Seq::<char>::empty()] + ts) =~= glue(
        done.push(cur),
        Seq::<char>::empty(),
        ts,
    ));
}

proof fn lemma_glue_end(done: Seq<Seq<char>>, cur: Seq<char>)
    ensures
        glue(done, cur, tokens(Seq::<char>::empty())) == done.push(cur),
{
    assert(cur + Seq::<char>::empty() =~= cur);
    assert(glue(done, cur, tokens(Seq::<char>::empty())) =~= done.push(cur));
}

/// `String::push` appends the character to the end of the string.
pub assume_specification[ String::push ](s: &mut String, c: char)
    ensures
        final(s)@ == old(s)@.push(c),
;

/// The pieces that a list of segments stands for.
pub open spec fn pieces_of(segments: Seq<Segment>) -> Seq<Piece> {
    Seq::new(segments.len(), |i: int| segments[i]@)
}

impl Segment {
    /// Compiles a pattern into its segments.
    pub fn parse(x: &str) -> (out: Vec<Segment>)
        ensures
            out@.len() == compile(x@).len(),
            pieces_of(out@) == compile(x@),
    {
        let mut out: Vec<Segment> = Vec::new();
        if x.is_empty() {
            assert(pieces_of(out@) =~= compile(x@));
            return out;
        }
        if x.unicode_len() == 1 && x.get_char(0) == '*' {
            out.push(Segment::UntilEnd);
            assert(x@ =~= seq!['*']);
            assert(pieces_of(out@) =~= compile(x@));
            return out;
        }
        let ghost p = x@;
        let ghost mut done: Seq<Seq<char>> = Seq::empty();
        let mut cur = String::new();
        let mut pending = false;
        proof {
            lemma_tokens_nonempty(p);
            assert(p.skip(0) =~= p);
            assert(Seq::<char>::empty() + tokens(p)[0] =~= tokens(p)[0]);
            assert(glue(done, cur@, tokens(p)) =~= tokens(p));
        }
        for c in it: x.chars()
            invariant
                p == x@,
                it.seq() == p,
                pending ==> it.index() >= 1 && p[it.index() - 1] == '\\',
                tokens(p) == glue(
                    done,
                    cur@,
                    tokens(p.skip(if pending { it.index() - 1 } else { it.index() as int })),
                ),
                out.len() == done.len(),
                forall|k: int| 0 <= k < out.len() ==> out[k]@ == inner_piece(done[k], k),
        {
            let ghost i = it.index() as int;
            let ghost rest = p.skip(i);
            proof {
                lemma_tokens_nonempty(rest.skip(1));
                assert(rest.skip(1) =~= p.skip(i + 1));
                assert(rest[0] == c);
            }
            let mut escaped = false;
            if pending {
                let ghost before = p.skip(i - 1);
                proof {
                    assert(before.skip(1) =~= rest);
                    assert(before.skip(2) =~= p.skip(i + 1));
                    lemma_tokens_nonempty(rest);
                    lemma_tokens_nonempty(p.skip(i + 1));
                }
                pending = false;
                if c == '*' {
                    proof {
                        lemma_glue_prepend(done, cur@, '*', tokens(p.skip(i + 1)));
                    }
                    cur.push('*');
                    escaped = true;
                } else {
                    proof {
                        lemma_glue_prepend(done, cur@, '\\', tokens(rest));
                    }
                    cur.push('\\');
                }
            }
            assert(tokens(p) == glue(
                done,
                cur@,
                tokens(p.skip(if escaped { i + 1 } else { i })),
            ));
            if escaped {
            } else if c == '\\' {
                pending = true;
            } else if c == '*' {
                proof {
                    lemma_glue_split(done, cur@, tokens(p.skip(i + 1)));
                    done = done.push(cur@);
                }
                if out.len() == 0 && !cur.as_str().is_empty() {
                    out.push(Segment::Static(cur));
                } else {
                    out.push(Segment::Until(cur));
                }
                cur = String::new();
            } else {
                proof {
                    lemma_glue_prepend(done, cur@, c, tokens(p.skip(i + 1)));
                }
                cur.push(c);
            }
        }
        proof {
            let n = p.len() as int;
            if pending {
                let before = p.skip(n - 1);
                assert(before.skip(1) =~= Seq::<char>::empty());
                lemma_glue_prepend(done, cur@, '\\', tokens(Seq::<char>::empty()));
            } else {
                assert(p.skip(n) =~= Seq::<char>::empty());
            }
        }
        if pending {
            cur.push('\\');
        }
        proof {
            lemma_glue_end(done, cur@);
            assert(tokens(p) == done.push(cur@));
        }
        let ghost last = cur@;
        if out.len() == 0 && !cur.as_str().is_empty() {
            out.push(Segment::Static(cur));
        } else if cur.as_str().is_empty() {
            out.push(Segment::UntilEnd);
        } else {
            out.push(Segment::Until(cur));
        }
        proof {
            let ts = tokens(p);
            assert(out.len() == ts.len());
            assert forall|k: int| 0 <= k < out.len() implies out[k]@ == piece_at(ts, k) by {
                if k < done.len() {
                    assert(ts[k] == done[k]);
                } else {
                    assert(ts[k] == last);
                    assert(out[k]@ == final_piece(last, k));
                }
            }
            assert(!(p =~= seq!['*']));
            assert(pieces_of(out@) =~= compile(p));
        }
        out
    }

    /// Applies the segment to `check` at byte position `ind`: the position
    /// after what it consumed and the range it captured, or `None` where it
    /// does not apply.
    pub fn check(&self, check: &str, ind: usize) -> (r: Option<(usize, Option<(usize, usize)>)>)
        ensures
            advance_of(r) == self@.step(check.spec_bytes(), ind as int),
    {
        let hay = check.as_bytes();
        let end = hay.len();
        match self {
            Segment::Static(text) => {
                let needle = text.as_str().as_bytes();
                if matches_at(hay, needle, ind) {
                    Some((ind + needle.len(), None))
                } else {
                    None
                }
            },
            Segment::Until(delimiter) => {
                let needle = delimiter.as_str().as_bytes();
                match find_from(hay, needle, ind) {
                    Some(at) => Some((at + needle.len(), Some((ind, at)))),
                    None => None,
                }
            },
            Segment::UntilEnd => {
                if ind < end {
                    Some((end, Some((ind, end))))
                } else {
                    None
                }
            },
        }
    }
}

} // verus!
