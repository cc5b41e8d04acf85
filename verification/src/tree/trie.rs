//! The prefix tree as a mathematical value: what it holds, what inserting a
//! pattern does to it, and which handler it finds for a path.

use crate::tree::pattern::{
    is_text_range, lemma_step_in_bounds, lemma_step_keeps_boundaries, Piece,
};
use vstd::prelude::*;
use vstd::utf8::{is_char_boundary, valid_utf8};

verus! {

/// A node of the prefix tree. A branch holds a piece and its children in the
/// order in which they were added; a leaf holds a piece and a handler.
pub enum Trie<T> {
    Branch { piece: Piece, children: Seq<Trie<T>> },
    Leaf { piece: Piece, target: T },
}

/// A successful match: the handler, and the ranges that the pieces on the way
/// to it captured, if any of them captures. The ranges of a node stand
/// deepest first.
pub struct Found<T> {
    pub target: T,
    pub spans: Option<Seq<(int, int)>>,
}

/// The ranges of a subtree with the range of the branch above it added
/// behind them. A branch that captured above a subtree that captured
/// nothing starts the list with its own range.
pub open spec fn add_span(spans: Option<Seq<(int, int)>>, own: Option<(int, int)>) -> Option<
    Seq<(int, int)>,
> {
    match own {
        Some(span) => match spans {
            Some(list) => Some(list.push(span)),
            None => Some(seq![span]),
        },
        None => spans,
    }
}

/// The list that a leaf starts from the range of its own piece.
pub open spec fn leaf_spans(own: Option<(int, int)>) -> Option<Seq<(int, int)>> {
    match own {
        Some(span) => Some(seq![span]),
        None => None,
    }
}

impl<T> Trie<T> {
    pub open spec fn piece(self) -> Piece {
        match self {
            Trie::Branch { piece, .. } => piece,
            Trie::Leaf { piece, .. } => piece,
        }
    }

    /// A pattern that goes on after `piece` is merged into this node.
    pub open spec fn merges(self, piece: Piece) -> bool {
        self is Branch && self.piece() == piece
    }

    /// What the node finds for `path` from byte position `ind`. A leaf
    /// matches if its piece consumes the path to its end. A branch matches
    /// if its piece applies and one of its children matches what follows;
    /// the first such child decides.
    pub open spec fn matching(self, path: Seq<u8>, ind: int) -> Option<Found<T>>
        decreases self, 0int,
    {
        match self {
            Trie::Leaf { piece, target } => {
                match piece.step(path, ind) {
                    Some(adv) => {
                        if adv.next == path.len() {
                            Some(Found { target, spans: leaf_spans(adv.span) })
                        } else {
                            None
                        }
                    },
                    None => None,
                }
            },
            Trie::Branch { piece, children } => {
                match piece.step(path, ind) {
                    Some(adv) => {
                        match first_match(children, 0, path, adv.next) {
                            Some(found) => Some(
                                Found {
                                    target: found.target,
                                    spans: add_span(found.spans, adv.span),
                                },
                            ),
                            None => None,
                        }
                    },
                    None => None,
                }
            },
        }
    }
}

/// What the first node at or after index `from` that matches finds.
pub open spec fn first_match<T>(tries: Seq<Trie<T>>, from: int, path: Seq<u8>, ind: int) -> Option<
    Found<T>,
>
    decreases tries, tries.len() - from,
{
    if 0 <= from < tries.len() {
        match tries[from].matching(path, ind) {
            Some(found) => Some(found),
            None => first_match(tries, from + 1, path, ind),
        }
    } else {
        None
    }
}

/// What a table finds for a whole path: the first top-level node that
/// matches from the start decides, and the ranges are put in the order of
/// the pattern, left to right.
pub open spec fn lookup<T>(tries: Seq<Trie<T>>, path: Seq<u8>) -> Option<Found<T>> {
    match first_match(tries, 0, path, 0) {
        Some(found) => Some(
            Found {
                target: found.target,
                spans: match found.spans {
                    Some(list) => Some(list.reverse()),
                    None => None,
                },
            },
        ),
        None => None,
    }
}

/// `at` is the first node among `tries` that merges `piece`.
pub open spec fn is_merge_point<T>(tries: Seq<Trie<T>>, piece: Piece, at: int) -> bool {
    &&& 0 <= at < tries.len()
    &&& tries[at].merges(piece)
    &&& forall|j: int| 0 <= j < at ==> !(#[trigger] tries[j]).merges(piece)
}

/// The first node among `tries` that merges `piece`, if there is one.
pub open spec fn merge_point<T>(tries: Seq<Trie<T>>, piece: Piece) -> Option<int> {
    if exists|at: int| is_merge_point(tries, piece, at) {
        Some(choose|at: int| is_merge_point(tries, piece, at))
    } else {
        None
    }
}

/// The nodes after a pattern with handler `val` has been inserted. No pieces:
/// nothing changes. One piece: a new leaf is added at the end, whatever is
/// there already. More: the rest is inserted below the first branch that
/// holds an equal piece, or below a new branch added at the end.
pub open spec fn inserted<T>(tries: Seq<Trie<T>>, pieces: Seq<Piece>, val: T) -> Seq<Trie<T>>
    decreases pieces.len(),
{
    if pieces.len() == 0 {
        tries
    } else if pieces.len() == 1 {
        tries.push(Trie::Leaf { piece: pieces[0], target: val })
    } else {
        match merge_point(tries, pieces[0]) {
            Some(at) => tries.update(
                at,
                Trie::Branch {
                    piece: pieces[0],
                    children: inserted(tries[at]->children, pieces.skip(1), val),
                },
            ),
            None => tries.push(
                Trie::Branch {
                    piece: pieces[0],
                    children: inserted(Seq::empty(), pieces.skip(1), val),
                },
            ),
        }
    }
}

/// A merge point is the only one: whatever index qualifies is the value of
/// `merge_point`.
pub proof fn lemma_merge_point_unique<T>(tries: Seq<Trie<T>>, piece: Piece, at: int)
    requires
        is_merge_point(tries, piece, at),
    ensures
        merge_point(tries, piece) == Some(at),
{
    let c = choose|c: int| is_merge_point(tries, piece, c);
    assert(is_merge_point(tries, piece, c));
    if c < at {
        assert(!tries[c].merges(piece));
    } else if at < c {
        assert(!tries[at].merges(piece));
    }
}

/// There is no merge point exactly when no node merges the piece.
pub proof fn lemma_merge_point_none<T>(tries: Seq<Trie<T>>, piece: Piece)
    ensures
        merge_point(tries, piece) is None <==> forall|j: int|
            0 <= j < tries.len() ==> !(#[trigger] tries[j]).merges(piece),
{
    if exists|j: int| 0 <= j < tries.len() && tries[j].merges(piece) {
        let j = choose|j: int| 0 <= j < tries.len() && tries[j].merges(piece);
        lemma_least_merge(tries, piece, j);
    }
}

proof fn lemma_least_merge<T>(tries: Seq<Trie<T>>, piece: Piece, j: int)
    requires
        0 <= j < tries.len(),
        tries[j].merges(piece),
    ensures
        exists|at: int| is_merge_point(tries, piece, at),
    decreases j,
{
    if exists|k: int| 0 <= k < j && tries[k].merges(piece) {
        let k = choose|k: int| 0 <= k < j && tries[k].merges(piece);
        lemma_least_merge(tries, piece, k);
    } else {
        assert(is_merge_point(tries, piece, j));
    }
}

/// None of the nodes from index `from` up to, but not including, index
/// `upto` matches.
pub open spec fn none_matches<T>(
    tries: Seq<Trie<T>>,
    from: int,
    upto: int,
    path: Seq<u8>,
    ind: int,
) -> bool {
    forall|j: int| from <= j < upto ==> (#[trigger] tries[j]).matching(path, ind) is None
}

/// The first node that matches decides: a node that matches, with none
/// matching before it, gives the result.
pub proof fn lemma_first_match_at<T>(tries: Seq<Trie<T>>, from: int, at: int, path: Seq<u8>, ind: int)
    requires
        0 <= from <= at < tries.len(),
        none_matches(tries, from, at, path, ind),
        tries[at].matching(path, ind) is Some,
    ensures
        first_match(tries, from, path, ind) == tries[at].matching(path, ind),
    decreases at - from,
{
    if from < at {
        assert(tries[from].matching(path, ind) is None);
        lemma_first_match_at(tries, from + 1, at, path, ind);
    }
}

/// Where no node matches, nothing is found.
pub proof fn lemma_first_match_nowhere<T>(tries: Seq<Trie<T>>, from: int, path: Seq<u8>, ind: int)
    requires
        0 <= from,
        none_matches(tries, from, tries.len() as int, path, ind),
    ensures
        first_match(tries, from, path, ind) is None,
    decreases tries.len() - from,
{
    if from < tries.len() {
        assert(tries[from].matching(path, ind) is None);
        lemma_first_match_nowhere(tries, from + 1, path, ind);
    }
}

/// What is found comes from the first node that matches, and nothing is
/// found only where no node matches.
pub proof fn lemma_first_match_least<T>(tries: Seq<Trie<T>>, from: int, path: Seq<u8>, ind: int)
    requires
        0 <= from,
    ensures
        match first_match(tries, from, path, ind) {
            Some(found) => exists|at: int|
                {
                    &&& from <= at < tries.len()
                    &&& none_matches(tries, from, at, path, ind)
                    &&& (#[trigger] tries[at]).matching(path, ind) == Some(found)
                },
            None => none_matches(tries, from, tries.len() as int, path, ind),
        },
    decreases tries.len() - from,
{
    if from < tries.len() {
        if tries[from].matching(path, ind) is None {
            lemma_first_match_least(tries, from + 1, path, ind);
            if let Some(found) = first_match(tries, from + 1, path, ind) {
                let at = choose|at: int|
                    {
                        &&& from + 1 <= at < tries.len()
                        &&& none_matches(tries, from + 1, at, path, ind)
                        &&& (#[trigger] tries[at]).matching(path, ind) == Some(found)
                    };
                assert(none_matches(tries, from, at, path, ind));
            }
        } else {
            assert(none_matches(tries, from, from, path, ind));
        }
    }
}

/// Every range of the list can be cut out of `path` as text.
pub open spec fn all_text_ranges(path: Seq<u8>, spans: Option<Seq<(int, int)>>) -> bool {
    spans matches Some(list) ==> forall|i: int|
        0 <= i < list.len() ==> is_text_range(path, #[trigger] list[i])
}

/// The ranges lie at or after `ind` and within the path, and each lies
/// before the one that stands in front of it in the list.
pub open spec fn descends_to(path: Seq<u8>, spans: Option<Seq<(int, int)>>, ind: int) -> bool {
    spans matches Some(list) ==> {
        &&& forall|i: int|
            0 <= i < list.len() ==> ind <= (#[trigger] list[i]).0 <= list[i].1 <= path.len()
        &&& forall|i: int, j: int|
            0 <= i < j < list.len() ==> (#[trigger] list[j]).1 <= (#[trigger] list[i]).0
    }
}

/// The ranges lie within the path, and each lies before the one that
/// follows it in the list.
pub open spec fn ascends(path: Seq<u8>, spans: Option<Seq<(int, int)>>) -> bool {
    spans matches Some(list) ==> {
        &&& forall|i: int| 0 <= i < list.len() ==> 0 <= (#[trigger] list[i]).0 <= list[i].1 <= path.len()
        &&& forall|i: int, j: int|
            0 <= i < j < list.len() ==> (#[trigger] list[i]).1 <= (#[trigger] list[j]).0
    }
}

/// What a node captures lies in what is left of the path, deepest piece
/// first, without overlap.
pub proof fn lemma_matching_descends<T>(trie: Trie<T>, path: Seq<u8>, ind: int)
    requires
        0 <= ind,
    ensures
        trie.matching(path, ind) matches Some(found) ==> descends_to(path, found.spans, ind),
    decreases trie, 0int,
{
    lemma_step_in_bounds(trie.piece(), path, ind);
    if let Trie::Branch { piece, children } = trie {
        if let Some(adv) = piece.step(path, ind) {
            lemma_first_match_descends(children, 0, path, adv.next);
        }
    }
}

/// What the first matching node captures lies in what is left of the path,
/// deepest piece first, without overlap.
pub proof fn lemma_first_match_descends<T>(tries: Seq<Trie<T>>, from: int, path: Seq<u8>, ind: int)
    requires
        0 <= ind,
    ensures
        first_match(tries, from, path, ind) matches Some(found) ==> descends_to(
            path,
            found.spans,
            ind,
        ),
    decreases tries, tries.len() - from,
{
    if 0 <= from < tries.len() {
        lemma_matching_descends(tries[from], path, ind);
        lemma_first_match_descends(tries, from + 1, path, ind);
    }
}

/// In a path that is text, what a node captures from a character boundary
/// is text.
pub proof fn lemma_matching_yields_text<T>(trie: Trie<T>, path: Seq<u8>, ind: int)
    requires
        valid_utf8(path),
        0 <= ind,
        is_char_boundary(path, ind),
    ensures
        trie.matching(path, ind) matches Some(found) ==> all_text_ranges(path, found.spans),
    decreases trie, 0int,
{
    lemma_step_keeps_boundaries(trie.piece(), path, ind);
    lemma_step_in_bounds(trie.piece(), path, ind);
    if let Trie::Branch { piece, children } = trie {
        if let Some(adv) = piece.step(path, ind) {
            lemma_first_match_yields_text(children, 0, path, adv.next);
        }
    }
}

/// In a path that is text, what the first matching node captures from a
/// character boundary is text.
pub proof fn lemma_first_match_yields_text<T>(
    tries: Seq<Trie<T>>,
    from: int,
    path: Seq<u8>,
    ind: int,
)
    requires
        valid_utf8(path),
        0 <= ind,
        is_char_boundary(path, ind),
    ensures
        first_match(tries, from, path, ind) matches Some(found) ==> all_text_ranges(
            path,
            found.spans,
        ),
    decreases tries, tries.len() - from,
{
    if 0 <= from < tries.len() {
        lemma_matching_yields_text(tries[from], path, ind);
        lemma_first_match_yields_text(tries, from + 1, path, ind);
    }
}

/// What a table captures of a path that is text is text, and the ranges
/// come from left to right without overlap.
pub proof fn lemma_lookup_yields_text<T>(tries: Seq<Trie<T>>, path: Seq<u8>)
    requires
        valid_utf8(path),
    ensures
        lookup(tries, path) matches Some(found) ==> all_text_ranges(path, found.spans) && ascends(
            path,
            found.spans,
        ),
{
    lemma_first_match_yields_text(tries, 0, path, 0);
    lemma_first_match_descends(tries, 0, path, 0);
}

} // verus!
