//! What holds of route tables.

use crate::tree::pattern::{compile, lemma_compile_plain, Piece};
use crate::tree::trie::{
    first_match, inserted, is_merge_point, lemma_first_match_at, lemma_first_match_least,
    lemma_first_match_nowhere, lemma_merge_point_none, lemma_merge_point_unique, lookup,
    merge_point, none_matches, Found, Trie,
};
use vstd::prelude::*;
use vstd::utf8::encode_utf8;

verus! {

/// The tree of one pattern: a branch for each piece but the last, and a
/// leaf for the last.
pub open spec fn chain<T>(pieces: Seq<Piece>, val: T) -> Trie<T>
    decreases pieces.len(),
{
    if pieces.len() <= 1 {
        Trie::Leaf { piece: pieces[0], target: val }
    } else {
        Trie::Branch { piece: pieces[0], children: seq![chain(pieces.skip(1), val)] }
    }
}

/// A pattern inserted into an empty table stands there as its chain.
pub proof fn lemma_inserted_alone<T>(pieces: Seq<Piece>, val: T)
    requires
        pieces.len() > 0,
    ensures
        inserted(Seq::<Trie<T>>::empty(), pieces, val) == seq![chain(pieces, val)],
    decreases pieces.len(),
{
    let none = Seq::<Trie<T>>::empty();
    if pieces.len() == 1 {
        assert(inserted(none, pieces, val) =~= seq![chain(pieces, val)]);
    } else {
        lemma_merge_point_none(none, pieces[0]);
        lemma_inserted_alone(pieces.skip(1), val);
        assert(inserted(none, pieces, val) =~= seq![chain(pieces, val)]);
    }
}

/// A pattern without an asterisk, alone in a table, matches the path that
/// is its own text, with nothing captured, and no other path.
pub proof fn lemma_plain_pattern_matches_itself<T>(p: Seq<char>, handler: T, path: Seq<u8>)
    requires
        p.len() > 0,
        forall|i: int| 0 <= i < p.len() ==> p[i] != '*',
    ensures
        lookup(inserted(Seq::<Trie<T>>::empty(), compile(p), handler), path) == if path
            == encode_utf8(p) {
            Some(Found { target: handler, spans: None })
        } else {
            None
        },
{
    lemma_compile_plain(p);
    let table = inserted(Seq::<Trie<T>>::empty(), compile(p), handler);
    lemma_inserted_alone(compile(p), handler);
    let text = encode_utf8(p);
    assert(table[0] == Trie::Leaf { piece: Piece::Literal(p), target: handler });
    assert(first_match(table, 1, path, 0) is None);
    if path == text {
        assert(path.subrange(0int, 0int + text.len()) =~= text);
    } else if table[0].matching(path, 0) is Some {
        assert(path.subrange(0int, 0int + text.len()) =~= path);
    }
}

/// The number of pieces that capture.
pub open spec fn capture_count(pieces: Seq<Piece>) -> nat
    decreases pieces.len(),
{
    if pieces.len() == 0 {
        0
    } else if pieces[0] is Literal {
        capture_count(pieces.skip(1))
    } else {
        1 + capture_count(pieces.skip(1))
    }
}

/// The number of ranges; no list counts as none.
pub open spec fn span_count(spans: Option<Seq<(int, int)>>) -> nat {
    match spans {
        Some(list) => list.len(),
        None => 0,
    }
}

/// A pattern that matches yields one range for each of its pieces that
/// captures, and no list exactly where none of them does.
pub proof fn lemma_chain_captures_each_wildcard<T>(
    pieces: Seq<Piece>,
    val: T,
    path: Seq<u8>,
    ind: int,
)
    requires
        pieces.len() > 0,
    ensures
        chain(pieces, val).matching(path, ind) matches Some(found) ==> {
            &&& span_count(found.spans) == capture_count(pieces)
            &&& found.spans is None <==> capture_count(pieces) == 0
        },
    decreases pieces.len(),
{
    if pieces.len() == 1 {
        assert(capture_count(pieces.skip(1)) == 0);
    } else if let Some(adv) = pieces[0].step(path, ind) {
        let below = seq![chain(pieces.skip(1), val)];
        assert(below[0] == chain(pieces.skip(1), val));
        assert(first_match(below, 1, path, adv.next) is None);
        lemma_chain_captures_each_wildcard(pieces.skip(1), val, path, adv.next);
    }
}

/// A pattern alone in a table yields, for a path that it matches, one range
/// for each of its wildcards.
pub proof fn lemma_pattern_captures_each_wildcard<T>(pieces: Seq<Piece>, val: T, path: Seq<u8>)
    requires
        pieces.len() > 0,
    ensures
        lookup(inserted(Seq::<Trie<T>>::empty(), pieces, val), path) matches Some(found) ==> {
            &&& found.target == val
            &&& span_count(found.spans) == capture_count(pieces)
            &&& found.spans is None <==> capture_count(pieces) == 0
        },
{
    lemma_inserted_alone(pieces, val);
    let table = seq![chain(pieces, val)];
    assert(table[0] == chain(pieces, val));
    assert(first_match(table, 1, path, 0) is None);
    lemma_chain_captures_each_wildcard(pieces, val, path, 0);
    lemma_chain_target(pieces, val, path, 0);
}

/// What a pattern finds is its own handler.
pub proof fn lemma_chain_target<T>(pieces: Seq<Piece>, val: T, path: Seq<u8>, ind: int)
    requires
        pieces.len() > 0,
    ensures
        chain(pieces, val).matching(path, ind) matches Some(found) ==> found.target == val,
    decreases pieces.len(),
{
    if pieces.len() >= 2 {
        if let Some(adv) = pieces[0].step(path, ind) {
            let below = seq![chain(pieces.skip(1), val)];
            assert(below[0] == chain(pieces.skip(1), val));
            assert(first_match(below, 1, path, adv.next) is None);
            lemma_chain_target(pieces.skip(1), val, path, adv.next);
        }
    }
}

/// A second pattern never takes a path from the first: in a table that
/// holds one pattern, whatever that pattern matches it still matches, with
/// the same handler and the same ranges, after another is inserted.
pub proof fn lemma_chain_keeps_precedence<T>(
    first: Seq<Piece>,
    h1: T,
    second: Seq<Piece>,
    h2: T,
    path: Seq<u8>,
    ind: int,
)
    requires
        first.len() > 0,
        chain(first, h1).matching(path, ind) is Some,
    ensures
        first_match(inserted(seq![chain(first, h1)], second, h2), 0, path, ind) == chain(
            first,
            h1,
        ).matching(path, ind),
    decreases first.len(),
{
    let c1 = chain(first, h1);
    let table = seq![c1];
    let after = inserted(table, second, h2);
    assert(table[0] == c1);
    assert(first_match(table, 1, path, ind) is None);
    if second.len() >= 2 {
        let rest = second.skip(1);
        if c1.merges(second[0]) {
            assert(is_merge_point(table, second[0], 0));
            lemma_merge_point_unique(table, second[0], 0);
            let below = seq![chain(first.skip(1), h1)];
            assert(c1 == Trie::Branch { piece: first[0], children: below });
            let adv = first[0].step(path, ind)->0;
            assert(below[0] == chain(first.skip(1), h1));
            assert(first_match(below, 1, path, adv.next) is None);
            assert(first_match(below, 0, path, adv.next) == below[0].matching(path, adv.next));
            lemma_chain_keeps_precedence(first.skip(1), h1, rest, h2, path, adv.next);
            let grown = Trie::Branch { piece: second[0], children: inserted(below, rest, h2) };
            assert(after =~= seq![grown]);
            assert(after[0] == grown);
            assert(grown.matching(path, ind) == c1.matching(path, ind));
            assert(first_match(after, 1, path, ind) is None);
        } else {
            lemma_merge_point_none(table, second[0]);
            assert(after[0] == c1);
        }
    } else if second.len() == 1 {
        assert(after[0] == c1);
    }
}

/// Of two patterns inserted into an empty table, the first wins every path
/// that it matches.
pub proof fn lemma_first_registered_wins<T>(
    first: Seq<Piece>,
    h1: T,
    second: Seq<Piece>,
    h2: T,
    path: Seq<u8>,
)
    requires
        first.len() > 0,
        lookup(inserted(Seq::<Trie<T>>::empty(), first, h1), path) is Some,
    ensures
        lookup(inserted(inserted(Seq::<Trie<T>>::empty(), first, h1), second, h2), path) == lookup(
            inserted(Seq::<Trie<T>>::empty(), first, h1),
            path,
        ),
{
    lemma_inserted_alone(first, h1);
    let table = seq![chain(first, h1)];
    assert(first_match(table, 1, path, 0) is None);
    lemma_chain_keeps_precedence(first, h1, second, h2, path, 0);
}

/// What a path finds after one node of a table was replaced or one was
/// added at the end, where the others are as they were: what it found
/// before, or what the new node finds.
proof fn lemma_one_node_changed<T>(
    before: Seq<Trie<T>>,
    after: Seq<Trie<T>>,
    at: int,
    path: Seq<u8>,
    ind: int,
)
    requires
        0 <= at < after.len(),
        before.len() == after.len() || (before.len() == at && after.len() == at + 1),
        forall|j: int| 0 <= j < before.len() && j != at ==> before[j] == after[j],
        at < before.len() ==> (after[at].matching(path, ind) is None ==> before[at].matching(
            path,
            ind,
        ) is None),
    ensures
        first_match(after, 0, path, ind) == first_match(before, 0, path, ind) || {
            &&& first_match(after, 0, path, ind) is Some
            &&& first_match(after, 0, path, ind) == after[at].matching(path, ind)
            &&& at < before.len() ==> before[at].matching(path, ind) is None || first_match(
                before,
                0,
                path,
                ind,
            ) == before[at].matching(path, ind)
        },
{
    lemma_first_match_least(before, 0, path, ind);
    match first_match(before, 0, path, ind) {
        Some(found) => {
            let k = choose|k: int|
                {
                    &&& 0 <= k < before.len()
                    &&& none_matches(before, 0, k, path, ind)
                    &&& (#[trigger] before[k]).matching(path, ind) == Some(found)
                };
            if k < at {
                assert(none_matches(after, 0, k, path, ind)) by {
                    assert forall|j: int| 0 <= j < k implies (#[trigger] after[j]).matching(
                        path,
                        ind,
                    ) is None by {
                        assert(before[j].matching(path, ind) is None);
                    }
                }
                assert(after[k] == before[k]);
                lemma_first_match_at(after, 0, k, path, ind);
            } else {
                assert(none_matches(after, 0, at, path, ind)) by {
                    assert forall|j: int| 0 <= j < at implies (#[trigger] after[j]).matching(
                        path,
                        ind,
                    ) is None by {
                        assert(before[j].matching(path, ind) is None);
                    }
                }
                if after[at].matching(path, ind) is Some {
                    lemma_first_match_at(after, 0, at, path, ind);
                } else {
                    assert(k != at);
                    assert(none_matches(after, 0, k, path, ind)) by {
                        assert forall|j: int| 0 <= j < k implies (#[trigger] after[j]).matching(
                            path,
                            ind,
                        ) is None by {
                            if j != at {
                                assert(before[j].matching(path, ind) is None);
                            }
                        }
                    }
                    assert(after[k] == before[k]);
                    lemma_first_match_at(after, 0, k, path, ind);
                }
            }
        },
        None => {
            assert(none_matches(after, 0, at, path, ind)) by {
                assert forall|j: int| 0 <= j < at implies (#[trigger] after[j]).matching(
                    path,
                    ind,
                ) is None by {
                    assert(before[j].matching(path, ind) is None);
                }
            }
            if after[at].matching(path, ind) is Some {
                lemma_first_match_at(after, 0, at, path, ind);
            } else {
                assert(none_matches(after, 0, after.len() as int, path, ind)) by {
                    assert forall|j: int| 0 <= j < after.len() implies (#[trigger] after[j]).matching(
                        path,
                        ind,
                    ) is None by {
                        if j != at {
                            assert(before[j].matching(path, ind) is None);
                        }
                    }
                }
                lemma_first_match_nowhere(after, 0, path, ind);
            }
        },
    }
}

/// A pattern that is inserted takes from the others only what it wins
/// itself: among the nodes, a path finds what it found before, or the new
/// handler.
pub proof fn lemma_insert_only_adds<T>(
    tries: Seq<Trie<T>>,
    pieces: Seq<Piece>,
    val: T,
    path: Seq<u8>,
    ind: int,
)
    ensures
        first_match(inserted(tries, pieces, val), 0, path, ind) == first_match(tries, 0, path, ind)
            || (first_match(inserted(tries, pieces, val), 0, path, ind) matches Some(found)
            && found.target == val),
    decreases pieces.len(),
{
    let after = inserted(tries, pieces, val);
    if pieces.len() == 1 {
        lemma_one_node_changed(tries, after, tries.len() as int, path, ind);
    } else if pieces.len() >= 2 {
        let rest = pieces.skip(1);
        match merge_point(tries, pieces[0]) {
            Some(at) => {
                assert(is_merge_point(tries, pieces[0], at));
                let below = tries[at]->children;
                let grown = Trie::Branch {
                    piece: pieces[0],
                    children: inserted(below, rest, val),
                };
                assert(after[at] == grown);
                assert(tries[at] == Trie::Branch { piece: pieces[0], children: below });
                if let Some(adv) = pieces[0].step(path, ind) {
                    lemma_insert_only_adds(below, rest, val, path, adv.next);
                }
                lemma_one_node_changed(tries, after, at, path, ind);
            },
            None => {
                let none = Seq::<Trie<T>>::empty();
                let added = Trie::Branch { piece: pieces[0], children: inserted(none, rest, val) };
                assert(after[tries.len() as int] == added);
                if let Some(adv) = pieces[0].step(path, ind) {
                    lemma_insert_only_adds(none, rest, val, path, adv.next);
                    assert(first_match(none, 0, path, adv.next) is None);
                }
                lemma_one_node_changed(tries, after, tries.len() as int, path, ind);
            },
        }
    }
}

/// A pattern that is inserted takes from the others only what it wins
/// itself: a path finds the handler that it found before, with the same
/// ranges, or the new handler.
pub proof fn lemma_lookup_after_insert<T>(
    tries: Seq<Trie<T>>,
    pieces: Seq<Piece>,
    val: T,
    path: Seq<u8>,
)
    ensures
        lookup(inserted(tries, pieces, val), path) == lookup(tries, path) || (lookup(
            inserted(tries, pieces, val),
            path,
        ) matches Some(found) && found.target == val),
{
    lemma_insert_only_adds(tries, pieces, val, path, 0);
}

/// No two branches among the nodes hold the same piece.
pub open spec fn branches_distinct<T>(tries: Seq<Trie<T>>) -> bool {
    forall|i: int, j: int|
        0 <= i < j < tries.len() && (#[trigger] tries[i]) is Branch && (#[trigger] tries[j]) is Branch
            ==> tries[i].piece() != tries[j].piece()
}

impl<T> Trie<T> {
    /// At every level below the node, no two branches that are siblings
    /// hold the same piece.
    pub open spec fn distinct_below(self) -> bool
        decreases self,
    {
        match self {
            Trie::Leaf { .. } => true,
            Trie::Branch { children, .. } => {
                &&& branches_distinct(children)
                &&& forall|i: int|
                    0 <= i < children.len() ==> (#[trigger] children[i]).distinct_below()
            },
        }
    }
}

/// At every level of the table, no two branches that are siblings hold the
/// same piece.
pub open spec fn distinct_throughout<T>(tries: Seq<Trie<T>>) -> bool {
    &&& branches_distinct(tries)
    &&& forall|i: int| 0 <= i < tries.len() ==> (#[trigger] tries[i]).distinct_below()
}

/// Inserting keeps what is there, in its place: the table grows by at most
/// one node, and each node that was there keeps its kind and its piece.
pub proof fn lemma_inserted_keeps_order<T>(tries: Seq<Trie<T>>, pieces: Seq<Piece>, val: T)
    ensures
        tries.len() <= inserted(tries, pieces, val).len() <= tries.len() + 1,
        pieces.len() > 0 ==> inserted(tries, pieces, val).len() > 0,
        forall|i: int|
            0 <= i < tries.len() ==> {
                &&& (#[trigger] inserted(tries, pieces, val)[i]).piece() == tries[i].piece()
                &&& inserted(tries, pieces, val)[i] is Branch == tries[i] is Branch
                &&& tries[i] is Leaf ==> inserted(tries, pieces, val)[i] == tries[i]
            },
{
    if pieces.len() >= 2 {
        if let Some(at) = merge_point(tries, pieces[0]) {
            assert(is_merge_point(tries, pieces[0], at));
        }
    }
}

/// A table stays distinct at every level where one node is replaced, or
/// one is added at the end, by a node that is distinct below itself and, if
/// it is a branch, holds a piece that no other branch of the table holds.
proof fn lemma_one_node_keeps_distinct<T>(before: Seq<Trie<T>>, after: Seq<Trie<T>>, at: int)
    requires
        distinct_throughout(before),
        0 <= at < after.len(),
        before.len() == after.len() || (before.len() == at && after.len() == at + 1),
        forall|j: int| 0 <= j < before.len() && j != at ==> before[j] == after[j],
        after[at].distinct_below(),
        after[at] is Branch ==> forall|j: int|
            0 <= j < before.len() && j != at && (#[trigger] before[j]) is Branch ==> before[j].piece()
                != after[at].piece(),
    ensures
        distinct_throughout(after),
{
    assert forall|i: int| 0 <= i < after.len() implies (#[trigger] after[i]).distinct_below() by {
        if i != at {
            assert(after[i] == before[i]);
        }
    }
    assert forall|i: int, j: int|
        0 <= i < j < after.len() && (#[trigger] after[i]) is Branch && (
        #[trigger] after[j]) is Branch implies after[i].piece() != after[j].piece() by {
        if i != at {
            assert(after[i] == before[i]);
        }
        if j != at {
            assert(after[j] == before[j]);
        }
    }
}

/// Inserting a pattern never makes two sibling branches with the same
/// piece: a table that is distinct at every level stays so.
pub proof fn lemma_inserted_distinct<T>(tries: Seq<Trie<T>>, pieces: Seq<Piece>, val: T)
    requires
        distinct_throughout(tries),
    ensures
        distinct_throughout(inserted(tries, pieces, val)),
    decreases pieces.len(),
{
    let after = inserted(tries, pieces, val);
    if pieces.len() >= 2 {
        let rest = pieces.skip(1);
        match merge_point(tries, pieces[0]) {
            Some(at) => {
                assert(is_merge_point(tries, pieces[0], at));
                assert(tries[at].distinct_below());
                lemma_inserted_distinct(tries[at]->children, rest, val);
                lemma_one_node_keeps_distinct(tries, after, at);
            },
            None => {
                lemma_merge_point_none(tries, pieces[0]);
                lemma_inserted_distinct(Seq::<Trie<T>>::empty(), rest, val);
                lemma_one_node_keeps_distinct(tries, after, tries.len() as int);
            },
        }
    } else if pieces.len() == 1 {
        lemma_one_node_keeps_distinct(tries, after, tries.len() as int);
    }
}

} // verus!
