//! The nodes of the prefix tree.

use crate::tree::pattern::Piece;
use crate::tree::segment::{pieces_of, Segment};
use crate::tree::trie::{
    add_span, first_match, inserted, leaf_spans, lemma_merge_point_none,
    lemma_merge_point_unique, Found, Trie,
};
use vstd::prelude::*;
use vstd::string::StringSliceAdditionalSpecFns;

verus! {

/// A node that ends a pattern and owns its handler.
#[derive(Debug)]
pub struct LeafNode<T> {
    pub segment: Segment,
    pub target: T,
}

/// A node that patterns with a common beginning share.
#[derive(Debug)]
pub struct BranchNode<T> {
    pub segment: Segment,
    pub children: Vec<Node<T>>,
}

#[derive(Debug)]
pub enum Node<T> {
    Branch(BranchNode<T>),
    Leaf(LeafNode<T>),
}

/// The trees that a list of nodes stands for.
pub open spec fn tries_of<T>(nodes: Seq<Node<T>>) -> Seq<Trie<T>>
    decreases nodes,
{
    Seq::new(nodes.len(), |i: int| if 0 <= i < nodes.len() { nodes[i]@ } else { arbitrary() })
}

impl<T> View for LeafNode<T> {
    type V = Trie<T>;

    open spec fn view(&self) -> Trie<T> {
        Trie::Leaf { piece: self.segment@, target: self.target }
    }
}

impl<T> View for BranchNode<T> {
    type V = Trie<T>;

    open spec fn view(&self) -> Trie<T>
        decreases self,
    {
        Trie::Branch { piece: self.segment@, children: tries_of(self.children@) }
    }
}

impl<T> View for Node<T> {
    type V = Trie<T>;

    open spec fn view(&self) -> Trie<T>
        decreases self,
    {
        match self {
            Node::Branch(branch) => branch@,
            Node::Leaf(leaf) => leaf@,
        }
    }
}

/// Captured ranges as they stand in the model.
pub open spec fn ranges_of(spans: Seq<(usize, usize)>) -> Seq<(int, int)> {
    Seq::new(spans.len(), |i: int| (spans[i].0 as int, spans[i].1 as int))
}

/// An optional list of captured ranges as it stands in the model.
pub open spec fn spans_of(caps: Option<Vec<(usize, usize)>>) -> Option<Seq<(int, int)>> {
    match caps {
        Some(list) => Some(ranges_of(list@)),
        None => None,
    }
}

/// The result of a `check` as it stands in the model.
pub open spec fn found_of<T>(r: Option<(&T, Option<Vec<(usize, usize)>>)>) -> Option<Found<T>> {
    match r {
        Some((target, caps)) => Some(Found { target: *target, spans: spans_of(caps) }),
        None => None,
    }
}

impl<T> LeafNode<T> {
    /// Matches `check` from byte position `ind`: the leaf's segment has to
    /// consume the path to its end.
    pub fn check(&self, check: &str, ind: usize) -> (r: Option<(&T, Option<Vec<(usize, usize)>>)>)
        ensures
            found_of(r) == self@.matching(check.spec_bytes(), ind as int),
    {
        match self.segment.check(check, ind) {
            Some((d1, opt_d2)) => {
                if d1 == check.as_bytes().len() {
                    match opt_d2 {
                        Some(d2) => {
                            let mut caps: Vec<(usize, usize)> = Vec::new();
                            caps.push(d2);
                            assert(ranges_of(caps@) =~= seq![(d2.0 as int, d2.1 as int)]);
                            Some((&self.target, Some(caps)))
                        },
                        None => Some((&self.target, None)),
                    }
                } else {
                    None
                }
            },
            None => None,
        }
    }
}

impl<T> BranchNode<T> {
    /// Matches `check` from byte position `ind`: the branch's segment has to
    /// apply, and the first child that matches what follows decides.
    #[verifier::loop_isolation(false)]
    pub fn check(&self, check: &str, ind: usize) -> (r: Option<(&T, Option<Vec<(usize, usize)>>)>)
        ensures
            found_of(r) == self@.matching(check.spec_bytes(), ind as int),
        decreases self, 0int,
    {
        let ghost path = check.spec_bytes();
        let ghost tries = tries_of(self.children@);
        match self.segment.check(check, ind) {
            Some((d1, opt_d2)) => {
                let mut i: usize = 0;
                while i < self.children.len()
                    invariant
                        i <= self.children.len(),
                        path == check.spec_bytes(),
                        tries == tries_of(self.children@),
                        first_match(tries, 0, path, d1 as int) == first_match(
                            tries,
                            i as int,
                            path,
                            d1 as int,
                        ),
                    decreases self.children.len() - i,
                {
                    assert(tries[i as int] == self.children[i as int]@);
                    match self.children[i].check(check, d1) {
                        Some((target, opt_d3)) => {
                            match opt_d3 {
                                Some(mut d3) => {
                                    let ghost before = d3@;
                                    if let Some(d2) = opt_d2 {
                                        d3.push(d2);
                                        assert(ranges_of(d3@) =~= ranges_of(before).push(
                                            (d2.0 as int, d2.1 as int),
                                        ));
                                    }
                                    return Some((target, Some(d3)));
                                },
                                None => {
                                    match opt_d2 {
                                        Some(d2) => {
                                            let mut own: Vec<(usize, usize)> = Vec::new();
                                            own.push(d2);
                                            assert(ranges_of(own@) =~= seq![
                                                (d2.0 as int, d2.1 as int),
                                            ]);
                                            return Some((target, Some(own)));
                                        },
                                        None => {
                                            return Some((target, None));
                                        },
                                    }
                                },
                            }
                        },
                        None => {},
                    }
                    i += 1;
                }
                None
            },
            None => None,
        }
    }

    /// Inserts a pattern, given by its segments, below this branch.
    pub fn insert(&mut self, segments: Vec<Segment>, val: T)
        ensures
            final(self).segment == old(self).segment,
            tries_of(final(self).children@) == inserted(
                tries_of(old(self).children@),
                pieces_of(segments@),
                val,
            ),
        decreases segments.len(), 1int,
    {
        insert_into(&mut self.children, segments, val);
    }
}

impl<T> Node<T> {
    /// The branch that this node is, if it is one.
    pub fn as_mut_branch<'a>(&'a mut self) -> (r: Option<&'a mut BranchNode<T>>)
        ensures
            match r {
                Some(branch) => *old(self) == Node::Branch(*branch) && *final(self) == Node::Branch(
                    *final(branch),
                ),
                None => *old(self) is Leaf && *final(self) == *old(self),
            },
    {
        match self {
            Node::Branch(x) => Some(x),
            _ => None,
        }
    }

    /// The leaf that this node is, if it is one.
    pub fn as_mut_leaf<'a>(&'a mut self) -> (r: Option<&'a mut LeafNode<T>>)
        ensures
            match r {
                Some(leaf) => *old(self) == Node::Leaf(*leaf) && *final(self) == Node::Leaf(
                    *final(leaf),
                ),
                None => *old(self) is Branch && *final(self) == *old(self),
            },
    {
        match self {
            Node::Leaf(x) => Some(x),
            _ => None,
        }
    }

    /// Matches `check` from byte position `ind`.
    pub fn check(&self, check: &str, ind: usize) -> (r: Option<(&T, Option<Vec<(usize, usize)>>)>)
        ensures
            found_of(r) == self@.matching(check.spec_bytes(), ind as int),
        decreases self, 1int,
    {
        match self {
            Node::Branch(x) => x.check(check, ind),
            Node::Leaf(x) => x.check(check, ind),
        }
    }
}

/// Inserts a pattern, given by its segments, among `children`.
#[verifier::loop_isolation(false)]
pub(crate) fn insert_into<T>(children: &mut Vec<Node<T>>, segments: Vec<Segment>, val: T)
    ensures
        tries_of(final(children)@) == inserted(tries_of(old(children)@), pieces_of(segments@), val),
    decreases segments.len(), 0int,
{
    let ghost pieces = pieces_of(segments@);
    let ghost before = tries_of(children@);
    let mut rest = segments;
    if rest.len() == 0 {
        return ;
    }
    let curr = rest.remove(0);
    assert(pieces_of(rest@) =~= pieces.skip(1));
    assert(curr@ == pieces[0]);
    if rest.len() == 0 {
        children.push(Node::Leaf(LeafNode { segment: curr, target: val }));
        assert(tries_of(children@) =~= before.push(Trie::Leaf { piece: pieces[0], target: val }));
        return ;
    }
    let mut i: usize = 0;
    while i < children.len()
        invariant
            i <= children.len(),
            before == tries_of(children@),
            curr@ == pieces[0],
            pieces.len() >= 2,
            pieces == pieces_of(segments@),
            rest.len() + 1 == segments.len(),
            pieces_of(rest@) == pieces.skip(1),
            forall|j: int| 0 <= j < i ==> !(#[trigger] before[j]).merges(pieces[0]),
        decreases children.len() - i,
    {
        let ghost nodes = children@;
        assert(before[i as int] == nodes[i as int]@);
        if let Some(branch) = children[i].as_mut_branch() {
            if branch.segment == curr {
                let ghost below = tries_of(branch.children@);
                proof {
                    lemma_merge_point_unique(before, pieces[0], i as int);
                }
                branch.insert(rest, val);
                assert(tries_of(children@) =~= before.update(
                    i as int,
                    Trie::Branch {
                        piece: pieces[0],
                        children: inserted(below, pieces.skip(1), val),
                    },
                ));
                return ;
            }
        }
        i += 1;
    }
    proof {
        lemma_merge_point_none(before, pieces[0]);
    }
    let mut branch = BranchNode { segment: curr, children: Vec::new() };
    assert(tries_of(branch.children@) =~= Seq::<Trie<T>>::empty());
    branch.insert(rest, val);
    children.push(Node::Branch(branch));
    assert(tries_of(children@) =~= inserted(before, pieces, val));
}

} // verus!
