//! The route table of one verb.

use crate::tree::laws::{distinct_throughout, lemma_inserted_distinct};
use crate::tree::node::{found_of, insert_into, ranges_of, tries_of, Node};
use crate::tree::pattern::compile;
use crate::tree::segment::{pieces_of, Segment};
use crate::tree::trie::{first_match, inserted, lookup, Trie};
use vstd::prelude::*;
use vstd::string::StringSliceAdditionalSpecFns;

verus! {

/// A route table: the top-level nodes of a prefix tree, in the order in
/// which they were added.
#[derive(Debug)]
pub struct Root<T> {
    pub children: Vec<Node<T>>,
}

impl<T> View for Root<T> {
    type V = Seq<Trie<T>>;

    open spec fn view(&self) -> Seq<Trie<T>> {
        tries_of(self.children@)
    }
}

impl<T> Default for Root<T> {
    fn default() -> (root: Self)
        ensures
            root@ == Seq::<Trie<T>>::empty(),
    {
        Root::new()
    }
}

/// The list in the opposite order.
fn reversed(list: Vec<(usize, usize)>) -> (out: Vec<(usize, usize)>)
    ensures
        out@ == list@.reverse(),
{
    let n = list.len();
    let mut out: Vec<(usize, usize)> = Vec::new();
    let mut i: usize = n;
    while i > 0
        invariant
            n == list.len(),
            i <= n,
            out.len() == n - i,
            forall|k: int| 0 <= k < out.len() ==> out[k] == list[n - 1 - k],
        decreases i,
    {
        i -= 1;
        out.push(list[i]);
    }
    assert(out@ =~= list@.reverse());
    out
}

impl<T> Root<T> {
    /// A table without routes.
    pub fn new() -> (root: Self)
        ensures
            root@ == Seq::<Trie<T>>::empty(),
            distinct_throughout(root@),
    {
        let root = Root { children: Vec::new() };
        assert(root@ =~= Seq::<Trie<T>>::empty());
        root
    }

    /// Finds the handler for a path. The top-level nodes are tried in the
    /// order in which they were added and the first that matches decides;
    /// the captured ranges come in the order of the pattern.
    #[verifier::loop_isolation(false)]
    pub fn check(&self, check: &str) -> (r: Option<(&T, Option<Vec<(usize, usize)>>)>)
        ensures
            found_of(r) == lookup(self@, check.spec_bytes()),
    {
        let ghost path = check.spec_bytes();
        let mut i: usize = 0;
        while i < self.children.len()
            invariant
                i <= self.children.len(),
                first_match(self@, 0, path, 0) == first_match(self@, i as int, path, 0),
            decreases self.children.len() - i,
        {
            assert(self@[i as int] == self.children[i as int]@);
            match self.children[i].check(check, 0) {
                Some((target, opt_caps)) => {
                    match opt_caps {
                        Some(caps) => {
                            let ordered = reversed(caps);
                            assert(ranges_of(ordered@) =~= ranges_of(caps@).reverse());
                            return Some((target, Some(ordered)));
                        },
                        None => {
                            return Some((target, None));
                        },
                    }
                },
                None => {},
            }
            i += 1;
        }
        None
    }

    /// Compiles a pattern and inserts it with its handler.
    pub fn insert(&mut self, x: &str, val: T) -> (r: &mut Self)
        ensures
            r@ == inserted(old(self)@, compile(x@), val),
            distinct_throughout(old(self)@) ==> distinct_throughout(r@),
            *final(self) == *final(r),
    {
        let segments = Segment::parse(x);
        self.insert_inner(segments, val);
        self
    }

    /// Inserts a pattern, given by its segments, with its handler.
    pub fn insert_inner(&mut self, segments: Vec<Segment>, val: T)
        ensures
            final(self)@ == inserted(old(self)@, pieces_of(segments@), val),
            distinct_throughout(old(self)@) ==> distinct_throughout(final(self)@),
    {
        proof {
            if distinct_throughout(self@) {
                lemma_inserted_distinct(self@, pieces_of(segments@), val);
            }
        }
        insert_into(&mut self.children, segments, val);
    }
}

} // verus!
