use vstd::prelude::*;

use smallvec::SmallVec;

use crate::graph::EdgeWalk;

verus! {

/// The outgoing edges of one node, kept inline up to four.
#[derive(Debug)]
#[verifier::external_body]
pub struct EdgeList {
    inner: SmallVec<[EdgeWalk; 4]>,
}

/// Most edges one list may hold. Growing a list doubles its capacity, and
/// `SmallVec` panics once that capacity takes more than `isize::MAX` bytes;
/// below this length that cannot happen, on 32-bit targets too.
pub const EDGE_LIST_LIMIT: usize = 0x100_0000;

/// The edges held by an adjacency list, first to last.
pub uninterp spec fn edge_items(v: EdgeList) -> Seq<EdgeWalk>;

impl EdgeList {
    /// Relies on SmallVec::new: the list starts empty.
    #[verifier::external_body]
    pub(crate) fn empty() -> (r: EdgeList)
        ensures
            edge_items(r).len() == 0,
    {
        EdgeList { inner: SmallVec::new() }
    }

    /// Relies on SmallVec::len: the number of stored items.
    #[verifier::external_body]
    pub(crate) fn len(&self) -> (r: usize)
        ensures
            r == edge_items(*self).len(),
    {
        self.inner.len()
    }

    /// Relies on SmallVec's `Index<usize>`: the item at position `i`.
    #[verifier::external_body]
    pub(crate) fn at(&self, i: usize) -> (e: EdgeWalk)
        requires
            i < edge_items(*self).len(),
        ensures
            e == edge_items(*self)[i as int],
    {
        self.inner[i]
    }

    /// Relies on SmallVec::push: the item is appended after the others.
    #[verifier::external_body]
    pub(crate) fn push(&mut self, e: EdgeWalk)
        requires
            edge_items(*old(self)).len() < EDGE_LIST_LIMIT,
        ensures
            edge_items(*final(self)) == edge_items(*old(self)).push(e),
    {
        self.inner.push(e)
    }

    /// Relies on SmallVec::pop: removes and returns the last item, or returns
    /// `None` and leaves an empty list as it is.
    #[verifier::external_body]
    pub(crate) fn pop(&mut self) -> (r: Option<EdgeWalk>)
        ensures
            edge_items(*old(self)).len() > 0 ==> r == Some(edge_items(*old(self)).last()) && edge_items(
                *final(self),
            ) == edge_items(*old(self)).drop_last(),
            edge_items(*old(self)).len() == 0 ==> r is None && edge_items(*final(self)) == edge_items(
                *old(self),
            ),
    {
        self.inner.pop()
    }

    /// A list holding `edges`, in order.
    pub fn from_vec(edges: Vec<EdgeWalk>) -> (r: EdgeList)
        requires
            edges.len() <= EDGE_LIST_LIMIT,
        ensures
            edge_items(r) == edges@,
    {
        let mut r = EdgeList::empty();
        let mut i: usize = 0;
        while i < edges.len()
            invariant
                i <= edges.len(),
                edges.len() <= EDGE_LIST_LIMIT,
                edge_items(r) == edges@.subrange(0, i as int),
            decreases edges.len() - i,
        {
            r.push(edges[i]);
            assert(edges@.subrange(0, i + 1) =~= edges@.subrange(0, i as int).push(edges@[i as int]));
            i += 1;
        }
        assert(edges@.subrange(0, i as int) =~= edges@);
        r
    }

    /// The held edges, in order.
    pub fn to_vec(&self) -> (r: Vec<EdgeWalk>)
        ensures
            r@ == edge_items(*self),
    {
        let n = self.len();
        let mut r: Vec<EdgeWalk> = Vec::new();
        let mut i: usize = 0;
        while i < n
            invariant
                n == edge_items(*self).len(),
                i <= n,
                r@ == edge_items(*self).subrange(0, i as int),
            decreases n - i,
        {
            r.push(self.at(i));
            assert(edge_items(*self).subrange(0, i + 1) =~= edge_items(*self).subrange(0, i as int).push(
                edge_items(*self)[i as int],
            ));
            i += 1;
        }
        assert(edge_items(*self).subrange(0, i as int) =~= edge_items(*self));
        r
    }
}

} // verus!
