//! A persistent tree over a sequence of bytes.
//!
//! A tree is never changed once made. An edit returns a new root, and the
//! subtrees that the edit does not touch are shared between the old version
//! and the new one.
use crate::error::Error;
use std::ops::Range;
use std::sync::Arc;
use vstd::prelude::*;

verus! {

/// The largest number of bytes in a leaf that [`ChunkTree::from_slice`] makes.
pub const CHUNK_SIZE: usize = 1024;

/// A node of the tree, and with it the tree below that node. The trees that
/// [`ChunkTree::new`], [`ChunkTree::from_slice`], [`ChunkTree::insert`] and
/// [`ChunkTree::remove`] hand out are well formed ([`ChunkTree::wf`]).
#[derive(Debug)]
pub enum ChunkTree<'a> {
    /// A run of bytes.
    Leaf { data: &'a [u8] },
    /// Three children in order, and the number of bytes below them.
    Internal {
        left: Arc<ChunkTree<'a>>,
        mid: Arc<ChunkTree<'a>>,
        right: Arc<ChunkTree<'a>>,
        size: usize,
    },
}

impl<'a> View for ChunkTree<'a> {
    type V = Seq<u8>;

    /// The bytes of the tree, in order.
    open spec fn view(&self) -> Seq<u8> {
        self.bytes()
    }
}

/// `pos` moved left by `amount`, stopping at zero.
pub open spec fn shifted_left(pos: int, amount: int) -> int {
    if amount < pos {
        pos - amount
    } else {
        0
    }
}

/// `pos`, or `len` where `pos` lies past it.
pub open spec fn clamped(pos: int, len: int) -> int {
    if pos < len {
        pos
    } else {
        len
    }
}

/// `s` without the positions from `start` up to `end`, as far as they lie in
/// `s`.
pub open spec fn without_span(s: Seq<u8>, start: int, end: int) -> Seq<u8> {
    s.subrange(0, clamped(start, s.len() as int)) + s.subrange(
        clamped(end, s.len() as int),
        s.len() as int,
    )
}

/// `s` with `data` put in before position `index`.
pub open spec fn with_insert(s: Seq<u8>, index: int, data: Seq<u8>) -> Seq<u8> {
    s.subrange(0, index) + data + s.subrange(index, s.len() as int)
}

/// Taking a span out of two sequences laid end to end takes from each of them
/// the part of the span that falls into it.
pub proof fn lemma_without_span_concat(a: Seq<u8>, b: Seq<u8>, start: int, end: int)
    requires
        0 <= start <= end,
    ensures
        without_span(a + b, start, end) == without_span(a, start, end) + without_span(
            b,
            shifted_left(start, a.len() as int),
            shifted_left(end, a.len() as int),
        ),
{
    let whole = a + b;
    let n = a.len() as int;
    let cut_a = without_span(a, start, end);
    let cut_b = without_span(b, shifted_left(start, n), shifted_left(end, n));
    assert(without_span(whole, start, end) =~= cut_a + cut_b);
}

impl<'a> ChunkTree<'a> {
    /// The bytes of the leaves, from left to right.
    pub open spec fn bytes(&self) -> Seq<u8>
        decreases self,
    {
        match self {
            ChunkTree::Leaf { data } => data@,
            ChunkTree::Internal { left, mid, right, .. } => left.bytes() + mid.bytes()
                + right.bytes(),
        }
    }

    /// The length that the node records: a leaf's own, an internal node's
    /// cached one.
    pub open spec fn spec_len(&self) -> nat {
        match self {
            ChunkTree::Leaf { data } => data@.len(),
            ChunkTree::Internal { size, .. } => *size as nat,
        }
    }

    /// Every cached size is the sum of the lengths of the three children.
    pub open spec fn wf(&self) -> bool
        decreases self,
    {
        match self {
            ChunkTree::Leaf { .. } => true,
            ChunkTree::Internal { left, mid, right, size } => {
                &&& left.wf()
                &&& mid.wf()
                &&& right.wf()
                &&& *size == left.spec_len() + mid.spec_len() + right.spec_len()
            },
        }
    }

    /// No leaf holds more than [`CHUNK_SIZE`] bytes.
    pub open spec fn chunked(&self) -> bool
        decreases self,
    {
        match self {
            ChunkTree::Leaf { data } => data@.len() <= CHUNK_SIZE,
            ChunkTree::Internal { left, mid, right, .. } => {
                &&& left.chunked()
                &&& mid.chunked()
                &&& right.chunked()
            },
        }
    }

    /// The number of nodes of the tree, leaves and internal nodes alike.
    pub open spec fn node_count(&self) -> nat
        decreases self,
    {
        match self {
            ChunkTree::Leaf { .. } => 1,
            ChunkTree::Internal { left, mid, right, .. } => 1 + left.node_count()
                + mid.node_count() + right.node_count(),
        }
    }

    /// The number of internal nodes on the longest way from the root to a
    /// leaf.
    pub open spec fn depth(&self) -> nat
        decreases self,
    {
        match self {
            ChunkTree::Leaf { .. } => 0,
            ChunkTree::Internal { left, mid, right, .. } => {
                let below = if left.depth() >= mid.depth() && left.depth() >= right.depth() {
                    left.depth()
                } else if mid.depth() >= right.depth() {
                    mid.depth()
                } else {
                    right.depth()
                };
                1 + below
            },
        }
    }

    /// The tree has the shape that building gives to `s`: one leaf where `s`
    /// fits in a chunk; otherwise the two halves of `s` built the same way,
    /// on either side of an empty leaf.
    pub open spec fn is_build_of(&self, s: Seq<u8>) -> bool
        decreases s.len(),
    {
        if s.len() <= CHUNK_SIZE {
            self matches ChunkTree::Leaf { data } && data@ == s
        } else {
            let half = s.len() as int / 2;
            &&& self matches ChunkTree::Internal { left, mid, right, size }
            &&& left.is_build_of(s.subrange(0, half))
            &&& mid.is_build_of(Seq::empty())
            &&& right.is_build_of(s.subrange(half, s.len() as int))
            &&& size == s.len()
        }
    }

    /// A built tree is well formed, holds the bytes it was built from, and
    /// has no leaf over the chunk size.
    pub proof fn lemma_build(&self, s: Seq<u8>)
        requires
            self.is_build_of(s),
        ensures
            self.wf(),
            self.chunked(),
            self.bytes() == s,
            self.spec_len() == s.len(),
        decreases s.len(),
    {
        if s.len() <= CHUNK_SIZE {
        } else {
            let half = s.len() as int / 2;
            match self {
                ChunkTree::Leaf { .. } => {},
                ChunkTree::Internal { left, mid, right, .. } => {
                    left.lemma_build(s.subrange(0, half));
                    mid.lemma_build(Seq::empty());
                    right.lemma_build(s.subrange(half, s.len() as int));
                    assert(self.bytes() =~= s);
                },
            }
        }
    }

    /// In a well-formed tree the recorded length is the number of bytes.
    pub proof fn lemma_len(&self)
        requires
            self.wf(),
        ensures
            self.spec_len() == self.bytes().len(),
        decreases self,
    {
        match self {
            ChunkTree::Leaf { .. } => {},
            ChunkTree::Internal { left, mid, right, .. } => {
                left.lemma_len();
                mid.lemma_len();
                right.lemma_len();
            },
        }
    }

    /// The tree is what inserting `data` at `index` makes of `old`. A leaf
    /// becomes an internal node over what stood before `index`, the new
    /// bytes, and what stood from `index` on, each built afresh. An internal
    /// node gets a new child in the place of the one that `index` falls into;
    /// its other two children are those of `old`.
    pub open spec fn is_insert_of(&self, old: &ChunkTree<'a>, index: int, data: Seq<u8>) -> bool
        decreases old,
    {
        match old {
            ChunkTree::Leaf { data: leaf } => {
                &&& self matches ChunkTree::Internal { left, mid, right, size }
                &&& left.is_build_of(leaf@.subrange(0, index))
                &&& mid.is_build_of(data)
                &&& right.is_build_of(leaf@.subrange(index, leaf@.len() as int))
                &&& size == leaf@.len() + data.len()
            },
            ChunkTree::Internal { left: old_left, mid: old_mid, right: old_right, size: old_size } => {
                &&& self matches ChunkTree::Internal { left, mid, right, size }
                &&& size == old_size + data.len()
                &&& if index <= old_left.spec_len() {
                    &&& left.is_insert_of(old_left, index, data)
                    &&& mid == old_mid
                    &&& right == old_right
                } else if index <= old_left.spec_len() + old_mid.spec_len() {
                    &&& left == old_left
                    &&& mid.is_insert_of(old_mid, index - old_left.spec_len(), data)
                    &&& right == old_right
                } else {
                    &&& left == old_left
                    &&& mid == old_mid
                    &&& right.is_insert_of(
                        old_right,
                        index - old_left.spec_len() - old_mid.spec_len(),
                        data,
                    )
                }
            },
        }
    }

    /// Inserting splices the new bytes in at `index`, adds their number to
    /// the length, and keeps the tree well formed and its leaves within the
    /// chunk size.
    pub proof fn lemma_insert(&self, old: &ChunkTree<'a>, index: int, data: Seq<u8>)
        requires
            old.wf(),
            0 <= index <= old.spec_len(),
            self.is_insert_of(old, index, data),
        ensures
            self.wf(),
            self.bytes() == with_insert(old.bytes(), index, data),
            self.spec_len() == old.spec_len() + data.len(),
            old.chunked() ==> self.chunked(),
        decreases old,
    {
        old.lemma_len();
        match (self, old) {
            (
                ChunkTree::Internal { left, mid, right, .. },
                ChunkTree::Leaf { data: leaf },
            ) => {
                left.lemma_build(leaf@.subrange(0, index));
                mid.lemma_build(data);
                right.lemma_build(leaf@.subrange(index, leaf@.len() as int));
            },
            (
                ChunkTree::Internal { left, mid, right, .. },
                ChunkTree::Internal { left: old_left, mid: old_mid, right: old_right, .. },
            ) => {
                old_left.lemma_len();
                old_mid.lemma_len();
                old_right.lemma_len();
                let l = old_left.spec_len() as int;
                let m = old_mid.spec_len() as int;
                if index <= l {
                    left.lemma_insert(old_left, index, data);
                } else if index <= l + m {
                    mid.lemma_insert(old_mid, index - l, data);
                } else {
                    right.lemma_insert(old_right, index - l - m, data);
                }
                assert(self.bytes() =~= with_insert(old.bytes(), index, data));
            },
            _ => {},
        }
    }

    /// The subtrees of `old` that hang beside the path from its root to
    /// position `index` are subtrees of `self`, in the same places.
    pub open spec fn shares_beside_path(&self, old: &ChunkTree<'a>, index: int) -> bool
        decreases old,
    {
        match old {
            ChunkTree::Leaf { .. } => true,
            ChunkTree::Internal { left: old_left, mid: old_mid, right: old_right, .. } => {
                &&& self matches ChunkTree::Internal { left, mid, right, .. }
                &&& if index <= old_left.spec_len() {
                    &&& left.shares_beside_path(old_left, index)
                    &&& mid == old_mid
                    &&& right == old_right
                } else if index <= old_left.spec_len() + old_mid.spec_len() {
                    &&& left == old_left
                    &&& mid.shares_beside_path(old_mid, index - old_left.spec_len())
                    &&& right == old_right
                } else {
                    &&& left == old_left
                    &&& mid == old_mid
                    &&& right.shares_beside_path(
                        old_right,
                        index - old_left.spec_len() - old_mid.spec_len(),
                    )
                }
            },
        }
    }

    /// Inserting makes new nodes along one path only: every subtree of the
    /// old version beside the path to `index` is a subtree of the new one.
    pub proof fn lemma_insert_shares(&self, old: &ChunkTree<'a>, index: int, data: Seq<u8>)
        requires
            self.is_insert_of(old, index, data),
        ensures
            self.shares_beside_path(old, index),
        decreases old,
    {
        match (self, old) {
            (
                ChunkTree::Internal { left, mid, right, .. },
                ChunkTree::Internal { left: old_left, mid: old_mid, right: old_right, .. },
            ) => {
                let l = old_left.spec_len() as int;
                let m = old_mid.spec_len() as int;
                if index <= l {
                    left.lemma_insert_shares(old_left, index, data);
                } else if index <= l + m {
                    mid.lemma_insert_shares(old_mid, index - l, data);
                } else {
                    right.lemma_insert_shares(old_right, index - l - m, data);
                }
            },
            _ => {},
        }
    }

    /// The tree is what removing the positions from `start` up to `end`
    /// makes of `old`, where the span may reach past the end of `old`. A
    /// leaf becomes an internal node over what stood before the span and
    /// what stood behind it, each built afresh, with an empty leaf between
    /// them. An internal node that ends before `start` keeps its children;
    /// otherwise each child has its part of the span removed, the left child
    /// in the coordinates of `old`, the other two in their own.
    pub open spec fn is_remove_of(&self, old: &ChunkTree<'a>, start: int, end: int) -> bool
        decreases old,
    {
        match old {
            ChunkTree::Leaf { data } => {
                let len = data@.len() as int;
                &&& self matches ChunkTree::Internal { left, mid, right, size }
                &&& left.is_build_of(data@.subrange(0, clamped(start, len)))
                &&& mid.is_build_of(Seq::empty())
                &&& right.is_build_of(data@.subrange(clamped(end, len), len))
                &&& size == len - (clamped(end, len) - clamped(start, len))
            },
            ChunkTree::Internal { left: old_left, mid: old_mid, right: old_right, size: old_size } => {
                let before_mid = old_left.spec_len() as int;
                let before_right = (old_left.spec_len() + old_mid.spec_len()) as int;
                &&& self matches ChunkTree::Internal { left, mid, right, size }
                &&& if start > *old_size {
                    &&& left == old_left
                    &&& mid == old_mid
                    &&& right == old_right
                    &&& size == *old_size
                } else {
                    &&& left.is_remove_of(old_left, start, end)
                    &&& mid.is_remove_of(
                        old_mid,
                        shifted_left(start, before_mid),
                        shifted_left(end, before_mid),
                    )
                    &&& right.is_remove_of(
                        old_right,
                        shifted_left(start, before_right),
                        shifted_left(end, before_right),
                    )
                    &&& size == left.spec_len() + mid.spec_len() + right.spec_len()
                }
            },
        }
    }

    /// Removing a span deletes the bytes at its positions, takes their number
    /// from the length, and keeps the tree well formed and its leaves within
    /// the chunk size.
    pub proof fn lemma_remove(&self, old: &ChunkTree<'a>, start: int, end: int)
        requires
            old.wf(),
            0 <= start <= end,
            self.is_remove_of(old, start, end),
        ensures
            self.wf(),
            self.bytes() == without_span(old.bytes(), start, end),
            self.spec_len() == old.spec_len() - (clamped(end, old.spec_len() as int) - clamped(
                start,
                old.spec_len() as int,
            )),
            old.chunked() ==> self.chunked(),
        decreases old,
    {
        old.lemma_len();
        match (self, old) {
            (ChunkTree::Internal { left, mid, right, .. }, ChunkTree::Leaf { data }) => {
                let len = data@.len() as int;
                left.lemma_build(data@.subrange(0, clamped(start, len)));
                mid.lemma_build(Seq::empty());
                right.lemma_build(data@.subrange(clamped(end, len), len));
                assert(self.bytes() =~= without_span(old.bytes(), start, end));
            },
            (
                ChunkTree::Internal { left, mid, right, .. },
                ChunkTree::Internal { left: old_left, mid: old_mid, right: old_right, size: old_size },
            ) => {
                old_left.lemma_len();
                old_mid.lemma_len();
                old_right.lemma_len();
                let l = old_left.spec_len() as int;
                let m = old_mid.spec_len() as int;
                if start > *old_size {
                    assert(self.bytes() =~= without_span(old.bytes(), start, end));
                } else {
                    left.lemma_remove(old_left, start, end);
                    mid.lemma_remove(old_mid, shifted_left(start, l), shifted_left(end, l));
                    right.lemma_remove(
                        old_right,
                        shifted_left(start, l + m),
                        shifted_left(end, l + m),
                    );
                    lemma_without_span_concat(old_left.bytes(), old_mid.bytes(), start, end);
                    lemma_without_span_concat(
                        old_left.bytes() + old_mid.bytes(),
                        old_right.bytes(),
                        start,
                        end,
                    );
                }
            },
            _ => {},
        }
    }

    /// Removing keeps the children of an internal node that ends before the
    /// span starts: the new node has the three children of the old one.
    pub proof fn lemma_remove_shares_node_before_span(
        &self,
        old: &ChunkTree<'a>,
        start: int,
        end: int,
    )
        requires
            self.is_remove_of(old, start, end),
            old is Internal,
            start > old.spec_len(),
        ensures
            self is Internal,
            self->left == old->left,
            self->mid == old->mid,
            self->right == old->right,
            self->size == old->size,
    {
    }

    /// Inserting never makes a tree smaller or flatter: the new version has
    /// at least the nodes and the depth of the old one.
    pub proof fn lemma_insert_grows(&self, old: &ChunkTree<'a>, index: int, data: Seq<u8>)
        requires
            self.is_insert_of(old, index, data),
        ensures
            self.node_count() >= old.node_count(),
            self.depth() >= old.depth(),
        decreases old,
    {
        match (self, old) {
            (
                ChunkTree::Internal { left, mid, right, .. },
                ChunkTree::Internal { left: old_left, mid: old_mid, right: old_right, .. },
            ) => {
                let l = old_left.spec_len() as int;
                let m = old_mid.spec_len() as int;
                if index <= l {
                    left.lemma_insert_grows(old_left, index, data);
                } else if index <= l + m {
                    mid.lemma_insert_grows(old_mid, index - l, data);
                } else {
                    right.lemma_insert_grows(old_right, index - l - m, data);
                }
            },
            _ => {},
        }
    }

    /// Removing never collapses nodes: the new version has at least the nodes
    /// and the depth of the old one, and its root is an internal node.
    pub proof fn lemma_remove_grows(&self, old: &ChunkTree<'a>, start: int, end: int)
        requires
            self.is_remove_of(old, start, end),
        ensures
            self is Internal,
            self.node_count() >= old.node_count(),
            self.depth() >= old.depth(),
        decreases old,
    {
        match (self, old) {
            (
                ChunkTree::Internal { left, mid, right, .. },
                ChunkTree::Internal { left: old_left, mid: old_mid, right: old_right, size: old_size },
            ) => {
                let l = old_left.spec_len() as int;
                let m = old_mid.spec_len() as int;
                if start <= *old_size {
                    left.lemma_remove_grows(old_left, start, end);
                    mid.lemma_remove_grows(old_mid, shifted_left(start, l), shifted_left(end, l));
                    right.lemma_remove_grows(
                        old_right,
                        shifted_left(start, l + m),
                        shifted_left(end, l + m),
                    );
                }
            },
            _ => {},
        }
    }

    /// A tree with no bytes.
    pub fn new() -> (tree: Arc<ChunkTree<'a>>)
        ensures
            tree.is_build_of(Seq::empty()),
            tree.wf(),
            tree.chunked(),
            tree@ == Seq::<u8>::empty(),
    {
        let tree = Self::from_slice(&[]);
        assert(tree@ =~= Seq::<u8>::empty());
        tree
    }

    /// Builds a tree over `data`, halving it until each piece fits in a leaf.
    /// The leaves borrow from `data`.
    pub fn from_slice(data: &'a [u8]) -> (tree: Arc<ChunkTree<'a>>)
        ensures
            tree.is_build_of(data@),
            tree.wf(),
            tree.chunked(),
            tree@ == data@,
            tree.spec_len() == data@.len(),
        decreases data@.len(),
    {
        if data.len() <= CHUNK_SIZE {
            return Arc::new(ChunkTree::Leaf { data });
        }
        let size: usize = data.len();
        let mid_index: usize = size / 2;
        let left = Self::from_slice(&data[0..mid_index]);
        let right = Self::from_slice(&data[mid_index..size]);
        let mid = Arc::new(ChunkTree::Leaf { data: &data[0..0] });
        assert(mid.is_build_of(Seq::empty())) by {
            assert(data@.subrange(0, 0) =~= Seq::<u8>::empty());
        }
        let tree = Arc::new(ChunkTree::Internal { left, mid, right, size });
        proof {
            tree.lemma_build(data@);
        }
        tree
    }

    /// The number of bytes in the tree, read from the root.
    pub fn len(&self) -> (n: usize)
        requires
            self.wf(),
        ensures
            n == self@.len(),
            n == self.spec_len(),
    {
        proof {
            self.lemma_len();
        }
        match self {
            ChunkTree::Leaf { data } => data.len(),
            ChunkTree::Internal { size, .. } => *size,
        }
    }

    /// Whether the tree holds no byte.
    pub fn is_empty(&self) -> (empty: bool)
        requires
            self.wf(),
        ensures
            empty == (self@.len() == 0),
    {
        proof {
            self.lemma_len();
        }
        match self {
            ChunkTree::Leaf { data } => data.is_empty(),
            ChunkTree::Internal { size, .. } => *size == 0,
        }
    }

    /// The bytes of the tree as one vector.
    pub fn collect_bytes(&self) -> (v: Vec<u8>)
        ensures
            v@ == self@,
    {
        let mut v = Vec::new();
        self.collect_bytes_into(&mut v);
        assert(v@ =~= self@);
        v
    }

    /// Appends the bytes of the tree to `output`, leaf by leaf from the left.
    pub fn collect_bytes_into(&self, output: &mut Vec<u8>)
        ensures
            final(output)@ == old(output)@ + self@,
        decreases self,
    {
        match self {
            ChunkTree::Leaf { data } => {
                output.extend_from_slice(data);
                assert(output@ =~= old(output)@ + self@);
            },
            ChunkTree::Internal { left, mid, right, size: _ } => {
                left.collect_bytes_into(output);
                mid.collect_bytes_into(output);
                right.collect_bytes_into(output);
                assert(output@ =~= old(output)@ + self@);
            },
        }
    }

    /// Inserts `data` before position `index`, which may be the length of the
    /// tree. The result is a new tree; `self` stays as it was, and the
    /// subtrees beside the path to `index` are shared with it. The length
    /// of the result has to fit in `usize`.
    pub fn insert(&self, index: usize, data: &'a [u8]) -> (result: Result<Arc<ChunkTree<'a>>, Error>)
        requires
            self.wf(),
            self@.len() + data@.len() <= usize::MAX,
        ensures
            match result {
                Ok(tree) => {
                    &&& index <= self@.len()
                    &&& tree.is_insert_of(self, index as int, data@)
                    &&& tree.wf()
                    &&& tree@ == with_insert(self@, index as int, data@)
                    &&& tree.spec_len() == self@.len() + data@.len()
                    &&& tree.shares_beside_path(self, index as int)
                    &&& tree.node_count() >= self.node_count()
                    &&& tree.depth() >= self.depth()
                    &&& self.chunked() ==> tree.chunked()
                },
                Err(e) => index > self@.len() && e == Error::IndexOutOfBounds,
            },
    {
        if index > self.len() {
            return Err(Error::IndexOutOfBounds);
        }
        proof {
            self.lemma_len();
        }
        let tree = self.insert_within(index, data);
        proof {
            tree.lemma_insert(self, index as int, data@);
            tree.lemma_insert_shares(self, index as int, data@);
            tree.lemma_insert_grows(self, index as int, data@);
        }
        Ok(tree)
    }

    /// The insertion itself, for an index that lies in the tree.
    fn insert_within(&self, index: usize, data: &'a [u8]) -> (tree: Arc<ChunkTree<'a>>)
        requires
            self.wf(),
            index <= self.spec_len(),
            self.spec_len() + data@.len() <= usize::MAX,
        ensures
            tree.is_insert_of(self, index as int, data@),
        decreases self,
    {
        match self {
            ChunkTree::Leaf { data: leaf_data } => {
                let left = Self::from_slice(&leaf_data[0..index]);
                let mid = Self::from_slice(data);
                let right = Self::from_slice(&leaf_data[index..leaf_data.len()]);
                Arc::new(
                    ChunkTree::Internal { left, mid, right, size: leaf_data.len() + data.len() },
                )
            },
            ChunkTree::Internal { left, mid, right, size: _ } => {
                let left_size = left.len();
                if index <= left_size {
                    let new_left = left.insert_within(index, data);
                    proof {
                        new_left.lemma_insert(left, index as int, data@);
                    }
                    let size = new_left.len() + mid.len() + right.len();
                    Arc::new(
                        ChunkTree::Internal {
                            left: new_left,
                            mid: mid.clone(),
                            right: right.clone(),
                            size,
                        },
                    )
                } else if index <= left_size + mid.len() {
                    let new_mid = mid.insert_within(index - left_size, data);
                    proof {
                        new_mid.lemma_insert(mid, index - left_size, data@);
                    }
                    let size = left_size + new_mid.len() + right.len();
                    Arc::new(
                        ChunkTree::Internal {
                            left: left.clone(),
                            mid: new_mid,
                            right: right.clone(),
                            size,
                        },
                    )
                } else {
                    let mid_size = mid.len();
                    let new_right = right.insert_within(index - left_size - mid_size, data);
                    proof {
                        new_right.lemma_insert(right, index - left_size - mid_size, data@);
                    }
                    let size = left_size + mid_size + new_right.len();
                    Arc::new(
                        ChunkTree::Internal {
                            left: left.clone(),
                            mid: mid.clone(),
                            right: new_right,
                            size,
                        },
                    )
                }
            },
        }
    }

    /// `range` moved left by `amount`, each end stopping at zero.
    pub fn range_shift_left(range: &Range<usize>, amount: usize) -> (shifted: Range<usize>)
        ensures
            shifted.start == shifted_left(range.start as int, amount as int),
            shifted.end == shifted_left(range.end as int, amount as int),
    {
        let start = if amount < range.start {
            range.start - amount
        } else {
            0
        };
        let end = if amount < range.end {
            range.end - amount
        } else {
            0
        };
        start..end
    }

    /// Removes the bytes at the positions of `range`. A range that ends
    /// before it starts is refused as `InvalidRange`, and one that ends past
    /// the end of the tree as `IndexOutOfBounds`; both are refused at the
    /// node that `remove` is called on, before anything is built. Below that
    /// node every subtree has taken out of it the part of the range that
    /// falls into it. The result is a new tree whose root is an internal
    /// node; `self` stays as it was.
    pub fn remove(&self, range: Range<usize>) -> (result: Result<Arc<ChunkTree<'a>>, Error>)
        requires
            self.wf(),
        ensures
            match result {
                Ok(tree) => {
                    &&& range.start <= range.end <= self@.len()
                    &&& tree.is_remove_of(self, range.start as int, range.end as int)
                    &&& tree.wf()
                    &&& tree@ == self@.subrange(0, range.start as int) + self@.subrange(
                        range.end as int,
                        self@.len() as int,
                    )
                    &&& tree.spec_len() == self@.len() - (range.end - range.start)
                    &&& *tree is Internal
                    &&& tree.node_count() >= self.node_count()
                    &&& tree.depth() >= self.depth()
                    &&& self.chunked() ==> tree.chunked()
                },
                Err(e) => if range.start > range.end {
                    e == Error::InvalidRange
                } else {
                    range.end > self@.len() && e == Error::IndexOutOfBounds
                },
            },
    {
        if range.start > range.end {
            return Err(Error::InvalidRange);
        }
        if range.end > self.len() {
            return Err(Error::IndexOutOfBounds);
        }
        let ghost start = range.start as int;
        let ghost end = range.end as int;
        let tree = self.remove_overlap(range);
        proof {
            tree.lemma_remove(self, start, end);
            tree.lemma_remove_grows(self, start, end);
        }
        Ok(tree)
    }

    /// The removal itself: takes out of the tree the part of `range` that
    /// lies in it.
    fn remove_overlap(&self, range: Range<usize>) -> (tree: Arc<ChunkTree<'a>>)
        requires
            self.wf(),
            range.start <= range.end,
        ensures
            tree.is_remove_of(self, range.start as int, range.end as int),
        decreases self,
    {
        match self {
            ChunkTree::Leaf { data } => {
                let len = data.len();
                let start = if range.start < len {
                    range.start
                } else {
                    len
                };
                let end = if range.end < len {
                    range.end
                } else {
                    len
                };
                let left = Self::from_slice(&data[0..start]);
                let mid = Self::new();
                let right = Self::from_slice(&data[end..len]);
                Arc::new(ChunkTree::Internal { left, mid, right, size: len - (end - start) })
            },
            ChunkTree::Internal { left, mid, right, size } => {
                if range.start > *size {
                    return Arc::new(
                        ChunkTree::Internal {
                            left: left.clone(),
                            mid: mid.clone(),
                            right: right.clone(),
                            size: *size,
                        },
                    );
                }
                let left_size = left.len();
                let mid_size = mid.len();
                let new_left = left.remove_overlap(range.start..range.end);
                let new_mid = mid.remove_overlap(Self::range_shift_left(&range, left_size));
                let new_right = right.remove_overlap(
                    Self::range_shift_left(&range, left_size + mid_size),
                );
                proof {
                    let l = left_size as int;
                    let m = mid_size as int;
                    new_left.lemma_remove(left, range.start as int, range.end as int);
                    new_mid.lemma_remove(
                        mid,
                        shifted_left(range.start as int, l),
                        shifted_left(range.end as int, l),
                    );
                    new_right.lemma_remove(
                        right,
                        shifted_left(range.start as int, l + m),
                        shifted_left(range.end as int, l + m),
                    );
                }
                let new_size = new_left.len() + new_mid.len() + new_right.len();
                Arc::new(
                    ChunkTree::Internal {
                        left: new_left,
                        mid: new_mid,
                        right: new_right,
                        size: new_size,
                    },
                )
            },
        }
    }
}

} // verus!
