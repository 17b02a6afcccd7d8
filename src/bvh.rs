//! Shape of the bounding-volume hierarchy: which primitives sit under which
//! node. Each inner node picks a random axis, orders its primitives by the
//! minimum corner of their bounding boxes on that axis, and hands the lower
//! half to its left child and the rest to its right child.
use rand::rngs::ThreadRng;
use vstd::prelude::*;
use vstd::arithmetic::power::lemma_pow0;
use vstd::arithmetic::power2::{lemma_pow2_unfold, pow2};
use vstd::seq_lib::lemma_multiset_commutative;

verus! {

broadcast use vstd::seq_lib::group_to_multiset_ensures;

/// rand's per-thread generator, carried through as an opaque value.
#[verifier::external_type_specification]
#[verifier::external_body]
pub struct ExThreadRng(ThreadRng);

/// A primitive as the hierarchy sees it: its index in the scene and, for each
/// axis, a key that orders primitives as the minimum corner of their bounding
/// boxes does on that axis.
#[derive(Clone, Copy, Debug, PartialEq, Eq, Structural)]
pub struct PrimKey {
    pub id: usize,
    pub x: u64,
    pub y: u64,
    pub z: u64,
}

/// The key of `p` on axis `a` (0, 1 or 2).
pub open spec fn key_of(p: PrimKey, a: int) -> u64 {
    if a == 0 {
        p.x
    } else if a == 1 {
        p.y
    } else {
        p.z
    }
}

impl PrimKey {
    pub fn key(&self, axis: usize) -> (k: u64)
        requires
            axis < 3,
        ensures
            k == key_of(*self, axis as int),
    {
        if axis == 0 {
            self.x
        } else if axis == 1 {
            self.y
        } else {
            self.z
        }
    }
}

/// `s` is in ascending order of the keys on axis `a`.
pub open spec fn sorted_on(s: Seq<PrimKey>, a: int) -> bool {
    forall|i: int, j: int| 0 <= i <= j < s.len() ==> key_of(s[i], a) <= key_of(s[j], a)
}

/// No key of `lo` on axis `a` exceeds a key of `hi` on that axis.
pub open spec fn separated(lo: Seq<PrimKey>, hi: Seq<PrimKey>, a: int) -> bool {
    forall|i: int, j: int|
        0 <= i < lo.len() && 0 <= j < hi.len() ==> key_of(lo[i], a) <= key_of(hi[j], a)
}

/// Relies on rand's Rng::gen_range over `0..3`: the axis drawn is 0, 1 or 2.
#[verifier::external_body]
fn random_axis(rng: &mut ThreadRng) -> (axis: usize)
    ensures
        axis < 3,
{
    rand::Rng::gen_range(rng, 0..3)
}

/// Relies on slice::sort_by_key: the same elements, in ascending order of the key.
#[verifier::external_body]
fn sort_on_axis(list: &mut Vec<PrimKey>, axis: usize)
    requires
        axis < 3,
    ensures
        final(list)@.to_multiset() == old(list)@.to_multiset(),
        sorted_on(final(list)@, axis as int),
{
    list.sort_by_key(|p| p.key(axis));
}

/// A node of the hierarchy. A node over a single primitive has that primitive
/// as both of its children; such a node is a `Leaf`. Every other node is a
/// `Branch` over two nodes.
#[derive(Debug)]
pub enum BvhNode {
    Leaf(PrimKey),
    Branch(Box<BvhNode>, Box<BvhNode>),
}

impl BvhNode {
    /// The primitives under this node, left to right.
    pub open spec fn leaves(self) -> Seq<PrimKey>
        decreases self,
    {
        match self {
            BvhNode::Leaf(p) => seq![p],
            BvhNode::Branch(l, r) => l.leaves() + r.leaves(),
        }
    }

    /// Number of levels: one for a leaf.
    pub open spec fn height(self) -> nat
        decreases self,
    {
        match self {
            BvhNode::Leaf(_) => 1,
            BvhNode::Branch(l, r) => 1 + if l.height() >= r.height() {
                l.height()
            } else {
                r.height()
            },
        }
    }

    /// Every branch gives its left child the lower half (rounded down) of its
    /// primitives, and on some axis no key on the left exceeds a key on the right.
    pub open spec fn is_split(self) -> bool
        decreases self,
    {
        match self {
            BvhNode::Leaf(_) => true,
            BvhNode::Branch(l, r) => {
                &&& l.is_split()
                &&& r.is_split()
                &&& l.leaves().len() == (l.leaves().len() + r.leaves().len()) / 2
                &&& exists|a: int| 0 <= a < 3 && #[trigger] separated(l.leaves(), r.leaves(), a)
            },
        }
    }

    proof fn lemma_leaves_nonempty(self)
        ensures
            self.leaves().len() >= 1,
        decreases self,
    {
        if let BvhNode::Branch(l, r) = self {
            l.lemma_leaves_nonempty();
            r.lemma_leaves_nonempty();
        }
    }

    /// A split tree over `n` primitives has fewer than `log2(n) + 2` levels:
    /// `2^(height - 1) < 2 * n`, as each level down halves the primitives,
    /// rounding up.
    pub proof fn lemma_split_depth(self)
        requires
            self.is_split(),
        ensures
            pow2((self.height() - 1) as nat) < 2 * self.leaves().len(),
        decreases self,
    {
        match self {
            BvhNode::Leaf(_) => {
                lemma_pow0(2);
            },
            BvhNode::Branch(l, r) => {
                l.lemma_leaves_nonempty();
                r.lemma_leaves_nonempty();
                l.lemma_split_depth();
                r.lemma_split_depth();
                let n = self.leaves().len();
                let m = if l.height() >= r.height() {
                    l.height()
                } else {
                    r.height()
                };
                let c = if l.height() >= r.height() {
                    l.leaves().len()
                } else {
                    r.leaves().len()
                };
                assert(pow2((m - 1) as nat) < 2 * c);
                assert(2 * c <= n + 1);
                lemma_pow2_unfold(m);
                if m == 1 {
                    lemma_pow0(2);
                } else {
                    lemma_pow2_unfold((m - 1) as nat);
                }
            },
        }
    }

    /// Builds the hierarchy over `list[start..end]`, drawing one axis per node
    /// from `rng`.
    pub fn new(list: &Vec<PrimKey>, rng: &mut ThreadRng, start: usize, end: usize) -> (node: BvhNode)
        requires
            start < end <= list@.len(),
        ensures
            node.leaves().to_multiset() == list@.subrange(start as int, end as int).to_multiset(),
            node.is_split(),
        decreases end - start,
    {
        let axis = random_axis(rng);
        let span = end - start;
        if span == 1 {
            let node = BvhNode::Leaf(list[start]);
            assert(node.leaves() =~= list@.subrange(start as int, end as int));
            return node;
        }
        let mut sorted: Vec<PrimKey> = Vec::new();
        let mut k: usize = start;
        while k < end
            invariant
                start <= k <= end <= list@.len(),
                sorted@ == list@.subrange(start as int, k as int),
            decreases end - k,
        {
            sorted.push(list[k]);
            assert(sorted@ =~= list@.subrange(start as int, k + 1));
            k += 1;
        }
        let ghost unsorted = sorted@;
        sort_on_axis(&mut sorted, axis);
        assert(sorted@.len() == span) by {
            assert(sorted@.to_multiset().len() == unsorted.to_multiset().len());
        }
        let mid = span / 2;
        let left = BvhNode::new(&sorted, rng, 0, mid);
        let right = BvhNode::new(&sorted, rng, mid, span);
        proof {
            let s = sorted@;
            let lo = s.subrange(0, mid as int);
            let hi = s.subrange(mid as int, span as int);
            assert(s =~= lo + hi);
            lemma_multiset_commutative(lo, hi);
            lemma_multiset_commutative(left.leaves(), right.leaves());
            assert(left.leaves().len() == mid) by {
                assert(left.leaves().to_multiset().len() == lo.to_multiset().len());
            }
            assert(right.leaves().len() == span - mid) by {
                assert(right.leaves().to_multiset().len() == hi.to_multiset().len());
            }
            assert forall|i: int, j: int|
                0 <= i < left.leaves().len() && 0 <= j < right.leaves().len() implies
                key_of(left.leaves()[i], axis as int) <= key_of(right.leaves()[j], axis as int) by {
                let x = left.leaves()[i];
                let y = right.leaves()[j];
                assert(left.leaves().contains(x));
                assert(right.leaves().contains(y));
                assert(left.leaves().to_multiset().count(x) > 0);
                assert(right.leaves().to_multiset().count(y) > 0);
                assert(lo.to_multiset().count(x) > 0);
                assert(hi.to_multiset().count(y) > 0);
                assert(lo.contains(x));
                assert(hi.contains(y));
                let p = choose|p: int| 0 <= p < lo.len() && lo[p] == x;
                let q = choose|q: int| 0 <= q < hi.len() && hi[q] == y;
                assert(s[p] == x);
                assert(s[mid + q] == y);
            }
            assert(separated(left.leaves(), right.leaves(), axis as int));
        }
        BvhNode::Branch(Box::new(left), Box::new(right))
    }
}

} // verus!
