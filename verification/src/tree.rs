//! The container: a tree of a fixed depth together with the bound that its
//! coordinates must meet.

use vstd::prelude::*;
use vstd::arithmetic::power2::{
    pow2, lemma2_to64, lemma_pow2_pos, lemma_pow2_unfold, lemma_pow2_strictly_increases,
};
use vstd::laws_eq::obeys_concrete_eq;
use crate::node::{
    Tree, lemma_uniform_content_is_leaf, lemma_content_determines_count,
    lemma_subdivided_has_more_nodes,
};
use crate::sector::{half_width, height_of, is_bisector, in_region, lemma_height_of_half_width};

verus! {

/// A grid of `V` over `N` dimensions with `2^(depth - 1)` cells along each
/// axis.
pub struct SparseTree<V: PartialEq + Copy, const N: usize> {
    root: Tree<V, N>,
    bisector: usize,
}

/// What the machine must be able to hold for a grid of `n` dimensions and the
/// given depth: the number of sectors of a node, and every coordinate.
pub open spec fn representable(n: nat, depth: nat) -> bool {
    &&& pow2(n) <= usize::MAX
    &&& depth > 0
    &&& pow2((depth - 1) as nat) - 1 <= usize::MAX
}

impl<V: PartialEq + Copy, const N: usize> SparseTree<V, N> {
    /// The height of the root's region: the number of times that it can be
    /// halved.
    pub closed spec fn height(&self) -> nat {
        height_of(self.bisector as nat)
    }

    /// The depth that the grid was made with, one more than the height.
    pub closed spec fn depth(&self) -> nat {
        self.height() + 1
    }

    /// The invariant of the container. It holds the demand on the value type
    /// that `==` on it is equality.
    pub closed spec fn wf(&self) -> bool {
        &&& obeys_concrete_eq::<V>()
        &&& representable(N as nat, self.depth())
        &&& is_bisector(self.bisector as nat)
        &&& self.root.wf(self.height())
    }

    /// The coordinate tuples of the grid: `N` coordinates, each below the
    /// side length `2^(depth - 1)`.
    pub open spec fn in_domain(&self, key: Seq<usize>) -> bool {
        in_region(key, N as nat, (self.depth() - 1) as nat)
    }

    /// The value in the cell at `key`.
    pub closed spec fn value_at(&self, key: Seq<usize>) -> V {
        self.root.value_at(self.height(), key)
    }

    /// The number of nodes that the grid is stored in.
    pub closed spec fn nodes(&self) -> nat {
        self.root.node_count(self.height())
    }

    /// The grid as a map from the coordinate tuples of its domain to values.
    pub open spec fn view(&self) -> Map<Seq<usize>, V> {
        Map::new(|key: Seq<usize>| self.in_domain(key), |key: Seq<usize>| self.value_at(key))
    }

    /// A grid of the given depth in which every cell holds `val`.
    pub fn new(depth: u32, val: V) -> (tree: SparseTree<V, N>)
        requires
            obeys_concrete_eq::<V>(),
            representable(N as nat, depth as nat),
        ensures
            tree.wf(),
            tree.depth() == depth,
            tree.nodes() == 1,
            forall|key: Seq<usize>| tree.in_domain(key) ==> #[trigger] tree@[key] == val,
    {
        let mut bisector: usize = 0;
        if depth > 1 {
            bisector = 1;
            let mut i: u32 = 2;
            proof {
                assert(pow2(0) == 1) by {
                    lemma2_to64();
                }
                lemma_pow2_unfold((depth - 1) as nat);
                lemma_pow2_pos((depth - 2) as nat);
            }
            while i < depth
                invariant
                    2 <= i <= depth,
                    bisector == pow2((i - 2) as nat),
                    2 * pow2((depth - 2) as nat) - 1 <= usize::MAX,
                decreases depth - i,
            {
                proof {
                    lemma_pow2_unfold((i - 1) as nat);
                    if i < depth - 1 {
                        lemma_pow2_strictly_increases((i - 1) as nat, (depth - 2) as nat);
                    }
                }
                bisector = bisector * 2;
                i = i + 1;
            }
        }
        proof {
            lemma_height_of_half_width((depth - 1) as nat);
        }
        SparseTree { root: Tree::Leaf(val), bisector }
    }

    /// Tells whether `key` lies in the domain: the bound that `get`, `put`
    /// and `swap` demand of their coordinates.
    pub fn contains(&self, key: &[usize; N]) -> (inside: bool)
        requires
            self.wf(),
        ensures
            inside == self.in_domain(key@),
    {
        proof {
            assert(pow2(0) == 1) by {
                lemma2_to64();
            }
            if self.height() > 0 {
                lemma_pow2_unfold(self.height());
                lemma_pow2_pos((self.height() - 1) as nat);
            }
        }
        let mut i: usize = 0;
        while i < N
            invariant
                i <= N,
                key@.len() == N,
                self.bisector == half_width(self.height()),
                self.bisector == 0 <==> self.height() == 0,
                pow2(self.height()) == if self.height() == 0 {
                    1
                } else {
                    2 * half_width(self.height())
                },
                forall|j: int| 0 <= j < i ==> (#[trigger] key@[j]) < pow2(self.height()),
            decreases N - i,
        {
            let inside = if self.bisector == 0 {
                key[i] == 0
            } else {
                self.bisector > key[i] / 2
            };
            if !inside {
                return false;
            }
            i = i + 1;
        }
        true
    }

    /// Counts the nodes that the grid is stored in; a count that does not
    /// fit is given as `usize::MAX`.
    pub fn node_count(&self) -> (count: usize)
        requires
            self.wf(),
        ensures
            count == if self.nodes() <= usize::MAX {
                self.nodes()
            } else {
                usize::MAX as nat
            },
    {
        self.root.count_nodes(self.bisector)
    }

    /// Reads the value at `key`.
    pub fn get(&self, key: [usize; N]) -> (v: V)
        requires
            self.wf(),
            self.in_domain(key@),
        ensures
            v == self@[key@],
    {
        self.root.get(self.bisector, key)
    }

    /// Writes `val` at `key` and leaves every other cell as it was.
    pub fn put(&mut self, key: [usize; N], val: V)
        requires
            old(self).wf(),
            old(self).in_domain(key@),
        ensures
            final(self).wf(),
            final(self).depth() == old(self).depth(),
            final(self)@ == old(self)@.insert(key@, val),
            final(self)@[key@] == val,
    {
        self.root.put(self.bisector, key, val);
        assert(self@ =~= old(self)@.insert(key@, val));
    }

    /// Writes `val` at `key` as `put` does and returns the value that the
    /// cell held before.
    pub fn swap(&mut self, key: [usize; N], val: V) -> (previous: V)
        requires
            old(self).wf(),
            old(self).in_domain(key@),
        ensures
            final(self).wf(),
            final(self).depth() == old(self).depth(),
            final(self)@ == old(self)@.insert(key@, val),
            final(self)@[key@] == val,
            previous == old(self)@[key@],
    {
        let previous = self.root.swap(self.bisector, key, val);
        assert(self@ =~= old(self)@.insert(key@, val));
        previous
    }
}

impl<V: PartialEq + Copy, const N: usize> SparseTree<V, N> {
    /// A grid that holds one value in every cell of its domain is stored in a
    /// single node.
    pub proof fn lemma_uniform_is_one_node(self, v: V)
        requires
            self.wf(),
            forall|key: Seq<usize>| self.in_domain(key) ==> #[trigger] self@[key] == v,
        ensures
            self.nodes() == 1,
    {
        assert forall|key: Seq<usize>| in_region(key, N as nat, self.height()) implies
            #[trigger] self.root.value_at(self.height(), key) == v by {
            assert(self.in_domain(key));
            assert(self@[key] == v);
        }
        lemma_uniform_content_is_leaf(self.root, self.height(), v);
    }

    /// A grid that is stored in a single node holds one value in every cell.
    pub proof fn lemma_one_node_is_uniform(self, a: Seq<usize>, b: Seq<usize>)
        requires
            self.wf(),
            self.nodes() == 1,
            self.in_domain(a),
            self.in_domain(b),
        ensures
            self@[a] == self@[b],
    {
        if self.root is Branch {
            lemma_subdivided_has_more_nodes(self.root, self.height());
        }
    }

    /// Two grids of one depth that hold the same values are stored in the
    /// same number of nodes.
    pub proof fn lemma_content_determines_nodes(self, other: Self)
        requires
            self.wf(),
            other.wf(),
            self.depth() == other.depth(),
            self@ == other@,
        ensures
            self.nodes() == other.nodes(),
    {
        assert forall|key: Seq<usize>| in_region(key, N as nat, self.height()) implies
            #[trigger] self.root.value_at(self.height(), key)
                == other.root.value_at(self.height(), key) by {
            assert(self.in_domain(key));
            assert(self@[key] == self.value_at(key));
            assert(other@[key] == other.value_at(key));
        }
        lemma_content_determines_count(self.root, other.root, self.height());
    }

    /// The depth of a grid is at least 1.
    pub proof fn lemma_depth_positive(self)
        ensures
            self.depth() >= 1,
    {
    }
}

} // verus!
