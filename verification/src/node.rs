//! The recursive node engine: a region is either uniform or subdivided into
//! `2^N` sectors, and a subdivided region never has all its sectors uniform
//! with one value.

use vstd::prelude::*;
use vstd::arithmetic::power2::{
    pow2, lemma2_to64, lemma_pow2_pos, lemma_pow2_unfold, lemma_pow2_strictly_increases,
};
use vstd::laws_eq::obeys_concrete_eq;
use crate::sector::{
    half_width, height_of, is_bisector, in_region, sector_index, local_coordinate, local_key,
    global_key, lemma_half_width_step, lemma_bisector_step, lemma_sector_index_bound,
    lemma_local_key_in_region, lemma_decomposition_injective, lemma_global_key,
};

verus! {

/// A region of the grid: subdivided into its sectors, or uniform with one
/// value.
pub enum Tree<V: PartialEq + Copy, const N: usize> {
    Branch(Vec<Tree<V, N>>),
    Leaf(V),
}

/// All of `children` are uniform nodes that hold `v`.
pub open spec fn all_leaves_of<V: PartialEq + Copy, const N: usize>(
    children: Seq<Tree<V, N>>,
    v: V,
) -> bool {
    forall|i: int| 0 <= i < children.len() ==> #[trigger] children[i] == Tree::<V, N>::Leaf(v)
}

/// The sectors could be replaced by one uniform node.
pub open spec fn collapsible<V: PartialEq + Copy, const N: usize>(
    children: Seq<Tree<V, N>>,
) -> bool {
    children.len() > 0 && children[0] is Leaf && all_leaves_of(children, children[0]->Leaf_0)
}

/// The number of nodes in the first `n` of `children`, each over a region of
/// height `h`.
pub open spec fn nodes_in<V: PartialEq + Copy, const N: usize>(
    children: Seq<Tree<V, N>>,
    h: nat,
    n: nat,
) -> nat
    decreases h, n,
{
    if n == 0 {
        0
    } else {
        nodes_in(children, h, (n - 1) as nat) + children[n - 1].node_count(h)
    }
}

impl<V: PartialEq + Copy, const N: usize> Tree<V, N> {
    /// A tree over a region of height `h` is well formed when subdivision
    /// stops at single cells, every subdivided node has `2^N` sectors, and no
    /// subdivided node is collapsible.
    pub open spec fn wf(self, h: nat) -> bool
        decreases h,
    {
        match self {
            Tree::Leaf(_) => true,
            Tree::Branch(children) => {
                &&& h > 0
                &&& children@.len() == pow2(N as nat)
                &&& !collapsible(children@)
                &&& forall|i: int|
                    0 <= i < children@.len() ==> (#[trigger] children@[i]).wf((h - 1) as nat)
            },
        }
    }

    /// Well formed below the root, which may itself be collapsible: the
    /// state of a node between a split and the write that follows it.
    pub open spec fn shaped(self, h: nat) -> bool {
        match self {
            Tree::Leaf(_) => true,
            Tree::Branch(children) => {
                &&& h > 0
                &&& children@.len() == pow2(N as nat)
                &&& forall|i: int|
                    0 <= i < children@.len() ==> (#[trigger] children@[i]).wf((h - 1) as nat)
            },
        }
    }

    /// The value that the tree over a region of height `h` holds at `key`.
    pub open spec fn value_at(self, h: nat, key: Seq<usize>) -> V
        decreases h,
    {
        match self {
            Tree::Leaf(v) => v,
            Tree::Branch(children) => {
                let s = sector_index(key, half_width(h), N as nat) as int;
                if h > 0 && s < children@.len() {
                    children@[s].value_at((h - 1) as nat, local_key(key, half_width(h)))
                } else {
                    arbitrary()
                }
            },
        }
    }

    /// The number of nodes of the tree, itself included.
    pub open spec fn node_count(self, h: nat) -> nat
        decreases h, 0nat,
    {
        match self {
            Tree::Leaf(_) => 1,
            Tree::Branch(children) => if h > 0 {
                1 + nodes_in(children@, (h - 1) as nat, children@.len())
            } else {
                1
            },
        }
    }

    /// The sectors of a subdivided node; a uniform node has none.
    pub open spec fn children(self) -> Seq<Tree<V, N>> {
        match self {
            Tree::Leaf(_) => Seq::empty(),
            Tree::Branch(children) => children@,
        }
    }

    /// Over a region of height `h`, `self` holds `val` at `key` and what
    /// `before` holds everywhere else.
    pub open spec fn is_write_of(self, before: Self, h: nat, key: Seq<usize>, val: V) -> bool {
        &&& self.value_at(h, key) == val
        &&& forall|k: Seq<usize>|
            in_region(k, N as nat, h) && k != key ==> #[trigger] self.value_at(h, k)
                == before.value_at(h, k)
    }

    /// Finds the sector of `key`, moves `key` into that sector's frame and
    /// halves `bisector` for the next level.
    pub fn sector(key: &mut [usize; N], bisector: &mut usize) -> (sct: usize)
        requires
            pow2(N as nat) <= usize::MAX,
        ensures
            sct == sector_index(old(key)@, *old(bisector) as nat, N as nat),
            sct < pow2(N as nat),
            final(key)@ == local_key(old(key)@, *old(bisector) as nat),
            *final(bisector) == *old(bisector) / 2,
    {
        let ghost start = key@;
        let b: usize = *bisector;
        let mut sct: usize = 0;
        let mut bit: usize = 1;
        let mut i: usize = 0;
        proof {
            lemma_pow2_pos(N as nat);
            assert(pow2(0) == 1) by {
                lemma2_to64();
            }
        }
        while i < N
            invariant
                i <= N,
                pow2(N as nat) <= usize::MAX,
                bit == pow2(i as nat),
                bit <= pow2(N as nat),
                sct == sector_index(start, b as nat, i as nat),
                sct < bit,
                start.len() == N,
                key@.len() == N,
                forall|j: int|
                    0 <= j < i ==> #[trigger] key@[j] == local_coordinate(start[j], b as nat),
                forall|j: int| i <= j < N ==> #[trigger] key@[j] == start[j],
            decreases N - i,
        {
            proof {
                lemma_pow2_unfold((i + 1) as nat);
                if i + 1 < N {
                    lemma_pow2_strictly_increases((i + 1) as nat, N as nat);
                }
            }
            if key[i] >= b {
                key[i] = key[i] - b;
                sct = sct + bit;
            }
            i = i + 1;
            bit = bit * 2;
        }
        *bisector = b / 2;
        assert(key@ =~= local_key(start, b as nat));
        sct
    }

    /// Reads the value at `key`.
    pub fn get(&self, bisector: usize, key: [usize; N]) -> (v: V)
        requires
            pow2(N as nat) <= usize::MAX,
            is_bisector(bisector as nat),
            self.shaped(height_of(bisector as nat)),
        ensures
            v == self.value_at(height_of(bisector as nat), key@),
        decreases height_of(bisector as nat),
    {
        let ghost h = height_of(bisector as nat);
        match self {
            Tree::Leaf(leaf) => *leaf,
            Tree::Branch(branch) => {
                let mut half = bisector;
                let mut inner = key;
                let sct = Self::sector(&mut inner, &mut half);
                proof {
                    lemma_bisector_step(bisector as nat);
                }
                branch[sct].get(half, inner)
            },
        }
    }

    /// Decides whether the sectors can collapse: the value that every one of
    /// them holds, if all of them are uniform with one value.
    pub fn uniform_value(children: &Vec<Tree<V, N>>) -> (r: Option<V>)
        requires
            obeys_concrete_eq::<V>(),
            children@.len() > 0,
        ensures
            match r {
                Some(v) => all_leaves_of(children@, v),
                None => !collapsible(children@),
            },
    {
        match &children[0] {
            Tree::Leaf(first) => {
                let v = *first;
                let mut i: usize = 1;
                while i < children.len()
                    invariant
                        obeys_concrete_eq::<V>(),
                        1 <= i <= children@.len(),
                        children@[0] == Tree::<V, N>::Leaf(v),
                        forall|j: int|
                            0 <= j < i ==> #[trigger] children@[j] == Tree::<V, N>::Leaf(v),
                    decreases children@.len() - i,
                {
                    proof {
                        reveal(obeys_concrete_eq);
                    }
                    match &children[i] {
                        Tree::Leaf(w) => {
                            if *w != v {
                                return None;
                            }
                        },
                        Tree::Branch(_) => {
                            return None;
                        },
                    }
                    i = i + 1;
                }
                Some(v)
            },
            Tree::Branch(_) => None,
        }
    }

    /// The split: `2^N` uniform sectors that all hold `v`.
    pub fn split(v: V) -> (children: Vec<Tree<V, N>>)
        requires
            pow2(N as nat) <= usize::MAX,
        ensures
            children@.len() == pow2(N as nat),
            all_leaves_of(children@, v),
    {
        let mut children: Vec<Tree<V, N>> = Vec::new();
        let mut i: usize = 0;
        proof {
            assert(pow2(0) == 1) by {
                lemma2_to64();
            }
        }
        children.push(Tree::Leaf(v));
        while i < N
            invariant
                i <= N,
                pow2(N as nat) <= usize::MAX,
                children@.len() == pow2(i as nat),
                all_leaves_of(children@, v),
            decreases N - i,
        {
            proof {
                lemma_pow2_unfold((i + 1) as nat);
                if i + 1 < N {
                    lemma_pow2_strictly_increases((i + 1) as nat, N as nat);
                }
            }
            let count: usize = children.len();
            let mut j: usize = 0;
            while j < count
                invariant
                    j <= count,
                    2 * count <= usize::MAX,
                    children@.len() == count + j,
                    all_leaves_of(children@, v),
                decreases count - j,
            {
                children.push(Tree::Leaf(v));
                j = j + 1;
            }
            i = i + 1;
        }
        children
    }

    /// Writes `val` at `key`, subdividing where the value diverges from its
    /// region and collapsing every region on the way back that became uniform.
    pub fn put(&mut self, bisector: usize, key: [usize; N], val: V)
        requires
            obeys_concrete_eq::<V>(),
            pow2(N as nat) <= usize::MAX,
            is_bisector(bisector as nat),
            old(self).shaped(height_of(bisector as nat)),
            in_region(key@, N as nat, height_of(bisector as nat)),
        ensures
            final(self).wf(height_of(bisector as nat)),
            final(self).is_write_of(*old(self), height_of(bisector as nat), key@, val),
        decreases height_of(bisector as nat), (if *old(self) is Leaf { 1nat } else { 0nat }),
    {
        let ghost h = height_of(bisector as nat);
        proof {
            reveal(obeys_concrete_eq);
        }
        match self {
            Tree::Leaf(leaf) => {
                let w = *leaf;
                if w != val {
                    if bisector == 0 {
                        proof {
                            lemma_single_cell(key@);
                        }
                        *leaf = val;
                    } else {
                        let leafs = Self::split(w);
                        *self = Tree::Branch(leafs);
                        proof {
                            lemma_uniform_sectors(*self, h, w);
                        }
                        self.put(bisector, key, val);
                    }
                }
            },
            Tree::Branch(branch) => {
                let ghost before = Tree::<V, N>::Branch(*branch);
                let mut half = bisector;
                let mut inner = key;
                let sct = Self::sector(&mut inner, &mut half);
                proof {
                    lemma_bisector_step(bisector as nat);
                    lemma_local_key_in_region(key@, N as nat, h);
                }
                branch[sct].put(half, inner, val);
                let ghost after = Tree::<V, N>::Branch(*branch);
                proof {
                    assert(after.children() =~= before.children().update(
                        sct as int,
                        after.children()[sct as int],
                    ));
                    lemma_write_in_sector(before, after, h, key@, val);
                }
                if let Some(v) = Self::uniform_value(branch) {
                    proof {
                        lemma_uniform_sectors(after, h, v);
                    }
                    *self = Tree::Leaf(v);
                    assert forall|k: Seq<usize>| #[trigger]
                        self.value_at(h, k) == after.value_at(h, k) by {}
                }
            },
        }
    }

    /// Writes `val` at `key` as `put` does, and returns the value that was
    /// there before.
    pub fn swap(&mut self, bisector: usize, key: [usize; N], val: V) -> (previous: V)
        requires
            obeys_concrete_eq::<V>(),
            pow2(N as nat) <= usize::MAX,
            is_bisector(bisector as nat),
            old(self).shaped(height_of(bisector as nat)),
            in_region(key@, N as nat, height_of(bisector as nat)),
        ensures
            final(self).wf(height_of(bisector as nat)),
            final(self).is_write_of(*old(self), height_of(bisector as nat), key@, val),
            previous == old(self).value_at(height_of(bisector as nat), key@),
        decreases height_of(bisector as nat),
    {
        let ghost h = height_of(bisector as nat);
        match self {
            Tree::Leaf(leaf) => {
                let ret = *leaf;
                self.put(bisector, key, val);
                ret
            },
            Tree::Branch(branch) => {
                let ghost before = Tree::<V, N>::Branch(*branch);
                let mut half = bisector;
                let mut inner = key;
                let sct = Self::sector(&mut inner, &mut half);
                proof {
                    lemma_bisector_step(bisector as nat);
                    lemma_local_key_in_region(key@, N as nat, h);
                }
                let previous = branch[sct].swap(half, inner, val);
                let ghost after = Tree::<V, N>::Branch(*branch);
                proof {
                    assert(after.children() =~= before.children().update(
                        sct as int,
                        after.children()[sct as int],
                    ));
                    lemma_write_in_sector(before, after, h, key@, val);
                }
                if let Some(v) = Self::uniform_value(branch) {
                    proof {
                        lemma_uniform_sectors(after, h, v);
                    }
                    *self = Tree::Leaf(v);
                    assert forall|k: Seq<usize>| #[trigger]
                        self.value_at(h, k) == after.value_at(h, k) by {}
                }
                previous
            },
        }
    }

    /// Counts the nodes of the tree; a count that does not fit is given as
    /// `usize::MAX`.
    pub fn count_nodes(&self, bisector: usize) -> (count: usize)
        requires
            is_bisector(bisector as nat),
            self.shaped(height_of(bisector as nat)),
        ensures
            count == if self.node_count(height_of(bisector as nat)) <= usize::MAX {
                self.node_count(height_of(bisector as nat))
            } else {
                usize::MAX as nat
            },
        decreases height_of(bisector as nat),
    {
        let ghost h = height_of(bisector as nat);
        match self {
            Tree::Leaf(_) => 1,
            Tree::Branch(children) => {
                let mut count: usize = 1;
                let mut i: usize = 0;
                proof {
                    lemma_bisector_step(bisector as nat);
                }
                while i < children.len()
                    invariant
                        h > 0,
                        h == height_of(bisector as nat),
                        is_bisector((bisector / 2) as nat),
                        height_of((bisector / 2) as nat) == h - 1,
                        i <= children@.len(),
                        forall|j: int|
                            0 <= j < children@.len() ==> (#[trigger] children@[j]).wf((h - 1) as nat),
                        count == if 1 + nodes_in(children@, (h - 1) as nat, i as nat)
                            <= usize::MAX {
                            1 + nodes_in(children@, (h - 1) as nat, i as nat)
                        } else {
                            usize::MAX as nat
                        },
                    decreases children@.len() - i,
                {
                    let below = children[i].count_nodes(bisector / 2);
                    count = count.saturating_add(below);
                    i = i + 1;
                }
                count
            },
        }
    }
}

/// A region of height 0 is one cell: the only tuple in it is all zeros.
pub proof fn lemma_single_cell(key: Seq<usize>)
    ensures
        forall|n: nat, k: Seq<usize>|
            in_region(key, n, 0) && #[trigger] in_region(k, n, 0) ==> k == key,
{
    assert(pow2(0) == 1) by {
        lemma2_to64();
    }
    assert forall|n: nat, k: Seq<usize>|
        in_region(key, n, 0) && #[trigger] in_region(k, n, 0) implies k == key by {
        assert(k =~= key);
    }
}

/// A subdivided node whose sectors are all uniform with `v` holds `v`
/// everywhere.
pub proof fn lemma_uniform_sectors<V: PartialEq + Copy, const N: usize>(
    t: Tree<V, N>,
    h: nat,
    v: V,
)
    requires
        h > 0,
        t is Branch,
        t.children().len() == pow2(N as nat),
        all_leaves_of(t.children(), v),
    ensures
        forall|k: Seq<usize>| #[trigger] t.value_at(h, k) == v,
{
    assert forall|k: Seq<usize>| #[trigger] t.value_at(h, k) == v by {
        lemma_sector_index_bound(k, half_width(h), N as nat);
        let s = sector_index(k, half_width(h), N as nat) as int;
        let inner = local_key(k, half_width(h));
        assert(t.children()[s] == Tree::<V, N>::Leaf(v));
        assert(t.children()[s].value_at((h - 1) as nat, inner) == v);
        assert(t.value_at(h, k) == t.children()[s].value_at((h - 1) as nat, inner));
    }
}

/// A write into the sector of `key` is a write into the region.
pub proof fn lemma_write_in_sector<V: PartialEq + Copy, const N: usize>(
    before: Tree<V, N>,
    after: Tree<V, N>,
    h: nat,
    key: Seq<usize>,
    val: V,
)
    requires
        h > 0,
        in_region(key, N as nat, h),
        before is Branch,
        after is Branch,
        before.children().len() == pow2(N as nat),
        after.children() == before.children().update(
            sector_index(key, half_width(h), N as nat) as int,
            after.children()[sector_index(key, half_width(h), N as nat) as int],
        ),
        after.children()[sector_index(key, half_width(h), N as nat) as int].is_write_of(
            before.children()[sector_index(key, half_width(h), N as nat) as int],
            (h - 1) as nat,
            local_key(key, half_width(h)),
            val,
        ),
    ensures
        after.is_write_of(before, h, key, val),
{
    let b = half_width(h);
    let s = sector_index(key, b, N as nat) as int;
    lemma_sector_index_bound(key, b, N as nat);
    assert forall|k: Seq<usize>| in_region(k, N as nat, h) && k != key implies
        #[trigger] after.value_at(h, k) == before.value_at(h, k) by {
        lemma_sector_index_bound(k, b, N as nat);
        lemma_local_key_in_region(k, N as nat, h);
        let sk = sector_index(k, b, N as nat) as int;
        let inner = local_key(k, b);
        assert(after.value_at(h, k) == after.children()[sk].value_at((h - 1) as nat, inner));
        assert(before.value_at(h, k) == before.children()[sk].value_at((h - 1) as nat, inner));
        if sk == s {
            if inner == local_key(key, b) {
                lemma_decomposition_injective(k, key, b, N as nat);
            }
        } else {
            assert(after.children()[sk] == before.children()[sk]);
        }
    }
    assert(after.value_at(h, key) == after.children()[s].value_at(
        (h - 1) as nat,
        local_key(key, b),
    ));
}

/// A well-formed tree that holds `v` in every cell of its region is the
/// single uniform node with `v`.
pub proof fn lemma_uniform_content_is_leaf<V: PartialEq + Copy, const N: usize>(
    t: Tree<V, N>,
    h: nat,
    v: V,
)
    requires
        t.wf(h),
        pow2(h) - 1 <= usize::MAX,
        forall|k: Seq<usize>| in_region(k, N as nat, h) ==> #[trigger] t.value_at(h, k) == v,
    ensures
        t == Tree::<V, N>::Leaf(v),
    decreases h,
{
    lemma_pow2_pos(h);
    match t {
        Tree::Leaf(w) => {
            let origin = Seq::new(N as nat, |i: int| 0usize);
            assert(in_region(origin, N as nat, h));
            assert(t.value_at(h, origin) == v);
        },
        Tree::Branch(children) => {
            let b = half_width(h);
            lemma_pow2_unfold(h);
            lemma_pow2_pos(N as nat);
            assert forall|i: int| 0 <= i < children@.len() implies
                #[trigger] children@[i] == Tree::<V, N>::Leaf(v) by {
                let child = children@[i];
                assert forall|k: Seq<usize>| in_region(k, N as nat, (h - 1) as nat) implies
                    #[trigger] child.value_at((h - 1) as nat, k) == v by {
                    lemma_global_key(i as nat, k, N as nat, h);
                    let outer = global_key(i as nat, k, b);
                    assert(t.value_at(h, outer) == v);
                    assert(t.value_at(h, outer) == child.value_at((h - 1) as nat, k));
                }
                lemma_uniform_content_is_leaf(child, (h - 1) as nat, v);
            }
            assert(children@[0] == Tree::<V, N>::Leaf(v));
            assert(collapsible(children@));
        },
    }
}

/// A well-formed subdivided node has more than one node.
pub proof fn lemma_subdivided_has_more_nodes<V: PartialEq + Copy, const N: usize>(
    t: Tree<V, N>,
    h: nat,
)
    requires
        t.wf(h),
        t is Branch,
    ensures
        t.node_count(h) > 1,
{
    lemma_pow2_pos(N as nat);
    let children = t.children();
    let last = children[children.len() - 1];
    assert(last.node_count((h - 1) as nat) >= 1);
    assert(nodes_in(children, (h - 1) as nat, children.len()) >= 1);
}

/// Sectors that agree in their node counts one by one agree in the sum.
pub proof fn lemma_nodes_in_pointwise<V: PartialEq + Copy, const N: usize>(
    a: Seq<Tree<V, N>>,
    b: Seq<Tree<V, N>>,
    h: nat,
    n: nat,
)
    requires
        n <= a.len(),
        n <= b.len(),
        forall|i: int| 0 <= i < n ==> (#[trigger] a[i]).node_count(h) == b[i].node_count(h),
    ensures
        nodes_in(a, h, n) == nodes_in(b, h, n),
    decreases n,
{
    if n > 0 {
        lemma_nodes_in_pointwise(a, b, h, (n - 1) as nat);
        assert(a[n - 1].node_count(h) == b[n - 1].node_count(h));
    }
}

/// Two well-formed trees that hold the same value in every cell of the
/// region have the same number of nodes: the content fixes the subdivision.
pub proof fn lemma_content_determines_count<V: PartialEq + Copy, const N: usize>(
    a: Tree<V, N>,
    b: Tree<V, N>,
    h: nat,
)
    requires
        a.wf(h),
        b.wf(h),
        pow2(h) - 1 <= usize::MAX,
        forall|k: Seq<usize>|
            in_region(k, N as nat, h) ==> #[trigger] a.value_at(h, k) == b.value_at(h, k),
    ensures
        a.node_count(h) == b.node_count(h),
    decreases h,
{
    match (a, b) {
        (Tree::Leaf(v), _) => {
            assert forall|k: Seq<usize>| in_region(k, N as nat, h) implies
                #[trigger] b.value_at(h, k) == v by {
                assert(a.value_at(h, k) == v);
            }
            lemma_uniform_content_is_leaf(b, h, v);
        },
        (_, Tree::Leaf(v)) => {
            assert forall|k: Seq<usize>| in_region(k, N as nat, h) implies
                #[trigger] a.value_at(h, k) == v by {
                assert(b.value_at(h, k) == v);
            }
            lemma_uniform_content_is_leaf(a, h, v);
        },
        (Tree::Branch(ca), Tree::Branch(cb)) => {
            let below = (h - 1) as nat;
            lemma_pow2_unfold(h);
            lemma_pow2_pos(below);
            assert forall|i: int| 0 <= i < ca@.len() implies (#[trigger] ca@[i]).node_count(below)
                == cb@[i].node_count(below) by {
                assert forall|k: Seq<usize>| in_region(k, N as nat, below) implies
                    #[trigger] ca@[i].value_at(below, k) == cb@[i].value_at(below, k) by {
                    lemma_global_key(i as nat, k, N as nat, h);
                    let outer = global_key(i as nat, k, half_width(h));
                    assert(a.value_at(h, outer) == ca@[i].value_at(below, k));
                    assert(b.value_at(h, outer) == cb@[i].value_at(below, k));
                }
                lemma_content_determines_count(ca@[i], cb@[i], below);
            }
            lemma_nodes_in_pointwise(ca@, cb@, below, ca@.len());
        },
    }
}

} // verus!
