//! What holds of every grid, whatever was written to it.

use vstd::prelude::*;
use vstd::arithmetic::power2::{pow2, lemma2_to64, lemma_pow2_unfold};
use crate::tree::SparseTree;

verus! {

/// A value written to a cell is the value read from it: a grid that `put`
/// made from `before` by writing `val` at `key` holds `val` at `key`, and
/// `key` is in its domain.
pub proof fn law_write_then_read<V: PartialEq + Copy, const N: usize>(
    before: SparseTree<V, N>,
    after: SparseTree<V, N>,
    key: Seq<usize>,
    val: V,
)
    requires
        before.wf(),
        before.in_domain(key),
        after@ == before@.insert(key, val),
    ensures
        after.in_domain(key),
        after@[key] == val,
{
    assert(after@.dom().contains(key));
}

/// The last write wins: after two writes to one cell the grid is what the
/// second write alone would have made of it.
pub proof fn law_last_write_wins<V: PartialEq + Copy, const N: usize>(
    start: SparseTree<V, N>,
    first: SparseTree<V, N>,
    second: SparseTree<V, N>,
    key: Seq<usize>,
    v1: V,
    v2: V,
)
    requires
        start.wf(),
        start.in_domain(key),
        first@ == start@.insert(key, v1),
        second@ == first@.insert(key, v2),
    ensures
        second@[key] == v2,
        second@ == start@.insert(key, v2),
{
    assert(second@ =~= start@.insert(key, v2));
}

/// An exchange hands back what a read just before it would have returned,
/// and a read after it returns the value given.
pub proof fn law_exchange<V: PartialEq + Copy, const N: usize>(
    before: SparseTree<V, N>,
    after: SparseTree<V, N>,
    key: Seq<usize>,
    val: V,
    previous: V,
    read_before: V,
)
    requires
        before.wf(),
        before.in_domain(key),
        read_before == before@[key],
        previous == before@[key],
        after@ == before@.insert(key, val),
    ensures
        previous == read_before,
        after@[key] == val,
{
}

/// However the cells were written, once they all hold one value the grid is
/// a single node.
pub proof fn law_uniform_grid_is_one_node<V: PartialEq + Copy, const N: usize>(
    tree: SparseTree<V, N>,
    v: V,
)
    requires
        tree.wf(),
        forall|key: Seq<usize>| tree.in_domain(key) ==> #[trigger] tree@[key] == v,
    ensures
        tree.nodes() == 1,
{
    tree.lemma_uniform_is_one_node(v);
}

/// A grid that is stored in a single node holds the same value in any two
/// cells of its domain.
pub proof fn law_one_node_is_uniform<V: PartialEq + Copy, const N: usize>(
    tree: SparseTree<V, N>,
    a: Seq<usize>,
    b: Seq<usize>,
)
    requires
        tree.wf(),
        tree.nodes() == 1,
        tree.in_domain(a),
        tree.in_domain(b),
    ensures
        tree@[a] == tree@[b],
{
    tree.lemma_one_node_is_uniform(a, b);
}

/// The subdivision is a function of the content: two grids of one depth
/// that hold the same values have the same number of nodes, whatever was
/// written to them on the way.
pub proof fn law_content_determines_nodes<V: PartialEq + Copy, const N: usize>(
    a: SparseTree<V, N>,
    b: SparseTree<V, N>,
)
    requires
        a.wf(),
        b.wf(),
        a.depth() == b.depth(),
        a@ == b@,
    ensures
        a.nodes() == b.nodes(),
{
    a.lemma_content_determines_nodes(b);
}

/// A tuple with a coordinate whose half reaches `2^(depth - 2)`, or with any
/// nonzero coordinate at depth 1, is outside the domain, so that no call of
/// `get`, `put` or `swap` can be made with it.
pub proof fn law_coordinate_out_of_bound<V: PartialEq + Copy, const N: usize>(
    tree: SparseTree<V, N>,
    key: Seq<usize>,
    i: int,
)
    requires
        tree.wf(),
        key.len() == N,
        0 <= i < N,
        if tree.depth() == 1 {
            key[i] != 0
        } else {
            key[i] / 2 >= pow2((tree.depth() - 2) as nat)
        },
    ensures
        !tree.in_domain(key),
{
    tree.lemma_depth_positive();
    if tree.depth() == 1 {
        assert(pow2(0) == 1) by {
            lemma2_to64();
        }
    } else {
        lemma_pow2_unfold((tree.depth() - 1) as nat);
    }
    if tree.in_domain(key) {
        assert(key[i] < pow2((tree.depth() - 1) as nat));
    }
}

/// A tuple of `N` coordinates that meets the bound in every dimension is in
/// the domain.
pub proof fn law_coordinate_in_bound<V: PartialEq + Copy, const N: usize>(
    tree: SparseTree<V, N>,
    key: Seq<usize>,
)
    requires
        tree.wf(),
        key.len() == N,
        forall|i: int|
            0 <= i < N ==> if tree.depth() == 1 {
                (#[trigger] key[i]) == 0
            } else {
                key[i] / 2 < pow2((tree.depth() - 2) as nat)
            },
    ensures
        tree.in_domain(key),
{
    tree.lemma_depth_positive();
    if tree.depth() == 1 {
        assert(pow2(0) == 1) by {
            lemma2_to64();
        }
    } else {
        lemma_pow2_unfold((tree.depth() - 1) as nat);
    }
}

} // verus!
