//! Sector decomposition: which of the `2^N` halves-per-axis of a region a
//! coordinate tuple falls into, and the same tuple in that sector's own frame.

use vstd::prelude::*;
use vstd::arithmetic::power2::{pow2, lemma2_to64, lemma_pow2_pos, lemma_pow2_unfold};

verus! {

/// Half the side length of a region of height `h`. A region of height 0 is a
/// single cell and has no halves.
pub open spec fn half_width(h: nat) -> nat {
    if h == 0 {
        0
    } else {
        pow2((h - 1) as nat)
    }
}

/// The height of the region whose half-width is `bisector`: the number of
/// halvings that take `bisector` to zero.
pub open spec fn height_of(bisector: nat) -> nat
    decreases bisector,
{
    if bisector == 0 {
        0
    } else {
        1 + height_of(bisector / 2)
    }
}

/// Zero or a power of two: the half-width of some region.
pub open spec fn is_bisector(bisector: nat) -> bool {
    bisector == half_width(height_of(bisector))
}

/// The tuples of `n` coordinates that lie in a region of height `h`, whose
/// side is `2^h` cells.
pub open spec fn in_region(key: Seq<usize>, n: nat, h: nat) -> bool {
    &&& key.len() == n
    &&& forall|i: int| 0 <= i < n ==> (#[trigger] key[i]) < pow2(h)
}

/// The sector index over the first `n` dimensions: bit `i` is set exactly
/// when coordinate `i` lies in the upper half, that is at or above `bisector`.
pub open spec fn sector_index(key: Seq<usize>, bisector: nat, n: nat) -> nat
    decreases n,
{
    if n == 0 {
        0
    } else {
        let low = sector_index(key, bisector, (n - 1) as nat);
        if key[n - 1] >= bisector {
            low + pow2((n - 1) as nat)
        } else {
            low
        }
    }
}

/// One coordinate in the frame of the half it lies in.
pub open spec fn local_coordinate(c: usize, bisector: nat) -> usize {
    if c >= bisector {
        (c - bisector) as usize
    } else {
        c
    }
}

/// The tuple in the frame of the sector it lies in.
pub open spec fn local_key(key: Seq<usize>, bisector: nat) -> Seq<usize> {
    Seq::new(key.len(), |i: int| local_coordinate(key[i], bisector))
}

/// Halving the half-width of a region gives the half-width of its sectors.
pub proof fn lemma_half_width_step(h: nat)
    requires
        h > 0,
    ensures
        half_width(h) / 2 == half_width((h - 1) as nat),
        half_width(h) > 0,
{
    lemma_pow2_pos((h - 1) as nat);
    if h == 1 {
        assert(pow2(0) == 1) by {
            lemma2_to64();
        }
    } else {
        lemma_pow2_unfold((h - 1) as nat);
    }
}

/// The half-width of a region of height `h` is a bisector of height `h`.
pub proof fn lemma_height_of_half_width(h: nat)
    ensures
        height_of(half_width(h)) == h,
        is_bisector(half_width(h)),
    decreases h,
{
    if h > 0 {
        lemma_half_width_step(h);
        lemma_height_of_half_width((h - 1) as nat);
    }
}

/// Halving a bisector gives the bisector of the level below.
pub proof fn lemma_bisector_step(bisector: nat)
    requires
        is_bisector(bisector),
        bisector > 0,
    ensures
        is_bisector(bisector / 2),
        height_of(bisector) > 0,
        height_of(bisector / 2) == height_of(bisector) - 1,
{
    lemma_half_width_step(height_of(bisector));
}

/// A sector index over `n` dimensions is below `2^n`.
pub proof fn lemma_sector_index_bound(key: Seq<usize>, bisector: nat, n: nat)
    ensures
        sector_index(key, bisector, n) < pow2(n),
    decreases n,
{
    lemma_pow2_pos(n);
    if n > 0 {
        lemma_sector_index_bound(key, bisector, (n - 1) as nat);
        lemma_pow2_unfold(n);
    }
}

/// Descending one level keeps a tuple inside the region of the sector.
pub proof fn lemma_local_key_in_region(key: Seq<usize>, n: nat, h: nat)
    requires
        h > 0,
        in_region(key, n, h),
    ensures
        in_region(local_key(key, half_width(h)), n, (h - 1) as nat),
{
    lemma_pow2_unfold(h);
}

/// Two tuples with the same sector index agree, dimension by dimension, on
/// the half they lie in.
pub proof fn lemma_sector_index_halves(a: Seq<usize>, b: Seq<usize>, bisector: nat, n: nat)
    requires
        sector_index(a, bisector, n) == sector_index(b, bisector, n),
    ensures
        forall|i: int|
            0 <= i < n ==> ((#[trigger] a[i]) >= bisector <==> (#[trigger] b[i]) >= bisector),
    decreases n,
{
    if n > 0 {
        let m = (n - 1) as nat;
        lemma_sector_index_bound(a, bisector, m);
        lemma_sector_index_bound(b, bisector, m);
        lemma_sector_index_halves(a, b, bisector, m);
    }
}

/// The sector index and the local tuple together determine the tuple.
pub proof fn lemma_decomposition_injective(a: Seq<usize>, b: Seq<usize>, bisector: nat, n: nat)
    requires
        a.len() == n,
        b.len() == n,
        sector_index(a, bisector, n) == sector_index(b, bisector, n),
        local_key(a, bisector) == local_key(b, bisector),
    ensures
        a == b,
{
    lemma_sector_index_halves(a, b, bisector, n);
    assert forall|i: int| 0 <= i < n implies a[i] == b[i] by {
        assert(local_key(a, bisector)[i] == local_coordinate(a[i], bisector));
        assert(local_key(b, bisector)[i] == local_coordinate(b[i], bisector));
    }
    assert(a =~= b);
}

/// Bit `i` of a sector index: whether the sector is in the upper half along
/// dimension `i`.
pub open spec fn in_upper_half(sector: nat, i: nat) -> bool {
    (sector / pow2(i)) % 2 == 1
}

/// The tuple that lies in the given sector of a region and has the local
/// tuple `inner` there.
pub open spec fn global_key(sector: nat, inner: Seq<usize>, bisector: nat) -> Seq<usize> {
    Seq::new(
        inner.len(),
        |i: int|
            if in_upper_half(sector, i as nat) {
                (inner[i] + bisector) as usize
            } else {
                inner[i]
            },
    )
}

/// Over the first `n` dimensions, the sector index of a tuple built by
/// `global_key` holds the low `n` bits of the sector it was built for.
pub proof fn lemma_global_key_sector(sector: nat, inner: Seq<usize>, h: nat, n: nat)
    requires
        h > 0,
        n <= inner.len(),
        pow2(h) - 1 <= usize::MAX,
        forall|i: int| 0 <= i < inner.len() ==> (#[trigger] inner[i]) < pow2((h - 1) as nat),
    ensures
        sector_index(global_key(sector, inner, half_width(h)), half_width(h), n) == sector % pow2(
            n,
        ),
    decreases n,
{
    let b = half_width(h);
    let key = global_key(sector, inner, b);
    lemma_pow2_unfold(h);
    if n == 0 {
        assert(pow2(0) == 1) by {
            lemma2_to64();
        }
    } else {
        let m = (n - 1) as nat;
        lemma_global_key_sector(sector, inner, h, m);
        lemma_pow2_pos(m);
        lemma_pow2_unfold(n);
        let p = pow2(m) as int;
        vstd::arithmetic::div_mod::lemma_mod_breakdown(sector as int, p, 2);
        let bit = (sector as int / p) % 2;
        assert(p * bit == if bit == 1 { p } else { 0 }) by (nonlinear_arith)
            requires
                bit == 0 || bit == 1,
        ;
        assert(p * 2 == pow2(n));
        assert(inner[m as int] < b);
        assert(key[m as int] >= b <==> in_upper_half(sector, m));
    }
}

/// `global_key` undoes the decomposition: the tuple it builds lies in the
/// region, in the given sector, with the given local tuple.
pub proof fn lemma_global_key(sector: nat, inner: Seq<usize>, n: nat, h: nat)
    requires
        h > 0,
        sector < pow2(n),
        pow2(h) - 1 <= usize::MAX,
        in_region(inner, n, (h - 1) as nat),
    ensures
        in_region(global_key(sector, inner, half_width(h)), n, h),
        sector_index(global_key(sector, inner, half_width(h)), half_width(h), n) == sector,
        local_key(global_key(sector, inner, half_width(h)), half_width(h)) == inner,
{
    let b = half_width(h);
    let key = global_key(sector, inner, b);
    lemma_pow2_unfold(h);
    lemma_global_key_sector(sector, inner, h, n);
    vstd::arithmetic::div_mod::lemma_small_mod(sector, pow2(n));
    assert forall|i: int| 0 <= i < n implies (#[trigger] key[i]) < pow2(h) by {
        assert(inner[i] < b);
    }
    assert forall|i: int| 0 <= i < n implies local_key(key, b)[i] == inner[i] by {
        assert(inner[i] < b);
    }
    assert(local_key(key, b) =~= inner);
}

} // verus!
