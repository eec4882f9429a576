//! The binned allocator: thirty free lists, one per power-of-two size class,
//! seeded by partitioning the region once and refilled by splitting and by
//! freeing. Freed blocks are never coalesced.

use vstd::arithmetic::power2::{
    lemma_pow2_adds, lemma_pow2_pos, lemma_pow2_strictly_increases, lemma_pow2_unfold, pow2,
};
use vstd::prelude::*;

use crate::layout::{
    bin_of, layout_valid, lemma_log2_pow2, next_pow2, normalized_size, size_fits,
    transform_layout, AllocError,
};
use crate::usage::{bytes_of, lemma_bytes_agree, lemma_bytes_bound, lemma_bytes_remove};
use crate::util::{align_up, align_up_spec, log2, power_of_two};

verus! {

/// Number of size classes; bin `k` holds blocks of `2^(k+3)` bytes.
pub const NUM_BINS: usize = 30;

/// Size in bytes of the blocks of bin `k`.
pub open spec fn class_size(k: int) -> int {
    pow2((k + 3) as nat) as int
}

/// The ranges `[a1, a1 + s1)` and `[a2, a2 + s2)` do not overlap.
pub open spec fn disjoint(a1: int, s1: int, a2: int, s2: int) -> bool {
    a1 + s1 <= a2 || a2 + s2 <= a1
}

/// A block of `s` bytes at `a` is aligned to its size and lies in `[start, end)`.
pub open spec fn placed(a: int, s: int, start: int, end: int) -> bool {
    a % s == 0 && start <= a && a + s <= end
}

/// Every free block of every bin is aligned to its class and inside the region.
pub open spec fn free_placed(bins: Seq<Seq<usize>>, start: int, end: int) -> bool {
    forall|k: int, i: int|
        0 <= k < bins.len() && 0 <= i < bins[k].len() ==> placed(
            #[trigger] bins[k][i] as int,
            class_size(k),
            start,
            end,
        )
}

/// Every live block (address to bin index) has a size class and lies in the region.
pub open spec fn live_placed(live: Map<int, int>, start: int, end: int) -> bool {
    forall|a: int|
        #[trigger] live.contains_key(a) ==> 0 <= live[a] < NUM_BINS && placed(
            a,
            class_size(live[a]),
            start,
            end,
        )
}

/// No two entries of the free lists overlap, and no address is listed twice.
pub open spec fn free_disjoint(bins: Seq<Seq<usize>>) -> bool {
    forall|k1: int, i1: int, k2: int, i2: int|
        #![trigger bins[k1][i1], bins[k2][i2]]
        0 <= k1 < bins.len() && 0 <= i1 < bins[k1].len() && 0 <= k2 < bins.len() && 0 <= i2
            < bins[k2].len() && (k1 != k2 || i1 != i2) ==> disjoint(
            bins[k1][i1] as int,
            class_size(k1),
            bins[k2][i2] as int,
            class_size(k2),
        )
}

/// No free block overlaps a live block.
pub open spec fn free_live_disjoint(bins: Seq<Seq<usize>>, live: Map<int, int>) -> bool {
    forall|k: int, i: int, a: int|
        0 <= k < bins.len() && 0 <= i < bins[k].len() && #[trigger] live.contains_key(a)
            ==> disjoint(#[trigger] bins[k][i] as int, class_size(k), a, class_size(live[a]))
}

/// No two live blocks overlap.
pub open spec fn live_disjoint(live: Map<int, int>) -> bool {
    forall|a1: int, a2: int|
        #[trigger] live.contains_key(a1) && #[trigger] live.contains_key(a2) && a1 != a2
            ==> disjoint(a1, class_size(live[a1]), a2, class_size(live[a2]))
}

/// The invariant of the heap: free lists and live blocks are placed and
/// pairwise disjoint.
pub open spec fn heap_wf(bins: Seq<Seq<usize>>, live: Map<int, int>, start: int, end: int) -> bool {
    &&& bins.len() == NUM_BINS
    &&& live.dom().finite()
    &&& free_placed(bins, start, end)
    &&& live_placed(live, start, end)
    &&& free_disjoint(bins)
    &&& free_live_disjoint(bins, live)
    &&& live_disjoint(live)
}

/// The block `[a, a + s)` overlaps no free and no live block.
pub open spec fn fresh(bins: Seq<Seq<usize>>, live: Map<int, int>, a: int, s: int) -> bool {
    &&& forall|k: int, i: int|
        0 <= k < bins.len() && 0 <= i < bins[k].len() ==> disjoint(
            #[trigger] bins[k][i] as int,
            class_size(k),
            a,
            s,
        )
    &&& forall|b: int| #[trigger] live.contains_key(b) ==> disjoint(b, class_size(live[b]), a, s)
}

/// Thirty empty free lists.
pub open spec fn empty_lists() -> Seq<Seq<usize>> {
    Seq::new(NUM_BINS as nat, |k: int| Seq::<usize>::empty())
}

/// The free lists that partitioning `[cur, end)` adds to `bins`, starting with
/// blocks of `2^e` bytes: each step realigns `cur` to the block size, stops if
/// the block does not fit, else carves it, and doubles the size up to 16 MiB,
/// where it stays.
pub open spec fn carve(bins: Seq<Seq<usize>>, cur: int, e: nat, end: int) -> Seq<Seq<usize>>
    decreases end - cur,
    via carve_decreases
{
    if e < 3 || e > 24 || cur < 0 || cur > end {
        bins
    } else {
        let a = align_up_spec(cur, pow2(e) as int);
        if a + pow2(e) > end {
            bins
        } else {
            carve(
                bins.update(e - 3, bins[e - 3].push(a as usize)),
                a + pow2(e),
                if e < 24 {
                    e + 1
                } else {
                    e
                },
                end,
            )
        }
    }
}

#[via_fn]
proof fn carve_decreases(bins: Seq<Seq<usize>>, cur: int, e: nat, end: int) {
    if !(e < 3 || e > 24 || cur < 0 || cur > end) {
        lemma_pow2_pos(e);
        lemma_align_up_ge(cur, pow2(e) as int);
    }
}

proof fn lemma_align_up_ge(x: int, m: int)
    requires
        x >= 0,
        m > 0,
    ensures
        x <= align_up_spec(x, m) < x + m,
        align_up_spec(x, m) % m == 0,
{
    vstd::arithmetic::div_mod::lemma_mod_pos_bound(x, m);
    vstd::arithmetic::div_mod::lemma_fundamental_div_mod(x, m);
    vstd::arithmetic::div_mod::lemma_mod_multiples_basic(x / m, m);
    vstd::arithmetic::div_mod::lemma_mod_multiples_basic(x / m + 1, m);
    vstd::arithmetic::mul::lemma_mul_is_distributive_add_other_way(m, x / m, 1);
    vstd::arithmetic::mul::lemma_mul_is_commutative(m, x / m);
    vstd::arithmetic::mul::lemma_mul_is_commutative(m, x / m + 1);
}

/// A multiple of `2^j` is a multiple of every smaller power of two `2^m`.
proof fn lemma_pow2_mod(a: int, m: nat, j: nat)
    requires
        m <= j,
        a % pow2(j) as int == 0,
    ensures
        a % pow2(m) as int == 0,
{
    lemma_pow2_adds(m, (j - m) as nat);
    lemma_pow2_pos(m);
    lemma_pow2_pos((j - m) as nat);
    assert(m + (j - m) as nat == j);
    assert(pow2(j) as int == pow2(m) as int * pow2((j - m) as nat) as int);
    vstd::arithmetic::div_mod::lemma_mod_mod(a, pow2(m) as int, pow2((j - m) as nat) as int);
    vstd::arithmetic::div_mod::lemma_small_mod(0, pow2(m));
}

/// Adding a block that overlaps nothing to a free list keeps the heap well formed.
proof fn lemma_push_free(bins: Seq<Seq<usize>>, live: Map<int, int>, start: int, end: int, m: int, a: usize)
    requires
        heap_wf(bins, live, start, end),
        0 <= m < NUM_BINS,
        placed(a as int, class_size(m), start, end),
        fresh(bins, live, a as int, class_size(m)),
    ensures
        heap_wf(bins.update(m, bins[m].push(a)), live, start, end),
{
    let nb = bins.update(m, bins[m].push(a));
    assert forall|k: int, i: int| 0 <= k < nb.len() && 0 <= i < nb[k].len() implies placed(
        #[trigger] nb[k][i] as int,
        class_size(k),
        start,
        end,
    ) by {
        if k != m || i < bins[m].len() {
            assert(nb[k][i] == bins[k][i]);
        }
    }
    assert forall|k1: int, i1: int, k2: int, i2: int|
        0 <= k1 < nb.len() && 0 <= i1 < nb[k1].len() && 0 <= k2 < nb.len() && 0 <= i2
            < nb[k2].len() && (k1 != k2 || i1 != i2) implies disjoint(
        #[trigger] nb[k1][i1] as int,
        class_size(k1),
        #[trigger] nb[k2][i2] as int,
        class_size(k2),
    ) by {
        let new1 = k1 == m && i1 == bins[m].len();
        let new2 = k2 == m && i2 == bins[m].len();
        if !new1 {
            assert(nb[k1][i1] == bins[k1][i1]);
        }
        if !new2 {
            assert(nb[k2][i2] == bins[k2][i2]);
        }
    }
    assert forall|k: int, i: int, b: int|
        0 <= k < nb.len() && 0 <= i < nb[k].len() && #[trigger] live.contains_key(b) implies disjoint(
        #[trigger] nb[k][i] as int,
        class_size(k),
        b,
        class_size(live[b]),
    ) by {
        if k != m || i < bins[m].len() {
            assert(nb[k][i] == bins[k][i]);
        }
    }
}

/// Removing the last block of a free list keeps the heap well formed, and the
/// removed block overlaps nothing that remains.
proof fn lemma_pop_free(bins: Seq<Seq<usize>>, live: Map<int, int>, start: int, end: int, j: int)
    requires
        heap_wf(bins, live, start, end),
        0 <= j < NUM_BINS,
        bins[j].len() > 0,
    ensures
        heap_wf(bins.update(j, bins[j].drop_last()), live, start, end),
        fresh(bins.update(j, bins[j].drop_last()), live, bins[j].last() as int, class_size(j)),
        placed(bins[j].last() as int, class_size(j), start, end),
{
    let nb = bins.update(j, bins[j].drop_last());
    let last = bins[j].len() - 1;
    assert(bins[j].last() == bins[j][last]);
    assert forall|k: int, i: int| 0 <= k < nb.len() && 0 <= i < nb[k].len() implies #[trigger] nb[k][i]
        == bins[k][i] by {}
    assert forall|k: int, i: int| 0 <= k < nb.len() && 0 <= i < nb[k].len() implies disjoint(
        #[trigger] nb[k][i] as int,
        class_size(k),
        bins[j].last() as int,
        class_size(j),
    ) by {
        assert(nb[k][i] == bins[k][i]);
        assert(k != j || i != last);
    }
}

/// Recording a block that overlaps nothing as live keeps the heap well formed.
proof fn lemma_add_live(bins: Seq<Seq<usize>>, live: Map<int, int>, start: int, end: int, a: int, k: int)
    requires
        heap_wf(bins, live, start, end),
        0 <= k < NUM_BINS,
        placed(a, class_size(k), start, end),
        fresh(bins, live, a, class_size(k)),
    ensures
        heap_wf(bins, live.insert(a, k), start, end),
        !live.contains_key(a),
{
    lemma_pow2_pos((k + 3) as nat);
    if live.contains_key(a) {
        assert(disjoint(a, class_size(live[a]), a, class_size(k)));
        lemma_pow2_pos((live[a] + 3) as nat);
    }
}

/// The first bin at or above `k` that holds a free block, or `NUM_BINS` if none does.
pub open spec fn first_nonempty(bins: Seq<Seq<usize>>, k: int) -> int
    decreases NUM_BINS - k,
{
    if k < 0 || k >= NUM_BINS {
        NUM_BINS as int
    } else if bins[k].len() > 0 {
        k
    } else {
        first_nonempty(bins, k + 1)
    }
}

/// The free lists after the last block `a` of bin `j` is split down to bin
/// `k`: it leaves bin `j`, and each bin `x` from `k` to `j - 1` receives the
/// upper half `a + 2^(x+3)` of the block cut at that level. The lower block of
/// bin `k`, at `a`, is the one handed out.
pub open spec fn split_lists(bins: Seq<Seq<usize>>, k: int, j: int, a: int) -> Seq<Seq<usize>> {
    Seq::new(
        bins.len(),
        |x: int|
            if x == j {
                bins[x].drop_last()
            } else if k <= x < j {
                bins[x].push((a + class_size(x)) as usize)
            } else {
                bins[x]
            },
    )
}

/// The normalized size of a valid request is `2^e` with `e >= 3`, and a
/// multiple of the requested alignment.
pub proof fn lemma_normalized(size: int, align: int) -> (e: nat)
    requires
        layout_valid(size, align),
    ensures
        pow2(e) == normalized_size(size, align),
        e >= 3,
        normalized_size(size, align) % align == 0,
        bin_of(normalized_size(size, align)) == e - 3,
{
    vstd::arithmetic::power2::lemma2_to64();
    let es = lemma_next_pow2_exp(size as nat);
    let ea = choose|ea: nat| #[trigger] pow2(ea) == align;
    let n = normalized_size(size, align);
    let e1: nat = if pow2(es) < align { ea } else { es };
    let e: nat = if pow2(e1) < 8 { 3 } else { e1 };
    assert(pow2(e) == n);
    if e < 3 {
        lemma_pow2_strictly_increases(e, 3);
    }
    if e < ea {
        lemma_pow2_strictly_increases(e, ea);
    }
    lemma_pow2_pos(e);
    vstd::arithmetic::div_mod::lemma_mod_self_0(n);
    lemma_pow2_mod(n, ea, e);
    lemma_log2_pow2(e);
    e
}

/// `next_pow2(n)` is a power of two.
proof fn lemma_next_pow2_exp(n: nat) -> (e: nat)
    ensures
        pow2(e) == next_pow2(n),
    decreases n,
{
    if n <= 1 {
        vstd::arithmetic::power2::lemma2_to64();
        0
    } else {
        let e = lemma_next_pow2_exp(((n + 1) / 2) as nat);
        lemma_pow2_unfold(e + 1);
        e + 1
    }
}

/// A block inside a block that overlaps nothing overlaps nothing either.
proof fn lemma_fresh_sub(bins: Seq<Seq<usize>>, live: Map<int, int>, a: int, s: int, b: int, t: int)
    requires
        fresh(bins, live, a, s),
        a <= b,
        b + t <= a + s,
        t > 0,
    ensures
        fresh(bins, live, b, t),
{
    assert forall|k: int, i: int| 0 <= k < bins.len() && 0 <= i < bins[k].len() implies disjoint(
        #[trigger] bins[k][i] as int,
        class_size(k),
        b,
        t,
    ) by {
        assert(disjoint(bins[k][i] as int, class_size(k), a, s));
    }
    assert forall|c: int| #[trigger] live.contains_key(c) implies disjoint(
        c,
        class_size(live[c]),
        b,
        t,
    ) by {
        assert(disjoint(c, class_size(live[c]), a, s));
    }
}

/// A block stays free of overlap when a block disjoint from it joins a free list.
proof fn lemma_fresh_push(bins: Seq<Seq<usize>>, live: Map<int, int>, a: int, s: int, m: int, c: usize)
    requires
        fresh(bins, live, a, s),
        0 <= m < bins.len(),
        disjoint(c as int, class_size(m), a, s),
    ensures
        fresh(bins.update(m, bins[m].push(c)), live, a, s),
{
    let nb = bins.update(m, bins[m].push(c));
    assert forall|k: int, i: int| 0 <= k < nb.len() && 0 <= i < nb[k].len() implies disjoint(
        #[trigger] nb[k][i] as int,
        class_size(k),
        a,
        s,
    ) by {
        if k != m || i < bins[m].len() {
            assert(nb[k][i] == bins[k][i]);
        }
    }
}

/// Forgetting a live block keeps the heap well formed, and the block then
/// overlaps nothing.
proof fn lemma_remove_live(bins: Seq<Seq<usize>>, live: Map<int, int>, start: int, end: int, a: int)
    requires
        heap_wf(bins, live, start, end),
        live.contains_key(a),
    ensures
        heap_wf(bins, live.remove(a), start, end),
        fresh(bins, live.remove(a), a, class_size(live[a])),
{
    let nl = live.remove(a);
    assert forall|b: int| #[trigger] nl.contains_key(b) implies disjoint(
        b,
        class_size(nl[b]),
        a,
        class_size(live[a]),
    ) by {
        assert(live.contains_key(b) && b != a);
    }
}

} // verus!

verus! {

/// The contents of a vector of free lists.
pub open spec fn lists_of(bins: Seq<Vec<usize>>) -> Seq<Seq<usize>> {
    bins.map_values(|v: Vec<usize>| v@)
}

/// A binned allocator over the region `[start, end)`.
///
/// Bin `k` lists the free blocks of `2^(k+3)` bytes, each at a multiple of
/// its size. A block handed out by `alloc` stays out of every bin until it is
/// given back by `dealloc` with the layout it was allocated with. Freed blocks
/// are not coalesced: a freed block returns to its own bin, and space only
/// moves from a larger class to a smaller one by splitting.
pub struct Allocator {
    bins: Vec<Vec<usize>>,
    start: usize,
    end: usize,
    live: Ghost<Map<int, int>>,
}

impl Allocator {
    /// The free lists, bin by bin.
    pub closed spec fn free_lists(self) -> Seq<Seq<usize>> {
        lists_of(self.bins@)
    }

    /// The blocks handed out and not yet freed: address to bin index.
    pub closed spec fn live_blocks(self) -> Map<int, int> {
        self.live@
    }

    /// First address of the managed region, aligned to 8.
    pub closed spec fn region_start(self) -> int {
        self.start as int
    }

    /// End (exclusive) of the managed region.
    pub closed spec fn region_end(self) -> int {
        self.end as int
    }

    /// The number of bytes held by live blocks.
    pub open spec fn live_bytes(self) -> int {
        bytes_of(self.live_blocks(), self.live_blocks().dom())
    }

    /// The heap invariant holds of this allocator.
    pub open spec fn wf(self) -> bool {
        heap_wf(self.free_lists(), self.live_blocks(), self.region_start(), self.region_end())
    }

    /// Creates a bin allocator over the region from `start` to `end`.
    ///
    /// `start` is rounded up to a multiple of 8. The region is then tiled
    /// once: blocks of 8, 16, 32, ... bytes up to 16 MiB, each at the next
    /// multiple of its size, while they fit, followed by as many 16 MiB blocks
    /// as fit. What is left at the end is not used.
    pub fn new(start: usize, end: usize) -> (r: Allocator)
        requires
            align_up_spec(start as int, 8) <= usize::MAX,
        ensures
            r.wf(),
            r.region_start() == align_up_spec(start as int, 8),
            r.region_end() == end,
            r.live_blocks() == Map::<int, int>::empty(),
            r.free_lists() == carve(empty_lists(), r.region_start(), 3, end as int),
    {
        proof {
            vstd::arithmetic::power2::lemma2_to64();
        }
        let start = align_up(start, 8);
        let mut bins: Vec<Vec<usize>> = Vec::new();
        let mut i: usize = 0;
        while i < NUM_BINS
            invariant
                i <= NUM_BINS,
                bins@.len() == i,
                forall|x: int| 0 <= x < i ==> (#[trigger] bins@[x])@.len() == 0,
            decreases NUM_BINS - i,
        {
            bins.push(Vec::new());
            i = i + 1;
        }
        assert forall|x: int| 0 <= x < NUM_BINS implies #[trigger] lists_of(bins@)[x]
            =~= empty_lists()[x] by {}
        assert(lists_of(bins@) =~= empty_lists());
        let mut cur: usize = start;
        let mut e: usize = 3;
        let mut p: usize = 8;
        loop
            invariant
                bins@.len() == NUM_BINS,
                start <= cur,
                3 <= e <= 24,
                p == pow2(e as nat),
                carve(lists_of(bins@), cur as int, e as nat, end as int) == carve(
                    empty_lists(),
                    start as int,
                    3,
                    end as int,
                ),
                heap_wf(lists_of(bins@), Map::<int, int>::empty(), start as int, end as int),
                forall|k: int, j: int|
                    0 <= k < NUM_BINS && 0 <= j < lists_of(bins@)[k].len() ==> #[trigger] lists_of(
                        bins@,
                    )[k][j] + class_size(k) <= cur,
            ensures
                lists_of(bins@) == carve(empty_lists(), start as int, 3, end as int),
                heap_wf(lists_of(bins@), Map::<int, int>::empty(), start as int, end as int),
            decreases usize::MAX - cur,
        {
            proof {
                lemma_pow2_pos(e as nat);
                lemma_align_up_ge(cur as int, p as int);
                vstd::arithmetic::power2::lemma2_to64();
            }
            if cur > end || p > end - cur {
                assert(carve(lists_of(bins@), cur as int, e as nat, end as int) == lists_of(bins@));
                break;
            }
            let a = align_up(cur, p);
            if p > end - a {
                assert(carve(lists_of(bins@), cur as int, e as nat, end as int) == lists_of(bins@));
                break;
            }
            let ghost old_lists = lists_of(bins@);
            let ghost m = e - 3;
            proof {
                assert(class_size(e - 3) == p);
                lemma_push_free(
                    old_lists,
                    Map::<int, int>::empty(),
                    start as int,
                    end as int,
                    e - 3,
                    a,
                );
            }
            bins[e - 3].push(a);
            assert(lists_of(bins@) =~= old_lists.update(e - 3, old_lists[e - 3].push(a)));
            cur = a + p;
            if e < 24 {
                proof {
                    lemma_pow2_unfold((e + 1) as nat);
                }
                e = e + 1;
                p = p * 2;
            }
            proof {
                let nl = lists_of(bins@);
                assert forall|k: int, j: int|
                    0 <= k < NUM_BINS && 0 <= j < nl[k].len() implies #[trigger] nl[k][j]
                    + class_size(k) <= cur by {
                    if k != m || j < old_lists[k].len() {
                        assert(nl[k][j] == old_lists[k][j]);
                    }
                }
            }
        }
        Allocator { bins, start, end, live: Ghost(Map::empty()) }
    }

    /// Allocates a block for `size` bytes aligned to `align`.
    ///
    /// The request is normalized to `N = max(next_power_of_two(size), align, 8)`
    /// and served from bin `k = log2(N) - 3`: its last free block if it has
    /// one, else the last block of the first larger non-empty bin, halved down
    /// to `N` bytes; each upper half goes to the bin of its size, and the lower
    /// block, at the donor's own address, is returned.
    ///
    /// Fails with `InvalidLayout` when `size` is zero or `align` is not a power
    /// of two, with `SizeTooLarge` when `N` exceeds `2^32`, and with
    /// `Exhausted` when no bin at or above `k` holds a block; a failed call
    /// changes nothing.
    pub fn allocate(&mut self, size: usize, align: usize) -> (r: Result<usize, AllocError>)
        requires
            old(self).wf(),
        ensures
            final(self).wf(),
            final(self).region_start() == old(self).region_start(),
            final(self).region_end() == old(self).region_end(),
            !layout_valid(size as int, align as int) ==> r == Err::<usize, AllocError>(
                AllocError::InvalidLayout,
            ) && *final(self) == *old(self),
            layout_valid(size as int, align as int) && !size_fits(
                normalized_size(size as int, align as int),
            ) ==> r == Err::<usize, AllocError>(AllocError::SizeTooLarge) && *final(self) == *old(
                self,
            ),
            layout_valid(size as int, align as int) && size_fits(
                normalized_size(size as int, align as int),
            ) ==> ({
                let k = bin_of(normalized_size(size as int, align as int));
                let j = first_nonempty(old(self).free_lists(), k);
                let a = old(self).free_lists()[j].last();
                if j == NUM_BINS {
                    r == Err::<usize, AllocError>(AllocError::Exhausted) && *final(self) == *old(
                        self,
                    )
                } else {
                    &&& r == Ok::<usize, AllocError>(a)
                    &&& final(self).free_lists() == split_lists(
                        old(self).free_lists(),
                        k,
                        j,
                        a as int,
                    )
                    &&& final(self).live_blocks() == old(self).live_blocks().insert(a as int, k)
                }
            }),
            old(self).live_bytes() + normalized_size(size as int, align as int) > old(
                self,
            ).region_end() - old(self).region_start() ==> r is Err,
            r is Ok ==> final(self).live_bytes() == old(self).live_bytes() + normalized_size(
                size as int,
                align as int,
            ),
            r is Ok ==> ({
                let a = r->Ok_0 as int;
                let n = normalized_size(size as int, align as int);
                &&& a % n == 0
                &&& a % align as int == 0
                &&& old(self).region_start() <= a
                &&& a + n <= old(self).region_end()
                &&& old(self).region_start() > 0 ==> a != 0
                &&& !old(self).live_blocks().contains_key(a)
                &&& forall|b: int| #[trigger]
                    old(self).live_blocks().contains_key(b) ==> disjoint(
                        b,
                        class_size(old(self).live_blocks()[b]),
                        a,
                        n,
                    )
            }),
    {
        let n = match transform_layout(size, align) {
            Ok(n) => n,
            Err(e) => return Err(e),
        };
        let ghost e = lemma_normalized(size as int, align as int);
        proof {
            vstd::arithmetic::power2::lemma2_to64();
            if e > 32 {
                lemma_pow2_strictly_increases(32, e);
            }
        }
        let lg = log2(n);
        proof {
            crate::util::lemma_pow2_injective(lg as nat, e);
        }
        let k = lg - 3;
        let ghost lists = self.free_lists();
        let ghost live = self.live_blocks();
        let mut j = k;
        while j < NUM_BINS && self.bins[j].len() == 0
            invariant
                k <= j <= NUM_BINS,
                self.free_lists() == lists,
                self.bins@.len() == NUM_BINS,
                first_nonempty(lists, j as int) == first_nonempty(lists, k as int),
            decreases NUM_BINS - j,
        {
            j = j + 1;
        }
        if j == NUM_BINS {
            return Err(AllocError::Exhausted);
        }
        assert(lists[j as int].len() > 0);
        let ghost start = self.start as int;
        let ghost end = self.end as int;
        proof {
            lemma_pop_free(lists, live, start, end, j as int);
            lemma_pow2_pos((j + 3) as nat);
        }
        let mut s: usize = n;
        let mut i: usize = k;
        while i < j
            invariant
                k <= i <= j < NUM_BINS,
                s == class_size(i as int),
                class_size(j as int) <= usize::MAX,
            decreases j - i,
        {
            proof {
                lemma_pow2_unfold((i + 4) as nat);
                if i + 1 < j {
                    lemma_pow2_strictly_increases((i + 4) as nat, (j + 3) as nat);
                }
            }
            s = s * 2;
            i = i + 1;
        }
        let a = match self.bins[j].pop() {
            Some(a) => a,
            None => return Err(AllocError::Exhausted),
        };
        assert(self.free_lists() =~= lists.update(j as int, lists[j as int].drop_last()));
        assert(self.free_lists() =~= split_lists(lists, j as int, j as int, a as int));
        let mut m = j;
        while m > k
            invariant
                k <= m <= j < NUM_BINS,
                s == class_size(m as int),
                a == lists[j as int].last(),
                self.bins@.len() == NUM_BINS,
                self.start == start,
                self.end == end,
                self.live_blocks() == live,
                self.free_lists() == split_lists(lists, m as int, j as int, a as int),
                heap_wf(self.free_lists(), live, start, end),
                fresh(self.free_lists(), live, a as int, s as int),
                a as int % class_size(j as int) == 0,
                start <= a,
                a + s <= end,
            decreases m,
        {
            let ghost cur = self.free_lists();
            m = m - 1;
            proof {
                lemma_pow2_unfold((m + 4) as nat);
                lemma_pow2_pos((m + 3) as nat);
            }
            s = s / 2;
            proof {
                lemma_pow2_mod(a as int, (m + 3) as nat, (j + 3) as nat);
                vstd::arithmetic::div_mod::lemma_mod_add_multiples_vanish(a as int, s as int);
                lemma_fresh_sub(cur, live, a as int, 2 * s, a + s, s as int);
                lemma_push_free(cur, live, start, end, m as int, (a + s) as usize);
                lemma_fresh_sub(cur, live, a as int, 2 * s, a as int, s as int);
                lemma_fresh_push(cur, live, a as int, s as int, m as int, (a + s) as usize);
            }
            self.bins[m].push(a + s);
            assert(self.free_lists() =~= cur.update(m as int, cur[m as int].push((a + s) as usize)));
            assert(self.free_lists() =~= split_lists(lists, m as int, j as int, a as int));
        }
        proof {
            lemma_pow2_mod(a as int, (k + 3) as nat, (j + 3) as nat);
            lemma_add_live(self.free_lists(), live, start, end, a as int, k as int);
            let ea = choose|ea: nat| #[trigger] pow2(ea) == align;
            lemma_pow2_pos(ea);
            vstd::arithmetic::div_mod::lemma_fundamental_div_mod(n as int, align as int);
            vstd::arithmetic::div_mod::lemma_div_pos_is_pos(n as int, align as int);
            vstd::arithmetic::div_mod::lemma_mod_mod(a as int, align as int, n as int / align as int);
            vstd::arithmetic::div_mod::lemma_small_mod(0, align as nat);
            assert(s == n);
        }
        self.live = Ghost(live.insert(a as int, k as int));
        proof {
            let nl = live.insert(a as int, k as int);
            lemma_bytes_remove(nl, nl.dom(), a as int);
            assert(nl.dom().remove(a as int) =~= live.dom());
            lemma_bytes_agree(nl, live, live.dom());
            lemma_live_bytes_bounded(*self);
        }
        Ok(a)
    }

    /// Frees the block at `ptr`, which `allocate(size, align)` returned and
    /// which has not been freed since: the block returns to the bin of its
    /// normalized size. Blocks are never merged with their neighbours.
    pub fn deallocate(&mut self, ptr: usize, size: usize, align: usize)
        requires
            old(self).wf(),
            layout_valid(size as int, align as int),
            size_fits(normalized_size(size as int, align as int)),
            old(self).live_blocks().contains_key(ptr as int),
            old(self).live_blocks()[ptr as int] == bin_of(normalized_size(size as int, align as int)),
        ensures
            final(self).wf(),
            final(self).region_start() == old(self).region_start(),
            final(self).region_end() == old(self).region_end(),
            final(self).live_blocks() == old(self).live_blocks().remove(ptr as int),
            ({
                let k = bin_of(normalized_size(size as int, align as int));
                final(self).free_lists() == old(self).free_lists().update(
                    k,
                    old(self).free_lists()[k].push(ptr),
                )
            }),
    {
        let n = match transform_layout(size, align) {
            Ok(n) => n,
            Err(_) => return,
        };
        let ghost e = lemma_normalized(size as int, align as int);
        proof {
            vstd::arithmetic::power2::lemma2_to64();
            if e > 32 {
                lemma_pow2_strictly_increases(32, e);
            }
        }
        let lg = log2(n);
        proof {
            crate::util::lemma_pow2_injective(lg as nat, e);
        }
        let k = lg - 3;
        let ghost lists = self.free_lists();
        let ghost live = self.live_blocks();
        proof {
            lemma_remove_live(lists, live, self.start as int, self.end as int, ptr as int);
            lemma_push_free(
                lists,
                live.remove(ptr as int),
                self.start as int,
                self.end as int,
                k as int,
                ptr,
            );
        }
        self.live = Ghost(live.remove(ptr as int));
        self.bins[k].push(ptr);
        assert(self.free_lists() =~= lists.update(k as int, lists[k as int].push(ptr)));
    }

    /// The free blocks of bin `k`, in list order (the last is handed out
    /// first). Read-only; meant for diagnostics.
    pub fn bin_blocks(&self, k: usize) -> (r: Vec<usize>)
        requires
            self.wf(),
            k < NUM_BINS,
        ensures
            r@ == self.free_lists()[k as int],
    {
        let bin = &self.bins[k];
        let mut r: Vec<usize> = Vec::new();
        let mut i: usize = 0;
        while i < bin.len()
            invariant
                i <= bin@.len(),
                r@ == bin@.subrange(0, i as int),
            decreases bin@.len() - i,
        {
            r.push(bin[i]);
            i = i + 1;
            assert(r@ =~= bin@.subrange(0, i as int));
        }
        assert(r@ =~= bin@);
        r
    }

    /// First address of the managed region (the given start rounded up to 8).
    pub fn start(&self) -> (r: usize)
        ensures
            r == self.region_start(),
    {
        self.start
    }

    /// End (exclusive) of the managed region.
    pub fn end(&self) -> (r: usize)
        ensures
            r == self.region_end(),
    {
        self.end
    }
}

} // verus!

verus! {

/// No two blocks that are live at the same time overlap, whatever sequence of
/// `allocate` and `deallocate` calls led to the allocator's state.
pub proof fn lemma_live_blocks_disjoint(al: Allocator, a1: int, a2: int)
    requires
        al.wf(),
        al.live_blocks().contains_key(a1),
        al.live_blocks().contains_key(a2),
        a1 != a2,
    ensures
        disjoint(
            a1,
            class_size(al.live_blocks()[a1]),
            a2,
            class_size(al.live_blocks()[a2]),
        ),
{
}

/// The live blocks together hold at most the size of the region: once the
/// bytes held live plus those asked for exceed it, `allocate` fails.
pub proof fn lemma_live_bytes_bounded(al: Allocator)
    requires
        al.wf(),
        al.region_start() <= al.region_end(),
    ensures
        al.live_bytes() <= al.region_end() - al.region_start(),
{
    let live = al.live_blocks();
    assert forall|a: int| #[trigger] live.dom().contains(a) implies al.region_start() <= a && a
        + class_size(live[a]) <= al.region_end() by {
        assert(live.contains_key(a));
    }
    assert forall|a1: int, a2: int|
        #[trigger] live.dom().contains(a1) && #[trigger] live.dom().contains(a2) && a1 != a2 implies disjoint(
        a1,
        class_size(live[a1]),
        a2,
        class_size(live[a2]),
    ) by {
        assert(live.contains_key(a1) && live.contains_key(a2));
    }
    lemma_bytes_bound(live, live.dom(), al.region_start(), al.region_end());
}

/// Every live block lies, with its whole normalized size, inside the region,
/// at a multiple of that size.
pub proof fn lemma_live_blocks_contained(al: Allocator, a: int)
    requires
        al.wf(),
        al.live_blocks().contains_key(a),
    ensures
        al.region_start() <= a,
        a + class_size(al.live_blocks()[a]) <= al.region_end(),
        a % class_size(al.live_blocks()[a]) == 0,
{
}

/// Freeing a block and then allocating with the same layout hands back that
/// very block, from its bin and without a split, and leaves the free lists as
/// they were before the block was freed.
pub proof fn lemma_free_then_allocate(bins: Seq<Seq<usize>>, k: int, ptr: usize)
    requires
        bins.len() == NUM_BINS,
        0 <= k < NUM_BINS,
    ensures
        first_nonempty(bins.update(k, bins[k].push(ptr)), k) == k,
        bins.update(k, bins[k].push(ptr))[k].last() == ptr,
        split_lists(bins.update(k, bins[k].push(ptr)), k, k, ptr as int) == bins,
{
    let nb = bins.update(k, bins[k].push(ptr));
    assert(nb[k].drop_last() =~= bins[k]);
    assert(split_lists(nb, k, k, ptr as int) =~= bins);
}

} // verus!
