//! Accounting of the bytes held by live blocks.

use vstd::arithmetic::power2::lemma_pow2_pos;
use vstd::prelude::*;

use crate::bin::{class_size, disjoint};

verus! {

/// The total size of the blocks whose addresses are in `s`, each of the
/// class that `live` records for it.
pub open spec fn bytes_of(live: Map<int, int>, s: Set<int>) -> int
    decreases s.len(),
    when s.finite()
{
    if s.len() == 0 {
        0
    } else {
        let a = s.choose();
        class_size(live[a]) + bytes_of(live, s.remove(a))
    }
}

/// Any element of `s` can be taken out of the sum first.
pub proof fn lemma_bytes_remove(live: Map<int, int>, s: Set<int>, x: int)
    requires
        s.finite(),
        s.contains(x),
    ensures
        bytes_of(live, s) == class_size(live[x]) + bytes_of(live, s.remove(x)),
    decreases s.len(),
{
    let a = s.choose();
    if a != x {
        lemma_bytes_remove(live, s.remove(a), x);
        lemma_bytes_remove(live, s.remove(x), a);
        assert(s.remove(a).remove(x) =~= s.remove(x).remove(a));
    }
}

/// The sum depends only on the classes recorded for the elements of `s`.
pub proof fn lemma_bytes_agree(l1: Map<int, int>, l2: Map<int, int>, s: Set<int>)
    requires
        s.finite(),
        forall|a: int| s.contains(a) ==> l1[a] == l2[a],
    ensures
        bytes_of(l1, s) == bytes_of(l2, s),
    decreases s.len(),
{
    if s.len() > 0 {
        let a = s.choose();
        lemma_bytes_agree(l1, l2, s.remove(a));
    }
}

/// The sum over two disjoint sets is the sum of the two sums.
pub proof fn lemma_bytes_union(live: Map<int, int>, l: Set<int>, r: Set<int>)
    requires
        l.finite(),
        r.finite(),
        forall|a: int| l.contains(a) ==> !r.contains(a),
    ensures
        bytes_of(live, l + r) == bytes_of(live, l) + bytes_of(live, r),
    decreases l.len(),
{
    if l.len() == 0 {
        l.lemma_len0_is_empty();
        assert(l + r =~= r);
    } else {
        let x = l.choose();
        lemma_bytes_union(live, l.remove(x), r);
        assert((l + r).remove(x) =~= l.remove(x) + r);
        lemma_bytes_remove(live, l + r, x);
        lemma_bytes_remove(live, l, x);
    }
}

/// Pairwise disjoint blocks that all lie in `[lo, hi)` hold at most
/// `hi - lo` bytes together.
pub proof fn lemma_bytes_bound(live: Map<int, int>, s: Set<int>, lo: int, hi: int)
    requires
        s.finite(),
        lo <= hi,
        forall|a: int| #[trigger] s.contains(a) ==> lo <= a && a + class_size(live[a]) <= hi,
        forall|a1: int, a2: int|
            #[trigger] s.contains(a1) && #[trigger] s.contains(a2) && a1 != a2 ==> disjoint(
                a1,
                class_size(live[a1]),
                a2,
                class_size(live[a2]),
            ),
    ensures
        bytes_of(live, s) <= hi - lo,
    decreases s.len(),
{
    if s.len() > 0 {
        let x = s.choose();
        let rest = s.remove(x);
        let left = rest.filter(|a: int| a < x);
        let right = rest.filter(|a: int| a > x);
        assert(rest =~= left + right);
        vstd::set_lib::lemma_len_subset(left, rest);
        vstd::set_lib::lemma_len_subset(right, rest);
        lemma_pow2_pos((live[x] + 3) as nat);
        assert forall|a: int| #[trigger] left.contains(a) implies lo <= a && a + class_size(live[a])
            <= x by {
            lemma_pow2_pos((live[a] + 3) as nat);
            assert(disjoint(a, class_size(live[a]), x, class_size(live[x])));
        }
        assert forall|a: int| #[trigger] right.contains(a) implies x + class_size(live[x]) <= a && a
            + class_size(live[a]) <= hi by {
            lemma_pow2_pos((live[a] + 3) as nat);
            assert(disjoint(a, class_size(live[a]), x, class_size(live[x])));
        }
        lemma_bytes_bound(live, left, lo, x);
        lemma_bytes_bound(live, right, x + class_size(live[x]), hi);
        lemma_bytes_union(live, left, right);
        lemma_bytes_remove(live, s, x);
    }
}

} // verus!
