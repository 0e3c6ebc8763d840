//! Picking the indices of the items that meet a condition.

use vstd::prelude::*;

verus! {

/// The indices below `n` for which `wanted` holds, in ascending order.
pub open spec fn picked(wanted: spec_fn(int) -> bool, n: nat) -> Seq<usize>
    decreases n,
{
    if n == 0 {
        Seq::empty()
    } else if wanted(n - 1) {
        picked(wanted, (n - 1) as nat).push((n - 1) as usize)
    } else {
        picked(wanted, (n - 1) as nat)
    }
}

/// The first index from `i` on and below `n` for which `wanted` holds.
pub open spec fn first_from(wanted: spec_fn(int) -> bool, i: int, n: int) -> Option<usize>
    decreases n - i,
{
    if i >= n {
        None
    } else if wanted(i) {
        Some(i as usize)
    } else {
        first_from(wanted, i + 1, n)
    }
}

/// What is picked are the indices in range for which `wanted` holds, each once and
/// in ascending order.
pub proof fn law_picked(wanted: spec_fn(int) -> bool, n: nat)
    requires
        n <= usize::MAX,
    ensures
        ({
            let p = picked(wanted, n);
            &&& forall|i: int, j: int|
                0 <= i < j < p.len() ==> (#[trigger] p[i]) < (#[trigger] p[j])
            &&& forall|i: int| 0 <= i < p.len() ==> (#[trigger] p[i]) < n && wanted(p[i] as int)
            &&& forall|k: int| 0 <= k < n && #[trigger] wanted(k) ==> p.contains(k as usize)
        }),
    decreases n,
{
    if n > 0 {
        let rest = picked(wanted, (n - 1) as nat);
        let p = picked(wanted, n);
        law_picked(wanted, (n - 1) as nat);
        assert forall|k: int| 0 <= k < n && #[trigger] wanted(k) implies p.contains(k as usize) by {
            if k == n - 1 {
                assert(p[p.len() - 1] == k as usize);
            } else {
                assert(rest.contains(k as usize));
                let i = choose|i: int| 0 <= i < rest.len() && rest[i] == k as usize;
                assert(p[i] == k as usize);
            }
        }
    }
}

/// The first index is one for which `wanted` holds and before which it never holds;
/// there is none where it never holds.
pub proof fn law_first_from(wanted: spec_fn(int) -> bool, i: int, n: int)
    requires
        0 <= i,
        n <= usize::MAX,
    ensures
        (match first_from(wanted, i, n) {
            Some(k) => i <= k < n && wanted(k as int) && (forall|j: int|
                i <= j < k ==> !#[trigger] wanted(j)),
            None => forall|j: int| i <= j < n ==> !#[trigger] wanted(j),
        }),
    decreases n - i,
{
    if i < n && !wanted(i) {
        law_first_from(wanted, i + 1, n);
    }
}

} // verus!
