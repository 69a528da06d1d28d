//! The first position that meets a condition.

use vstd::prelude::*;

verus! {

/// The first position from `k` on, below `len`, at which `p` holds; `len`
/// when there is none.
pub open spec fn first_from(len: int, p: spec_fn(int) -> bool, k: int) -> int
    decreases len - k,
{
    if k >= len {
        len
    } else if p(k) {
        k
    } else {
        first_from(len, p, k + 1)
    }
}

/// The first position below `len` at which `p` holds; `len` when there is
/// none.
pub open spec fn first_where(len: int, p: spec_fn(int) -> bool) -> int {
    first_from(len, p, 0)
}

/// `first_from` finds a position at which `p` holds and before which, from
/// `k` on, it does not.
pub proof fn lemma_first_from(len: int, p: spec_fn(int) -> bool, k: int)
    requires
        0 <= k <= len,
    ensures
        k <= first_from(len, p, k) <= len,
        forall|j: int| k <= j < first_from(len, p, k) ==> !(#[trigger] p(j)),
        first_from(len, p, k) < len ==> p(first_from(len, p, k)),
    decreases len - k,
{
    if k < len && !p(k) {
        lemma_first_from(len, p, k + 1);
    }
}

/// `first_where` finds a position at which `p` holds and before which it
/// does not.
pub proof fn lemma_first_where(len: int, p: spec_fn(int) -> bool)
    requires
        0 <= len,
    ensures
        0 <= first_where(len, p) <= len,
        forall|j: int| 0 <= j < first_where(len, p) ==> !(#[trigger] p(j)),
        first_where(len, p) < len ==> p(first_where(len, p)),
{
    lemma_first_from(len, p, 0);
}

/// A position at which `p` holds and before which it does not is what
/// `first_where` finds.
pub proof fn lemma_first_where_is(len: int, p: spec_fn(int) -> bool, r: int)
    requires
        0 <= r <= len,
        forall|j: int| 0 <= j < r ==> !(#[trigger] p(j)),
        r < len ==> p(r),
    ensures
        first_where(len, p) == r,
{
    lemma_first_where(len, p);
    let found = first_where(len, p);
    if found < r {
        assert(!p(found));
    } else if r < found {
        assert(!p(r));
    }
}

} // verus!
