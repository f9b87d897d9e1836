//! What a search knows of the predicate that it asks.
//!
//! A predicate is a function that may be called more than once and need not
//! answer alike each time. So a search says which answers the predicate can
//! have given, not which values satisfy it. Where the predicate is known to
//! answer as a mathematical predicate says, that tells where the search
//! stopped.

use vstd::prelude::*;

verus! {

/// `pred` may be called on every value of `s`.
pub open spec fn accepts<T, F: FnMut(&T) -> bool>(pred: F, s: Seq<T>) -> bool {
    forall|j: int| 0 <= j < s.len() ==> #[trigger] call_requires(pred, (&s[j],))
}

/// `pred` can answer `false` to each of the first `n` values of `s`.
pub open spec fn misses<T, F: FnMut(&T) -> bool>(pred: F, s: Seq<T>, n: int) -> bool {
    forall|j: int| 0 <= j < n ==> #[trigger] call_ensures(pred, (&s[j],), false)
}

/// `pred` can answer `false` to every value of `s` before place `k`, and
/// `true` to the value at place `k`.
pub open spec fn first_hit<T, F: FnMut(&T) -> bool>(pred: F, s: Seq<T>, k: int) -> bool {
    &&& 0 <= k < s.len()
    &&& misses(pred, s, k)
    &&& call_ensures(pred, (&s[k],), true)
}

/// `pred` answers as `p` says.
pub open spec fn decides<T, F: FnMut(&T) -> bool>(pred: F, p: spec_fn(T) -> bool) -> bool {
    forall|x: T, r: bool| #[trigger] call_ensures(pred, (&x,), r) ==> r == p(x)
}

/// Where `pred` answers as `p` says, a first hit is at the first value of the
/// list that satisfies `p`.
pub proof fn lemma_first_hit<T, F: FnMut(&T) -> bool>(
    pred: F,
    p: spec_fn(T) -> bool,
    s: Seq<T>,
    k: int,
)
    requires
        decides(pred, p),
        first_hit(pred, s, k),
    ensures
        p(s[k]),
        forall|j: int| 0 <= j < k ==> !p(#[trigger] s[j]),
{
    assert forall|j: int| 0 <= j < k implies !p(#[trigger] s[j]) by {
        assert(call_ensures(pred, (&s[j],), false));
    }
}

/// Where `pred` answers as `p` says, it misses only values that do not
/// satisfy `p`.
pub proof fn lemma_misses<T, F: FnMut(&T) -> bool>(
    pred: F,
    p: spec_fn(T) -> bool,
    s: Seq<T>,
    n: int,
)
    requires
        decides(pred, p),
        misses(pred, s, n),
    ensures
        forall|j: int| 0 <= j < n ==> !p(#[trigger] s[j]),
{
    assert forall|j: int| 0 <= j < n implies !p(#[trigger] s[j]) by {
        assert(call_ensures(pred, (&s[j],), false));
    }
}

} // verus!
