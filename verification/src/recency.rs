//! The recency list: what a cache holds, as a plain sequence of values from
//! the most to the least recently used, and what each use does to it.

use vstd::prelude::*;

verus! {

/// The list after `v` is inserted: `v` comes first, and a list that was full
/// loses its last value.
pub open spec fn inserted<T>(s: Seq<T>, v: T, cap: nat) -> Seq<T> {
    if s.len() < cap {
        seq![v] + s
    } else {
        seq![v] + s.drop_last()
    }
}

/// The value that an insert pushes out: the last one of a full list.
pub open spec fn evicted<T>(s: Seq<T>, cap: nat) -> Option<T> {
    if s.len() < cap {
        None
    } else {
        Some(s.last())
    }
}

/// The list after the value at place `k` is used: it comes first and the
/// others keep their order.
pub open spec fn promoted<T>(s: Seq<T>, k: int) -> Seq<T> {
    seq![s[k]] + s.remove(k)
}

/// The list after the values of `vals` are inserted one after the other.
pub open spec fn after_inserts<T>(s: Seq<T>, vals: Seq<T>, cap: nat) -> Seq<T>
    decreases vals.len(),
{
    if vals.len() == 0 {
        s
    } else {
        inserted(after_inserts(s, vals.drop_last(), cap), vals.last(), cap)
    }
}

/// The last `cap` values of `vals`, or all of them if they are fewer,
/// the latest first.
pub open spec fn latest<T>(vals: Seq<T>, cap: nat) -> Seq<T> {
    if vals.len() <= cap {
        vals.reverse()
    } else {
        vals.skip(vals.len() - cap).reverse()
    }
}

/// Inserts into an empty list leave the latest values, the latest first.
pub proof fn lemma_after_inserts<T>(vals: Seq<T>, cap: nat)
    requires
        cap >= 1,
    ensures
        after_inserts(Seq::<T>::empty(), vals, cap) == latest(vals, cap),
    decreases vals.len(),
{
    if vals.len() > 0 {
        let init = vals.drop_last();
        lemma_after_inserts(init, cap);
        let before = after_inserts(Seq::<T>::empty(), init, cap);
        let got = after_inserts(Seq::<T>::empty(), vals, cap);
        assert forall|i: int| 0 <= i < got.len() implies got[i] == latest(vals, cap)[i] by {
            if i > 0 {
                assert(got[i] == before[i - 1]);
            }
        }
    }
}

/// Inserts alone never hold more than the capacity, and hold every value
/// inserted until the capacity is reached.
pub proof fn lemma_len_after_inserts<T>(vals: Seq<T>, cap: nat)
    requires
        cap >= 1,
    ensures
        after_inserts(Seq::<T>::empty(), vals, cap).len() == if vals.len() <= cap {
            vals.len()
        } else {
            cap
        },
{
    lemma_after_inserts(vals, cap);
}

/// As many inserts as the capacity, into an empty list, come back in
/// reverse, each value once.
pub proof fn lemma_round_trip<T>(vals: Seq<T>, cap: nat)
    requires
        cap >= 1,
        vals.len() == cap,
    ensures
        after_inserts(Seq::<T>::empty(), vals, cap) == vals.reverse(),
        forall|i: int|
            0 <= i < cap ==> #[trigger] after_inserts(Seq::<T>::empty(), vals, cap)[i] == vals[cap
                - 1 - i],
{
    lemma_after_inserts(vals, cap);
}

/// With inserts alone, the values leave in the order in which they came:
/// the insert that follows the first `cap + k` ones pushes out the value
/// that came at place `k`.
pub proof fn lemma_evicts_in_insertion_order<T>(vals: Seq<T>, cap: nat, k: int)
    requires
        cap >= 1,
        0 <= k,
        cap + k <= vals.len(),
    ensures
        evicted(after_inserts(Seq::<T>::empty(), vals.take(cap + k), cap), cap) == Some(vals[k]),
{
    lemma_after_inserts(vals.take(cap + k), cap);
}

/// One use of the cache: the insert of a value, or a search that stops at the
/// value at place `k` of the list (at none, if there is no such place).
pub enum Use<T> {
    Insert(T),
    Touch(int),
}

/// The list after one use.
pub open spec fn step<T>(s: Seq<T>, u: Use<T>, cap: nat) -> Seq<T> {
    match u {
        Use::Insert(v) => inserted(s, v, cap),
        Use::Touch(k) => if 0 <= k < s.len() {
            promoted(s, k)
        } else {
            s
        },
    }
}

/// The use `u` of the list `s` is a use of the value `x`.
pub open spec fn uses<T>(s: Seq<T>, u: Use<T>, x: T) -> bool {
    match u {
        Use::Insert(v) => v == x,
        Use::Touch(k) => 0 <= k < s.len() && s[k] == x,
    }
}

/// The list after the uses of `hist`, made of an empty list.
pub open spec fn run<T>(hist: Seq<Use<T>>, cap: nat) -> Seq<T>
    decreases hist.len(),
{
    if hist.len() == 0 {
        Seq::<T>::empty()
    } else {
        step(run(hist.drop_last(), cap), hist.last(), cap)
    }
}

/// The place in `hist` of the last use of `x`, or -1 if it was never used.
pub open spec fn last_use<T>(hist: Seq<Use<T>>, cap: nat, x: T) -> int
    decreases hist.len(),
{
    if hist.len() == 0 {
        -1
    } else if uses(run(hist.drop_last(), cap), hist.last(), x) {
        hist.len() - 1
    } else {
        last_use(hist.drop_last(), cap, x)
    }
}

/// No insert of `hist` brings a value that the list holds at that time.
pub open spec fn inserts_new<T>(hist: Seq<Use<T>>, cap: nat) -> bool {
    forall|t: int|
        0 <= t < hist.len() ==> (#[trigger] hist[t] matches Use::Insert(v) ==> !run(
            hist.take(t),
            cap,
        ).contains(v))
}

/// The list is never longer than the capacity, and it is ordered by last
/// use: of two values in it, the one nearer the front was used later.
pub proof fn lemma_ordered_by_last_use<T>(hist: Seq<Use<T>>, cap: nat)
    requires
        cap >= 1,
        inserts_new(hist, cap),
    ensures
        run(hist, cap).len() <= cap,
        forall|i: int|
            0 <= i < run(hist, cap).len() ==> 0 <= last_use(hist, cap, #[trigger] run(hist, cap)[i])
                < hist.len(),
        forall|i: int, j: int|
            0 <= i < j < run(hist, cap).len() ==> last_use(hist, cap, #[trigger] run(hist, cap)[i])
                > last_use(hist, cap, #[trigger] run(hist, cap)[j]),
    decreases hist.len(),
{
    if hist.len() > 0 {
        let h = hist.drop_last();
        let u = hist.last();
        let s0 = run(h, cap);
        let s = run(hist, cap);
        let t = hist.len() - 1;
        assert(inserts_new(h, cap)) by {
            assert forall|r: int| 0 <= r < h.len() implies (#[trigger] h[r] matches Use::Insert(v)
                ==> !run(h.take(r), cap).contains(v)) by {
                assert(h[r] == hist[r]);
                assert(h.take(r) =~= hist.take(r));
            }
        }
        lemma_ordered_by_last_use(h, cap);
        assert(hist.take(t) =~= h);
        // Where each value of the new list stood in the old one: -1 for the
        // value that was used.
        let from = |i: int|
            match u {
                Use::Insert(v) => i - 1,
                Use::Touch(k) => if 0 <= k < s0.len() {
                    if i == 0 {
                        -1
                    } else if i - 1 < k {
                        i - 1
                    } else {
                        i
                    }
                } else {
                    i
                },
            };
        assert forall|i: int| 0 <= i < s.len() implies (if from(i) == -1 {
            uses(s0, u, #[trigger] s[i])
        } else {
            0 <= from(i) < s0.len() && s[i] == s0[from(i)] && !uses(s0, u, s[i])
        }) by {
            match u {
                Use::Insert(v) => {
                    if i > 0 {
                        assert(s[i] == s0[i - 1]);
                        assert(s0.contains(s0[i - 1]));
                    }
                },
                Use::Touch(k) => {
                    if 0 <= k < s0.len() {
                        if i > 0 {
                            assert(s[i] == s0.remove(k)[i - 1]);
                            assert(last_use(h, cap, s0[from(i)]) != last_use(h, cap, s0[k]));
                        }
                    } else {
                        assert(s[i] == s0[i]);
                    }
                },
            }
        }
        assert forall|i: int| 0 <= i < s.len() implies 0 <= last_use(hist, cap, #[trigger] s[i])
            < hist.len() by {
            if from(i) != -1 {
                assert(last_use(hist, cap, s[i]) == last_use(h, cap, s0[from(i)]));
            }
        }
        assert forall|i: int, j: int| 0 <= i < j < s.len() implies last_use(hist, cap, #[trigger] s[i])
            > last_use(hist, cap, #[trigger] s[j]) by {
            assert(from(j) != -1 && from(i) < from(j));
            assert(last_use(hist, cap, s[j]) == last_use(h, cap, s0[from(j)]));
            if from(i) != -1 {
                assert(last_use(hist, cap, s[i]) == last_use(h, cap, s0[from(i)]));
            }
        }
    }
}

/// The value that an insert pushes out of a full list is the one whose last
/// use, by an insert or a search, lies furthest back.
pub proof fn lemma_evicts_least_recent<T>(hist: Seq<Use<T>>, cap: nat, i: int)
    requires
        cap >= 1,
        inserts_new(hist, cap),
        run(hist, cap).len() == cap,
        0 <= i < cap,
    ensures
        evicted(run(hist, cap), cap) == Some(run(hist, cap).last()),
        last_use(hist, cap, run(hist, cap).last()) <= last_use(hist, cap, run(hist, cap)[i]),
{
    lemma_ordered_by_last_use(hist, cap);
}

} // verus!
