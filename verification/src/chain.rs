//! Chains of slots threaded through two arrays of links.
//!
//! A slot is a position in a storage block. `nexts[i]` and `prevs[i]` are the
//! links of slot `i`. A chain is a list of distinct slots in which every slot
//! is joined to its successor by `nexts` and to its predecessor by `prevs`.
//! The links of the two ends that point out of the chain carry no meaning.

use vstd::prelude::*;

verus! {

/// The slots met on the first `n` steps along the `next` links from `start`.
pub open spec fn path(nexts: Seq<int>, start: int, n: nat) -> Seq<int>
    decreases n,
{
    if n == 0 {
        Seq::<int>::empty()
    } else {
        seq![start] + path(nexts, nexts[start], (n - 1) as nat)
    }
}

/// `o` is a chain from `head` to `tail`: its slots exist, no slot occurs twice,
/// it starts at `head` and ends at `tail`, and neighbours are linked both ways.
pub open spec fn is_chain(
    nexts: Seq<int>,
    prevs: Seq<int>,
    head: int,
    tail: int,
    o: Seq<int>,
) -> bool {
    &&& nexts.len() == prevs.len()
    &&& forall|k: int| 0 <= k < o.len() ==> 0 <= #[trigger] o[k] < nexts.len()
    &&& o.no_duplicates()
    &&& o.len() > 0 ==> o[0] == head && o[o.len() - 1] == tail
    &&& forall|j: int, k: int|
        0 <= j && k == j + 1 && k < o.len() ==> nexts[#[trigger] o[j]] == #[trigger] o[k]
            && prevs[o[k]] == o[j]
}

/// A walk of `n` steps finds `n` slots.
pub proof fn lemma_path_len(nexts: Seq<int>, start: int, n: nat)
    ensures
        path(nexts, start, n).len() == n,
    decreases n,
{
    if n > 0 {
        lemma_path_len(nexts, nexts[start], (n - 1) as nat);
    }
}

proof fn lemma_path_suffix(
    nexts: Seq<int>,
    prevs: Seq<int>,
    head: int,
    tail: int,
    o: Seq<int>,
    k: int,
)
    requires
        is_chain(nexts, prevs, head, tail, o),
        0 <= k < o.len(),
    ensures
        path(nexts, o[k], (o.len() - k) as nat) =~= o.skip(k),
    decreases o.len() - k,
{
    if k + 1 < o.len() {
        lemma_path_suffix(nexts, prevs, head, tail, o, k + 1);
    }
    let rest = path(nexts, nexts[o[k]], (o.len() - k - 1) as nat);
    assert(path(nexts, o[k], (o.len() - k) as nat) == seq![o[k]] + rest);
}

/// A chain is what a walk along `next` from its head finds.
pub proof fn lemma_chain_is_path(
    nexts: Seq<int>,
    prevs: Seq<int>,
    head: int,
    tail: int,
    o: Seq<int>,
)
    requires
        is_chain(nexts, prevs, head, tail, o),
    ensures
        path(nexts, head, o.len()) == o,
{
    if o.len() > 0 {
        lemma_path_suffix(nexts, prevs, head, tail, o, 0);
    }
}

/// A chain that is as long as the storage block holds every slot of it.
pub proof fn lemma_chain_covers(
    nexts: Seq<int>,
    prevs: Seq<int>,
    head: int,
    tail: int,
    o: Seq<int>,
)
    requires
        is_chain(nexts, prevs, head, tail, o),
        o.len() == nexts.len(),
    ensures
        forall|i: int| 0 <= i < nexts.len() ==> o.contains(i),
{
    let n = nexts.len() as int;
    let all = vstd::set_lib::set_int_range(0, n);
    o.unique_seq_to_set();
    vstd::set_lib::lemma_int_range(0, n);
    assert(o.to_set().subset_of(all));
    vstd::set_lib::lemma_subset_equality(o.to_set(), all);
    assert forall|i: int| 0 <= i < n implies o.contains(i) by {
        assert(all.contains(i));
    }
}

/// A chain holds nothing but slots of the storage block.
pub proof fn lemma_chain_holds_slots(
    nexts: Seq<int>,
    prevs: Seq<int>,
    head: int,
    tail: int,
    o: Seq<int>,
    x: int,
)
    requires
        is_chain(nexts, prevs, head, tail, o),
        !(0 <= x < nexts.len()),
    ensures
        !o.contains(x),
{
    if o.contains(x) {
        let k = o.index_of(x);
        assert(0 <= o[k] < nexts.len());
    }
}

/// Where the slot at place `k` of a chain stands: at the head only at the
/// first place, at the tail only at the last, and between its neighbours.
pub proof fn lemma_chain_neighbours(
    nexts: Seq<int>,
    prevs: Seq<int>,
    head: int,
    tail: int,
    o: Seq<int>,
    k: int,
)
    requires
        is_chain(nexts, prevs, head, tail, o),
        0 <= k < o.len(),
    ensures
        0 <= o[k] < nexts.len(),
        o[k] == head <==> k == 0,
        o[k] == tail <==> k == o.len() - 1,
        k > 0 ==> prevs[o[k]] == o[k - 1],
        k < o.len() - 1 ==> nexts[o[k]] == o[k + 1],
{
}

/// The `next` links after slot `i` is unlinked: its predecessor, if it has
/// one, is linked to its successor.
pub open spec fn nexts_without(nexts: Seq<int>, prevs: Seq<int>, head: int, i: int) -> Seq<int> {
    if i == head {
        nexts
    } else {
        nexts.update(prevs[i], nexts[i])
    }
}

/// The `prev` links after slot `i` is unlinked: its successor, if it has
/// one, is linked to its predecessor.
pub open spec fn prevs_without(nexts: Seq<int>, prevs: Seq<int>, tail: int, i: int) -> Seq<int> {
    if i == tail {
        prevs
    } else {
        prevs.update(nexts[i], prevs[i])
    }
}

/// The head after slot `i` is unlinked.
pub open spec fn head_without(nexts: Seq<int>, head: int, i: int) -> int {
    if i == head {
        nexts[i]
    } else {
        head
    }
}

/// The tail after slot `i` is unlinked.
pub open spec fn tail_without(prevs: Seq<int>, tail: int, i: int) -> int {
    if i == tail {
        prevs[i]
    } else {
        tail
    }
}

/// Unlinking one slot of a chain, whether head, tail or in between, leaves
/// the other slots a chain in their old order.
pub proof fn lemma_chain_remove(
    nexts: Seq<int>,
    prevs: Seq<int>,
    head: int,
    tail: int,
    o: Seq<int>,
    k: int,
)
    requires
        is_chain(nexts, prevs, head, tail, o),
        0 <= k < o.len(),
    ensures
        !o.remove(k).contains(o[k]),
        is_chain(
            nexts_without(nexts, prevs, head, o[k]),
            prevs_without(nexts, prevs, tail, o[k]),
            head_without(nexts, head, o[k]),
            tail_without(prevs, tail, o[k]),
            o.remove(k),
        ),
{
    let o2 = o.remove(k);
    let nexts2 = nexts_without(nexts, prevs, head, o[k]);
    let prevs2 = prevs_without(nexts, prevs, tail, o[k]);
    lemma_chain_neighbours(nexts, prevs, head, tail, o, k);
    // Every place of the shorter list is a place of the longer one.
    assert forall|j: int| 0 <= j < o2.len() implies #[trigger] o2[j] == (if j < k {
        o[j]
    } else {
        o[j + 1]
    }) by {}
    assert(o2.no_duplicates());
    assert(!o2.contains(o[k]));
    assert forall|j: int, j1: int| 0 <= j && j1 == j + 1 && j1 < o2.len() implies nexts2[#[trigger] o2[j]]
        == #[trigger] o2[j1] && prevs2[o2[j1]] == o2[j] by {
        let a = if j < k { j } else { j + 1 };
        let b = if j1 < k { j1 } else { j1 + 1 };
        assert(o2[j] == o[a] && o2[j1] == o[b]);
    }
}

} // verus!
