//! Properties of the registry that hold across operations.

use vstd::prelude::*;
use crate::queue::{after_hand_off, is_first_of, without_first};
use crate::registry::{
    after_publish, after_subscribe, after_unsubscribe, count_in, queue_in, Store, Tables,
};

verus! {

/// Every key present in the tables has a positive count.
pub open spec fn counts_positive(m: Tables) -> bool {
    forall|k: Seq<char>| #[trigger] m.contains_key(k) ==> m[k].0 > 0
}

/// The tables reached by `i` publishes to `k` in a row, each of them taken
/// by the subscriber it was offered to.
pub open spec fn publish_delivered_n(m: Tables, k: Seq<char>, i: nat) -> Tables
    decreases i,
{
    if i == 0 {
        m
    } else {
        after_publish(publish_delivered_n(m, k, (i - 1) as nat), k, true)
    }
}

/// A well-formed registry has a positive count for every key it holds, so
/// a key is present exactly when its count is not zero.
pub proof fn lemma_store_counts(s: Store, k: Seq<char>)
    requires
        s.wf(),
    ensures
        counts_positive(s@),
        s@.contains_key(k) <==> count_in(s@, k) > 0,
{
    assert forall|k2: Seq<char>| #[trigger] s@.contains_key(k2) implies s@[k2].0 > 0 by {
        s.lemma_counts_positive(k2);
    }
}

/// Subscribe, unsubscribe and publish keep every count positive, whatever
/// their order; hence no count ever drops below zero, and a key is absent
/// from the registry exactly when its count is zero.
pub proof fn lemma_counts_stay_positive(m: Tables, k: Seq<char>, id: usize, delivered: bool)
    requires
        counts_positive(m),
    ensures
        counts_positive(after_subscribe(m, k)),
        after_subscribe(m, k).contains_key(k) && count_in(after_subscribe(m, k), k) > 0,
        counts_positive(after_unsubscribe(m, k, id)),
        counts_positive(after_publish(m, k, delivered)),
        m.contains_key(k) <==> count_in(m, k) > 0,
        after_unsubscribe(m, k, id).contains_key(k) <==> count_in(after_unsubscribe(m, k, id), k)
            > 0,
{
    let a = after_subscribe(m, k);
    assert forall|k2: Seq<char>| #[trigger] a.contains_key(k2) implies a[k2].0 > 0 by {
        if k2 != k {
            assert(m.contains_key(k2));
        }
    }
    let b = after_unsubscribe(m, k, id);
    assert forall|k2: Seq<char>| #[trigger] b.contains_key(k2) implies b[k2].0 > 0 by {
        assert(m.contains_key(k2));
    }
    let c = after_publish(m, k, delivered);
    assert forall|k2: Seq<char>| #[trigger] c.contains_key(k2) implies c[k2].0 > 0 by {
        assert(m.contains_key(k2));
    }
}

/// Round-robin: while every hand-off succeeds, the `i`-th publish to a key
/// is offered to the `i`-th subscriber of its queue, and after as many
/// publishes as there are subscribers the queue is back where it started.
pub proof fn lemma_round_robin(m: Tables, k: Seq<char>, i: nat)
    requires
        i <= queue_in(m, k).len(),
    ensures
        queue_in(publish_delivered_n(m, k, i), k) == queue_in(m, k).subrange(
            i as int,
            queue_in(m, k).len() as int,
        ) + queue_in(m, k).subrange(0, i as int),
        i < queue_in(m, k).len() ==> queue_in(publish_delivered_n(m, k, i), k)[0] == queue_in(
            m,
            k,
        )[i as int],
        i == queue_in(m, k).len() ==> queue_in(publish_delivered_n(m, k, i), k) == queue_in(m, k),
    decreases i,
{
    let q = queue_in(m, k);
    let n = q.len() as int;
    if i == 0 {
        assert(q.subrange(0, n) + q.subrange(0, 0) =~= q);
    } else {
        let j = (i - 1) as nat;
        lemma_round_robin(m, k, j);
        let prev = publish_delivered_n(m, k, j);
        let p = queue_in(prev, k);
        assert(p.len() == n);
        assert(p[0] == q[j as int]);
        assert(queue_in(publish_delivered_n(m, k, i), k) == after_hand_off(p, true));
        assert(after_hand_off(p, true) =~= q.subrange(i as int, n) + q.subrange(0, i as int));
    }
    if i == n {
        assert(q.subrange(n, n) + q.subrange(0, n) =~= q);
    }
}

/// A subscriber whose hand-off failed is out of the rotation: when the
/// queue holds each identity once, the dropped identity is no longer in it,
/// so no later publish is offered to it.
pub proof fn lemma_dropped_leaves_rotation(m: Tables, k: Seq<char>)
    requires
        queue_in(m, k).len() > 0,
        queue_in(m, k).no_duplicates(),
    ensures
        !queue_in(after_publish(m, k, false), k).contains(queue_in(m, k)[0]),
        count_in(after_publish(m, k, false), k) == count_in(m, k),
{
    let q = queue_in(m, k);
    let r = queue_in(after_publish(m, k, false), k);
    assert(r == q.drop_first());
    if r.contains(q[0]) {
        let j = choose|j: int| 0 <= j < r.len() && r[j] == q[0];
        assert(q[j + 1] == q[0]);
    }
}

/// Unsubscribing an identity that is not in a key's queue leaves that
/// queue as it was (the count of the key still goes down by one), and
/// changes nothing for any other key.
pub proof fn lemma_unsubscribe_absent(m: Tables, k: Seq<char>, id: usize, other: Seq<char>)
    requires
        !queue_in(m, k).contains(id),
        other != k,
    ensures
        after_unsubscribe(m, k, id).contains_key(k) ==> queue_in(after_unsubscribe(m, k, id), k)
            == queue_in(m, k),
        count_in(after_unsubscribe(m, k, id), other) == count_in(m, other),
        queue_in(after_unsubscribe(m, k, id), other) == queue_in(m, other),
{
    let q = queue_in(m, k);
    assert forall|i: int| !is_first_of(q, id, i) by {
        if is_first_of(q, id, i) {
            assert(q.contains(id));
        }
    }
    assert(without_first(q, id) == q);
}

/// Switching a session from `k1` (identity `id1`) to another key `k2`
/// releases exactly that one subscription and takes exactly one new one:
/// `k1` loses one count and the first entry with `id1`, `k2` gains one count
/// and one entry at its tail, and every other key is untouched.
pub proof fn lemma_switch_keys(
    m: Tables,
    k1: Seq<char>,
    id1: usize,
    k2: Seq<char>,
    other: Seq<char>,
)
    requires
        counts_positive(m),
        m.contains_key(k1),
        k1 != k2,
        other != k1,
        other != k2,
    ensures
        ({
            let fin = after_subscribe(after_unsubscribe(m, k1, id1), k2);
            &&& count_in(fin, k1) == count_in(m, k1) - 1
            &&& fin.contains_key(k1) ==> queue_in(fin, k1) == without_first(queue_in(m, k1), id1)
            &&& count_in(fin, k2) == count_in(m, k2) + 1
            &&& queue_in(fin, k2) == queue_in(m, k2).push((count_in(m, k2) + 1) as usize)
            &&& count_in(fin, other) == count_in(m, other)
            &&& queue_in(fin, other) == queue_in(m, other)
        }),
{
    assert(m[k1].0 > 0);
}

} // verus!
