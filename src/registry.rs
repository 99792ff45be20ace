//! The subscription registry: for each key, its live subscriber count and
//! its round-robin delivery queue, kept together so that no key is ever in
//! one and not in the other.

use vstd::prelude::*;
use crate::channel::{hand_off, open_slot};
use crate::queue::{after_hand_off, offered_to, without_first, DeliveryQueue, Subscriber};

verus! {

/// The registry as a map from key to (subscriber count, identities in queue
/// order).
pub type Tables = Map<Seq<char>, (nat, Seq<usize>)>;

/// The subscriber count of `k`: 0 when the key is unknown.
pub open spec fn count_in(m: Tables, k: Seq<char>) -> nat {
    if m.contains_key(k) {
        m[k].0
    } else {
        0
    }
}

/// The delivery queue of `k`: empty when the key is unknown.
pub open spec fn queue_in(m: Tables, k: Seq<char>) -> Seq<usize> {
    if m.contains_key(k) {
        m[k].1
    } else {
        Seq::empty()
    }
}

/// Subscribe: the count goes up by one and the new count, as the new
/// subscriber's identity, joins the tail of the queue.
pub open spec fn after_subscribe(m: Tables, k: Seq<char>) -> Tables {
    let c = count_in(m, k) + 1;
    m.insert(k, (c, queue_in(m, k).push(c as usize)))
}

/// Unsubscribe: the count goes down by one and the first entry with `id`
/// leaves the queue; the key goes away once its count reaches zero.
pub open spec fn after_unsubscribe(m: Tables, k: Seq<char>, id: usize) -> Tables {
    if !m.contains_key(k) {
        m
    } else if m[k].0 <= 1 {
        m.remove(k)
    } else {
        m.insert(k, ((m[k].0 - 1) as nat, without_first(m[k].1, id)))
    }
}

/// Publish: with an empty or absent queue nothing changes; otherwise the
/// head is served and rotated or dropped, and the count stays as it was.
pub open spec fn after_publish(m: Tables, k: Seq<char>, delivered: bool) -> Tables {
    if queue_in(m, k).len() == 0 {
        m
    } else {
        m.insert(k, (m[k].0, after_hand_off(m[k].1, delivered)))
    }
}

/// What a publish did.
#[derive(Debug, PartialEq, Eq, Structural)]
pub enum Delivery {
    /// The key had no subscriber in its queue: the value was dropped.
    NoSubscriber,
    /// The head subscriber with this identity took the value and moved to
    /// the tail.
    Delivered(usize),
    /// The head subscriber with this identity could not take the value
    /// (its slot was full or its receiver gone) and left the rotation.
    Dropped(usize),
}

struct KeyEntry {
    key: String,
    uses: usize,
    queue: DeliveryQueue,
}

spec fn entry_view(e: KeyEntry) -> (nat, Seq<usize>) {
    (e.uses as nat, e.queue@)
}

/// The broker's state: every key with live subscriptions, its count and its
/// delivery queue.
pub struct Store {
    entries: Vec<KeyEntry>,
    /// The subscribers that left the rotation after a failed hand-off.
    retired: Ghost<Seq<Subscriber>>,
}

impl View for Store {
    type V = Tables;

    closed spec fn view(&self) -> Tables {
        Map::new(
            |k: Seq<char>| exists|i: int| self.has_at(k, i),
            |k: Seq<char>| entry_view(self.entries@[choose|i: int| self.has_at(k, i)]),
        )
    }
}

impl Store {
    spec fn has_at(&self, k: Seq<char>, i: int) -> bool {
        0 <= i < self.entries@.len() && self.entries@[i].key@ == k
    }

    /// The subscribers of `k` in queue order; none when the key is unknown.
    pub closed spec fn subs_of(&self, k: Seq<char>) -> Seq<Subscriber> {
        if exists|i: int| self.has_at(k, i) {
            self.entries@[choose|i: int| self.has_at(k, i)].queue.subscribers()
        } else {
            Seq::empty()
        }
    }

    /// Every subscriber that a failed hand-off took out of its queue, in the
    /// order they left.
    pub closed spec fn retired(&self) -> Seq<Subscriber> {
        self.retired@
    }

    /// Keys are unique and every present key has a positive count.
    pub closed spec fn wf(&self) -> bool {
        &&& forall|i: int, j: int|
            0 <= i < self.entries@.len() && 0 <= j < self.entries@.len() && i != j
                ==> self.entries@[i].key@ != self.entries@[j].key@
        &&& forall|i: int| 0 <= i < self.entries@.len() ==> self.entries@[i].uses > 0
    }

    proof fn lemma_at(&self, i: int)
        requires
            self.wf(),
            0 <= i < self.entries@.len(),
        ensures
            self@.contains_key(self.entries@[i].key@),
            self@[self.entries@[i].key@] == entry_view(self.entries@[i]),
            self.subs_of(self.entries@[i].key@) == self.entries@[i].queue.subscribers(),
    {
        let k = self.entries@[i].key@;
        assert(self.has_at(k, i));
        let c = choose|c: int| self.has_at(k, c);
        assert(c == i);
    }

    /// Positive counts: what `wf` says, in terms of the view.
    pub proof fn lemma_counts_positive(&self, k: Seq<char>)
        requires
            self.wf(),
            self@.contains_key(k),
        ensures
            self@[k].0 > 0,
    {
        let i = choose|i: int| self.has_at(k, i);
        self.lemma_at(i);
    }

    proof fn lemma_update(pre: Store, post: Store, i: int, e: KeyEntry)
        requires
            pre.wf(),
            0 <= i < pre.entries@.len(),
            post.entries@ == pre.entries@.update(i, e),
            e.key@ == pre.entries@[i].key@,
            e.uses > 0,
        ensures
            post.wf(),
            post@ == pre@.insert(e.key@, entry_view(e)),
            post.subs_of(e.key@) == e.queue.subscribers(),
            forall|k2: Seq<char>| k2 != e.key@ ==> #[trigger] post.subs_of(k2) == pre.subs_of(k2),
    {
        let k = e.key@;
        let want = pre@.insert(k, entry_view(e));
        assert forall|k2: Seq<char>| #[trigger] post@.contains_key(k2) == want.contains_key(k2) by {
            if post@.contains_key(k2) {
                let j = choose|j: int| post.has_at(k2, j);
                if j != i {
                    assert(pre.has_at(k2, j));
                }
            }
            if pre@.contains_key(k2) {
                let j = choose|j: int| pre.has_at(k2, j);
                assert(post.has_at(k2, j));
            }
            if k2 == k {
                assert(post.has_at(k2, i));
            }
        }
        assert forall|k2: Seq<char>| #[trigger] post@.contains_key(k2) implies post@[k2]
            == want[k2] by {
            let j = choose|j: int| post.has_at(k2, j);
            post.lemma_at(j);
            if j != i {
                pre.lemma_at(j);
            }
        }
        assert(post@ =~= want);
        post.lemma_at(i);
        assert forall|k2: Seq<char>| k2 != k implies #[trigger] post.subs_of(k2) == pre.subs_of(k2) by {
            if pre@.contains_key(k2) {
                let j = choose|j: int| pre.has_at(k2, j);
                assert(post.has_at(k2, j));
                post.lemma_at(j);
                pre.lemma_at(j);
            } else {
                assert(!post@.contains_key(k2));
            }
        }
    }

    proof fn lemma_push(pre: Store, post: Store, e: KeyEntry)
        requires
            pre.wf(),
            !pre@.contains_key(e.key@),
            post.entries@ == pre.entries@.push(e),
            e.uses > 0,
        ensures
            post.wf(),
            post@ == pre@.insert(e.key@, entry_view(e)),
            post.subs_of(e.key@) == e.queue.subscribers(),
            forall|k2: Seq<char>| k2 != e.key@ ==> #[trigger] post.subs_of(k2) == pre.subs_of(k2),
    {
        let k = e.key@;
        let n = pre.entries@.len() as int;
        assert forall|i: int| 0 <= i < n implies pre.entries@[i].key@ != k by {
            assert(pre.has_at(pre.entries@[i].key@, i));
        }
        assert(post.wf());
        let want = pre@.insert(k, entry_view(e));
        assert forall|k2: Seq<char>| #[trigger] post@.contains_key(k2) == want.contains_key(k2) by {
            if post@.contains_key(k2) {
                let j = choose|j: int| post.has_at(k2, j);
                if j != n {
                    assert(pre.has_at(k2, j));
                }
            }
            if pre@.contains_key(k2) {
                let j = choose|j: int| pre.has_at(k2, j);
                assert(post.has_at(k2, j));
            }
            if k2 == k {
                assert(post.has_at(k2, n));
            }
        }
        assert forall|k2: Seq<char>| #[trigger] post@.contains_key(k2) implies post@[k2]
            == want[k2] by {
            let j = choose|j: int| post.has_at(k2, j);
            post.lemma_at(j);
            if j != n {
                pre.lemma_at(j);
            }
        }
        assert(post@ =~= want);
        post.lemma_at(n);
        assert forall|k2: Seq<char>| k2 != k implies #[trigger] post.subs_of(k2) == pre.subs_of(k2) by {
            if pre@.contains_key(k2) {
                let j = choose|j: int| pre.has_at(k2, j);
                assert(post.has_at(k2, j));
                post.lemma_at(j);
                pre.lemma_at(j);
            } else {
                assert(!post@.contains_key(k2));
            }
        }
    }

    proof fn lemma_remove(pre: Store, post: Store, i: int)
        requires
            pre.wf(),
            0 <= i < pre.entries@.len(),
            post.entries@ == pre.entries@.remove(i),
        ensures
            post.wf(),
            post@ == pre@.remove(pre.entries@[i].key@),
    {
        let k = pre.entries@[i].key@;
        let n = post.entries@.len() as int;
        assert forall|a: int, b: int|
            0 <= a < n && 0 <= b < n && a != b implies post.entries@[a].key@
            != post.entries@[b].key@ by {
            let a2 = if a < i { a } else { a + 1 };
            let b2 = if b < i { b } else { b + 1 };
            assert(post.entries@[a] == pre.entries@[a2]);
            assert(post.entries@[b] == pre.entries@[b2]);
        }
        assert forall|a: int| 0 <= a < n implies post.entries@[a].uses > 0 by {
            let a2 = if a < i { a } else { a + 1 };
            assert(post.entries@[a] == pre.entries@[a2]);
        }
        let want = pre@.remove(k);
        assert forall|k2: Seq<char>| #[trigger] post@.contains_key(k2) == want.contains_key(k2) by {
            if post@.contains_key(k2) {
                let j = choose|j: int| post.has_at(k2, j);
                let j2 = if j < i { j } else { j + 1 };
                assert(pre.has_at(k2, j2));
                assert(j2 != i);
            }
            if want.contains_key(k2) {
                let j = choose|j: int| pre.has_at(k2, j);
                assert(j != i);
                let j1 = if j < i { j } else { j - 1 };
                assert(post.has_at(k2, j1));
            }
        }
        assert forall|k2: Seq<char>| #[trigger] post@.contains_key(k2) implies post@[k2]
            == want[k2] by {
            let j = choose|j: int| post.has_at(k2, j);
            let j2 = if j < i { j } else { j + 1 };
            post.lemma_at(j);
            pre.lemma_at(j2);
        }
        assert(post@ =~= want);
    }

    /// An empty registry.
    pub fn new() -> (r: Store)
        ensures
            r.wf(),
            r@ == Tables::empty(),
            r.retired() == Seq::<Subscriber>::empty(),
    {
        let r = Store { entries: Vec::new(), retired: Ghost(Seq::empty()) };
        assert(r@ =~= Tables::empty());
        r
    }

    fn find(&self, key: &String) -> (r: Option<usize>)
        requires
            self.wf(),
        ensures
            r is None ==> !self@.contains_key(key@),
            r is Some ==> self.has_at(key@, r->0 as int),
    {
        let mut i: usize = 0;
        while i < self.entries.len()
            invariant
                0 <= i <= self.entries@.len(),
                forall|j: int| 0 <= j < i ==> self.entries@[j].key@ != key@,
            decreases self.entries@.len() - i,
        {
            if self.entries[i].key == *key {
                return Some(i);
            }
            i = i + 1;
        }
        None
    }

    /// Subscribe to `key`: returns the receiving end of a fresh single-slot
    /// channel and the subscriber's identity, the key's new count.
    pub fn get_updates(&mut self, key: String) -> (r: (tokio::sync::mpsc::Receiver<String>, usize))
        requires
            old(self).wf(),
            count_in(old(self)@, key@) < usize::MAX,
        ensures
            final(self).wf(),
            final(self)@ == after_subscribe(old(self)@, key@),
            final(self)@.contains_key(key@) && final(self)@[key@].0 > 0,
            r.1 == count_in(old(self)@, key@) + 1,
            final(self).subs_of(key@) == old(self).subs_of(key@).push(final(self).subs_of(key@).last()),
            final(self).subs_of(key@).last().id == r.1,
            final(self).subs_of(key@).last().offered@ == Seq::<Seq<char>>::empty(),
            forall|k: Seq<char>| k != key@ ==> #[trigger] final(self).subs_of(k) == old(self).subs_of(k),
            final(self).retired() == old(self).retired(),
    {
        let ghost pre = *self;
        let (tx, rx) = open_slot();
        match self.find(&key) {
            Some(i) => {
                proof {
                    pre.lemma_at(i as int);
                }
                let mut e = self.entries.remove(i);
                e.uses = e.uses + 1;
                let id = e.uses;
                e.queue.push_back(Subscriber { sender: tx, id, offered: Ghost(Seq::empty()) });
                self.entries.insert(i, e);
                proof {
                    assert(self.entries@ =~= pre.entries@.update(i as int, e));
                    Store::lemma_update(pre, *self, i as int, e);
                }
                (rx, id)
            },
            None => {
                let mut q = DeliveryQueue::new();
                q.push_back(Subscriber { sender: tx, id: 1, offered: Ghost(Seq::empty()) });
                let e = KeyEntry { key, uses: 1, queue: q };
                self.entries.push(e);
                proof {
                    Store::lemma_push(pre, *self, e);
                    assert(queue_in(pre@, e.key@).push(1) =~= e.queue@);
                    assert(pre.subs_of(key@) =~= Seq::<Subscriber>::empty());
                    assert(self.subs_of(key@) =~= pre.subs_of(key@).push(self.subs_of(key@).last()));
                }
                (rx, 1)
            },
        }
    }

    /// Unsubscribe identity `id` from `key`: the count goes down by one, the
    /// first queue entry with that identity leaves, and the key is forgotten
    /// once its count reaches zero. Unknown keys and identities are no-ops.
    pub fn dec_key(&mut self, key: String, id: usize)
        requires
            old(self).wf(),
        ensures
            final(self).wf(),
            final(self)@ == after_unsubscribe(old(self)@, key@, id),
            final(self).retired() == old(self).retired(),
    {
        let ghost pre = *self;
        match self.find(&key) {
            Some(i) => {
                proof {
                    pre.lemma_at(i as int);
                }
                let mut e = self.entries.remove(i);
                if e.uses > 1 {
                    e.uses = e.uses - 1;
                    e.queue.remove_id(id);
                    self.entries.insert(i, e);
                    proof {
                        assert(self.entries@ =~= pre.entries@.update(i as int, e));
                        Store::lemma_update(pre, *self, i as int, e);
                    }
                } else {
                    proof {
                        Store::lemma_remove(pre, *self, i as int);
                    }
                }
            },
            None => {},
        }
    }

    /// Publish `value` under `key`: the head of the key's queue is offered
    /// the value without blocking; it rotates to the tail if it took it and
    /// leaves the rotation if not. Counts never change here.
    pub fn rpush(&mut self, key: String, value: String) -> (r: Delivery)
        requires
            old(self).wf(),
        ensures
            final(self).wf(),
            forall|k: Seq<char>| k != key@ ==> #[trigger] final(self).subs_of(k) == old(self).subs_of(k),
            r is NoSubscriber ==> final(self).subs_of(key@) == old(self).subs_of(key@)
                && final(self).retired() == old(self).retired(),
            r is Delivered ==> final(self).retired() == old(self).retired()
                && final(self).subs_of(key@) == old(self).subs_of(key@).drop_first().push(final(self).subs_of(key@).last())
                && offered_to(old(self).subs_of(key@)[0], final(self).subs_of(key@).last(), value@),
            r is Dropped ==> final(self).subs_of(key@) == old(self).subs_of(key@).drop_first()
                && final(self).retired() == old(self).retired().push(final(self).retired().last())
                && offered_to(old(self).subs_of(key@)[0], final(self).retired().last(), value@),
            match r {
                Delivery::NoSubscriber => queue_in(old(self)@, key@).len() == 0 && final(self)@
                    == old(self)@,
                Delivery::Delivered(id) => queue_in(old(self)@, key@).len() > 0 && id == queue_in(
                    old(self)@,
                    key@,
                )[0] && final(self)@ == after_publish(old(self)@, key@, true),
                Delivery::Dropped(id) => queue_in(old(self)@, key@).len() > 0 && id == queue_in(
                    old(self)@,
                    key@,
                )[0] && final(self)@ == after_publish(old(self)@, key@, false),
            },
    {
        let ghost pre = *self;
        match self.find(&key) {
            None => Delivery::NoSubscriber,
            Some(i) => {
                proof {
                    pre.lemma_at(i as int);
                }
                let mut e = self.entries.remove(i);
                match e.queue.pop_head() {
                    None => {
                        self.entries.insert(i, e);
                        proof {
                            assert(self.entries@ =~= pre.entries@.update(i as int, e));
                            Store::lemma_update(pre, *self, i as int, e);
                            assert(self@ =~= pre@);
                        }
                        Delivery::NoSubscriber
                    },
                    Some(head) => {
                        let mut head = head;
                        let id = head.id;
                        let delivered = hand_off(&mut head, value);
                        let ghost served = head;
                        e.queue.settle(head, delivered);
                        if !delivered {
                            self.retired = Ghost(self.retired@.push(served));
                        }
                        self.entries.insert(i, e);
                        proof {
                            assert(self.entries@ =~= pre.entries@.update(i as int, e));
                            Store::lemma_update(pre, *self, i as int, e);
                        }
                        if delivered {
                            Delivery::Delivered(id)
                        } else {
                            Delivery::Dropped(id)
                        }
                    },
                }
            },
        }
    }

    /// The subscriber count of `key`, 0 when it is unknown.
    pub fn info(&self, key: String) -> (r: usize)
        requires
            self.wf(),
        ensures
            r == count_in(self@, key@),
    {
        match self.find(&key) {
            Some(i) => {
                proof {
                    self.lemma_at(i as int);
                }
                self.entries[i].uses
            },
            None => 0,
        }
    }

    /// Every key that currently has an entry, each once, in no particular
    /// order.
    pub fn list(&self) -> (r: Vec<String>)
        requires
            self.wf(),
        ensures
            forall|i: int| 0 <= i < r@.len() ==> self@.contains_key(#[trigger] r@[i]@),
            forall|k: Seq<char>| #[trigger]
                self@.contains_key(k) ==> exists|i: int| 0 <= i < r@.len() && r@[i]@ == k,
            forall|i: int, j: int|
                0 <= i < r@.len() && 0 <= j < r@.len() && i != j ==> r@[i]@ != r@[j]@,
    {
        let mut r: Vec<String> = Vec::new();
        let mut i: usize = 0;
        while i < self.entries.len()
            invariant
                0 <= i <= self.entries@.len(),
                r@.len() == i,
                forall|j: int| 0 <= j < i ==> r@[j]@ == self.entries@[j].key@,
            decreases self.entries@.len() - i,
        {
            r.push(self.entries[i].key.clone());
            i = i + 1;
        }
        proof {
            assert forall|j: int| 0 <= j < r@.len() implies self@.contains_key(#[trigger] r@[j]@) by {
                self.lemma_at(j);
            }
            assert forall|k: Seq<char>| #[trigger]
                self@.contains_key(k) implies exists|j: int| 0 <= j < r@.len() && r@[j]@ == k by {
                let j = choose|j: int| self.has_at(k, j);
                assert(r@[j]@ == k);
            }
        }
        r
    }
}

impl Default for Store {
    fn default() -> (r: Store)
        ensures
            r.wf(),
            r@ == Tables::empty(),
    {
        Store::new()
    }
}

} // verus!
