//! The rotating delivery queue of one key: the head is the next recipient.

use vstd::prelude::*;

verus! {

/// One subscription on a key: the sending end of its delivery channel, the
/// identity it was given, and the values offered to it so far.
pub struct Subscriber {
    pub sender: tokio::sync::mpsc::Sender<String>,
    pub id: usize,
    /// Every value handed to `sender`, in order; only a hand-off extends it.
    pub offered: Ghost<Seq<Seq<char>>>,
}

/// `after` is `before` once `v` was offered to it: the same channel and
/// identity, with `v` at the end of its log.
pub open spec fn offered_to(before: Subscriber, after: Subscriber, v: Seq<char>) -> bool {
    &&& after.id == before.id
    &&& after.sender == before.sender
    &&& after.offered@ == before.offered@.push(v)
}

/// The identities of a sequence of subscribers, in queue order.
pub open spec fn ids_of(s: Seq<Subscriber>) -> Seq<usize> {
    s.map_values(|x: Subscriber| x.id)
}

/// Whether position `i` holds the first occurrence of `id` in `s`.
pub open spec fn is_first_of(s: Seq<usize>, id: usize, i: int) -> bool {
    0 <= i < s.len() && s[i] == id && forall|j: int| 0 <= j < i ==> s[j] != id
}

/// `s` with its first occurrence of `id` taken out; `s` itself when `id`
/// does not occur.
pub open spec fn without_first(s: Seq<usize>, id: usize) -> Seq<usize> {
    if exists|i: int| is_first_of(s, id, i) {
        s.remove(choose|i: int| is_first_of(s, id, i))
    } else {
        s
    }
}

/// The queue after its head was served: on a successful hand-off the head
/// moves to the tail, otherwise it leaves the queue.
pub open spec fn after_hand_off(s: Seq<usize>, delivered: bool) -> Seq<usize>
    recommends
        s.len() > 0,
{
    if delivered {
        s.drop_first().push(s[0])
    } else {
        s.drop_first()
    }
}

proof fn lemma_first_unique(s: Seq<usize>, id: usize, i: int, j: int)
    requires
        is_first_of(s, id, i),
        is_first_of(s, id, j),
    ensures
        i == j,
{
    if i < j {
        assert(s[i] != id);
    } else if j < i {
        assert(s[j] != id);
    }
}

pub struct DeliveryQueue {
    subs: Vec<Subscriber>,
}

impl View for DeliveryQueue {
    type V = Seq<usize>;

    open spec fn view(&self) -> Seq<usize> {
        ids_of(self.subscribers())
    }
}

impl DeliveryQueue {
    /// The subscribers in queue order, the head first.
    pub closed spec fn subscribers(&self) -> Seq<Subscriber> {
        self.subs@
    }

    pub fn new() -> (r: DeliveryQueue)
        ensures
            r.subscribers() == Seq::<Subscriber>::empty(),
            r@ == Seq::<usize>::empty(),
    {
        let r = DeliveryQueue { subs: Vec::new() };
        assert(r@ =~= Seq::<usize>::empty());
        r
    }

    /// Appends a subscriber at the tail.
    pub fn push_back(&mut self, sub: Subscriber)
        ensures
            final(self).subscribers() == old(self).subscribers().push(sub),
            final(self)@ == old(self)@.push(sub.id),
    {
        self.subs.push(sub);
        assert(final(self)@ =~= old(self)@.push(sub.id));
    }

    /// Takes the head out of the queue, if there is one.
    pub fn pop_head(&mut self) -> (r: Option<Subscriber>)
        ensures
            old(self)@.len() == 0 ==> r is None,
            old(self)@.len() == 0 ==> final(self).subscribers() == old(self).subscribers(),
            old(self)@.len() > 0 ==> r == Some(old(self).subscribers()[0]),
            old(self)@.len() > 0 ==> final(self).subscribers() == old(self).subscribers().drop_first(),
            old(self)@.len() > 0 ==> r->0.id == old(self)@[0],
            old(self)@.len() > 0 ==> final(self)@ == old(self)@.drop_first(),
    {
        if self.subs.len() == 0 {
            None
        } else {
            let head = self.subs.remove(0);
            assert(final(self)@ =~= old(self)@.drop_first());
            Some(head)
        }
    }

    /// Settles a head that was taken out for a hand-off: it rejoins the
    /// rotation at the tail only when the hand-off succeeded.
    pub fn settle(&mut self, head: Subscriber, delivered: bool)
        ensures
            delivered ==> final(self).subscribers() == old(self).subscribers().push(head),
            delivered ==> final(self)@ == old(self)@.push(head.id),
            !delivered ==> final(self).subscribers() == old(self).subscribers(),
    {
        if delivered {
            self.push_back(head);
        }
    }

    /// Removes the first subscriber with identity `id`, if any.
    pub fn remove_id(&mut self, id: usize)
        ensures
            final(self)@ == without_first(old(self)@, id),
    {
        let ghost s = self@;
        let mut i: usize = 0;
        while i < self.subs.len()
            invariant
                self@ == s,
                s == old(self)@,
                0 <= i <= self.subs.len(),
                forall|j: int| 0 <= j < i ==> s[j] != id,
            decreases self.subs.len() - i,
        {
            if self.subs[i].id == id {
                proof {
                    assert(is_first_of(s, id, i as int));
                    let c = choose|c: int| is_first_of(s, id, c);
                    lemma_first_unique(s, id, i as int, c);
                    assert(without_first(s, id) == s.remove(i as int));
                }
                self.subs.remove(i);
                assert(self@ =~= s.remove(i as int));
                return;
            }
            i = i + 1;
        }
        proof {
            assert forall|c: int| !is_first_of(s, id, c) by {
                if is_first_of(s, id, c) {
                    assert(s[c] != id);
                }
            }
        }
    }
}

} // verus!
