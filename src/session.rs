//! The per-connection subscription session: at most one live subscription,
//! replaced on each subscribe request and always released before the end.

use vstd::prelude::*;
use crate::registry::{after_subscribe, after_unsubscribe, count_in, Store, Tables};
use crate::request::{key_name, parse_key, string_field_of};

verus! {

/// A message from the connection, as the session sees it.
pub enum Inbound {
    /// A text message; an empty one asks to close.
    Text(String),
    /// A message that is not text.
    NotText,
    /// The connection closed or failed.
    Closed,
}

/// What the connection's driver does after a message.
pub enum Reaction {
    /// Relay what arrives on this receiver from now on, in place of any
    /// earlier one.
    Subscribed(tokio::sync::mpsc::Receiver<String>),
    /// The session is over.
    Ended,
}

/// The key a message asks to subscribe to: the `key` field of a non-empty
/// text message. Anything else ends the session.
pub open spec fn requested_key(msg: Inbound) -> Option<Seq<char>> {
    match msg {
        Inbound::Text(t) => if t@.len() == 0 {
            None
        } else {
            string_field_of(t@, key_name())
        },
        _ => None,
    }
}

/// The tables once the subscription `cur`, if any, is released.
pub open spec fn released(m: Tables, cur: Option<(Seq<char>, usize)>) -> Tables {
    match cur {
        Some((k, id)) => after_unsubscribe(m, k, id),
        None => m,
    }
}

pub struct Session {
    current: Option<(String, usize)>,
}

impl Session {
    /// The live subscription: its key and identity.
    pub closed spec fn current(&self) -> Option<(Seq<char>, usize)> {
        match self.current {
            Some((k, id)) => Some((k@, id)),
            None => None,
        }
    }

    /// A session with no subscription.
    pub fn new() -> (r: Session)
        ensures
            r.current() is None,
    {
        Session { current: None }
    }

    /// Releases the live subscription, if any.
    pub fn close(&mut self, store: &mut Store)
        requires
            old(store).wf(),
        ensures
            final(store).wf(),
            final(store)@ == released(old(store)@, old(self).current()),
            final(self).current() is None,
    {
        match self.current.take() {
            Some((k, id)) => store.dec_key(k, id),
            None => {},
        }
    }

    /// Handles one message from the connection. A subscribe request first
    /// releases the live subscription, then subscribes to the new key. Any
    /// other message releases it and ends the session; so does a request
    /// for a key whose count is already at its largest value.
    pub fn on_inbound(&mut self, store: &mut Store, msg: Inbound) -> (r: Reaction)
        requires
            old(store).wf(),
        ensures
            final(store).wf(),
            ({
                let rel = released(old(store)@, old(self).current());
                match requested_key(msg) {
                    Some(k) => if count_in(rel, k) < usize::MAX {
                        &&& r is Subscribed
                        &&& final(store)@ == after_subscribe(rel, k)
                        &&& final(self).current() == Some((k, (count_in(rel, k) + 1) as usize))
                    } else {
                        &&& r is Ended
                        &&& final(store)@ == rel
                        &&& final(self).current() is None
                    },
                    None => {
                        &&& r is Ended
                        &&& final(store)@ == rel
                        &&& final(self).current() is None
                    },
                }
            }),
    {
        let key = match msg {
            Inbound::Text(t) => if t.as_str().is_empty() {
                None
            } else {
                parse_key(t.as_str())
            },
            _ => None,
        };
        self.close(store);
        match key {
            Some(k) => {
                if store.info(k.clone()) < usize::MAX {
                    let (rx, id) = store.get_updates(k.clone());
                    self.current = Some((k, id));
                    Reaction::Subscribed(rx)
                } else {
                    Reaction::Ended
                }
            },
            None => Reaction::Ended,
        }
    }
}

} // verus!
