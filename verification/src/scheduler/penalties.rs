//! Penalty deadlines per scope.

use crate::idmap::IdMap;
use crate::time::Instant;
use crate::types::{OutboundChatKey, OutboundScope};
use vstd::prelude::*;

verus! {

/// The deadline until which each penalized scope is closed.
pub struct Penalties {
    global: Option<Instant>,
    chats: IdMap<Instant>,
}

impl Penalties {
    spec fn holds(&self, scope: OutboundScope) -> bool {
        match scope {
            OutboundScope::Global => self.global is Some,
            OutboundScope::Chat(chat) => self.chats@.contains_key(chat.value),
        }
    }

    spec fn deadline(&self, scope: OutboundScope) -> Instant {
        match scope {
            OutboundScope::Global => self.global->0,
            OutboundScope::Chat(chat) => self.chats@[chat.value],
        }
    }

    pub closed spec fn view(&self) -> Map<OutboundScope, Instant> {
        Map::new(
            |scope: OutboundScope| self.holds(scope),
            |scope: OutboundScope| self.deadline(scope),
        )
    }

    pub fn new() -> (r: Self)
        ensures
            r@ == Map::<OutboundScope, Instant>::empty(),
    {
        let r = Penalties { global: None, chats: IdMap::new() };
        assert(r@ =~= Map::<OutboundScope, Instant>::empty());
        r
    }

    pub fn get(&self, scope: OutboundScope) -> (r: Option<Instant>)
        ensures
            r is Some <==> self@.contains_key(scope),
            r matches Some(until) ==> until == self@[scope],
    {
        match scope {
            OutboundScope::Global => self.global,
            OutboundScope::Chat(chat) => match self.chats.get(chat.value) {
                Some(until) => Some(*until),
                None => None,
            },
        }
    }

    fn set(&mut self, scope: OutboundScope, until: Instant)
        ensures
            final(self)@ == old(self)@.insert(scope, until),
    {
        match scope {
            OutboundScope::Global => {
                self.global = Some(until);
            },
            OutboundScope::Chat(chat) => {
                self.chats.insert(chat.value, until);
            },
        }
        proof {
            let before = old(self)@.insert(scope, until);
            assert forall|s: OutboundScope|
                self@.contains_key(s) == before.contains_key(s) && (self@.contains_key(s)
                    ==> self@[s] == before[s]) by {
                if let (OutboundScope::Chat(a), OutboundScope::Chat(b)) = (s, scope) {
                    assert(a.value == b.value ==> a == b);
                }
            }
            assert(self@ =~= before);
        }
    }

    /// Closes `scope` until `until`, never shortening an earlier penalty.
    pub fn extend(&mut self, scope: OutboundScope, until: Instant)
        ensures
            final(self)@ == old(self)@.insert(
                scope,
                if old(self)@.contains_key(scope) {
                    old(self)@[scope].later(until)
                } else {
                    until
                },
            ),
    {
        match self.get(scope) {
            Some(held) => self.set(scope, held.later(until)),
            None => self.set(scope, until),
        }
    }

    /// Forgets the penalties that are over at `now`.
    pub fn prune(&mut self, now: Instant)
        ensures
            final(self)@ == old(self)@.restrict(
                Set::new(
                    |scope: OutboundScope|
                        old(self)@.contains_key(scope) && old(self)@[scope].nanos > now.nanos,
                ),
            ),
    {
        if let Some(until) = self.global {
            if until.nanos <= now.nanos {
                self.global = None;
            }
        }
        let keys = self.chats.keys();
        let mut i: usize = 0;
        while i < keys.len()
            invariant
                i <= keys@.len(),
                keys@.no_duplicates(),
                forall|k: u64| keys@.contains(k) <==> #[trigger] old(self).chats@.contains_key(k),
                self.global == (if old(self).global matches Some(until) && until.nanos
                    <= now.nanos {
                    None
                } else {
                    old(self).global
                }),
                forall|k: u64| #[trigger]
                    self.chats@.contains_key(k) ==> old(self).chats@.contains_key(k)
                        && self.chats@[k] == old(self).chats@[k],
                forall|j: int|
                    i <= j < keys@.len() ==> self.chats@.contains_key(#[trigger] keys@[j]),
                forall|j: int|
                    0 <= j < i ==> (self.chats@.contains_key(#[trigger] keys@[j]) <==> old(
                        self,
                    ).chats@[keys@[j]].nanos > now.nanos),
            decreases keys@.len() - i,
        {
            let key: u64 = keys[i];
            assert(keys@.contains(key));
            let over = match self.chats.get(key) {
                Some(until) => until.nanos <= now.nanos,
                None => false,
            };
            if over {
                let _ = self.chats.remove(key);
            }
            i = i + 1;
        }
        proof {
            let before = old(self)@;
            let kept = before.restrict(
                Set::new(
                    |scope: OutboundScope|
                        before.contains_key(scope) && before[scope].nanos > now.nanos,
                ),
            );
            assert forall|s: OutboundScope|
                self@.contains_key(s) == kept.contains_key(s) && (self@.contains_key(s)
                    ==> self@[s] == kept[s]) by {
                if let OutboundScope::Chat(chat) = s {
                    if old(self).chats@.contains_key(chat.value) {
                        assert(keys@.contains(chat.value));
                        let j = choose|j: int| 0 <= j < keys@.len() && keys@[j] == chat.value;
                        assert(self.chats@.contains_key(keys@[j]) <==> old(
                            self,
                        ).chats@[keys@[j]].nanos > now.nanos);
                    }
                }
            }
            assert(self@ =~= kept);
        }
    }

    /// Whether no scope is penalized.
    pub fn is_empty(&self) -> (r: bool)
        ensures
            r <==> self@ == Map::<OutboundScope, Instant>::empty(),
    {
        let r = self.global.is_none() && self.chats.is_empty();
        proof {
            if r {
                assert(self@ =~= Map::<OutboundScope, Instant>::empty()) by {
                    assert(self.chats@.dom() =~= Set::empty());
                    assert forall|s: OutboundScope| !self@.contains_key(s) by {
                        if let OutboundScope::Chat(chat) = s {
                            assert(!self.chats@.dom().contains(chat.value));
                        }
                    }
                }
            } else if self.global is Some {
                assert(self@.contains_key(OutboundScope::Global));
            } else {
                let k = self.chats@.dom().choose();
                assert(self.chats@.dom().contains(k));
                assert(self@.contains_key(OutboundScope::Chat(OutboundChatKey { value: k })));
            }
        }
        r
    }
}

} // verus!
