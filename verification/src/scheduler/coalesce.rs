//! Latest-wins slots and the pending job of each.

use super::entries::CoalesceKey;
use crate::types::JobId;
use vstd::prelude::*;

verus! {

/// The pending job of each latest-wins slot.
pub struct CoalesceMap {
    slots: Vec<(CoalesceKey, JobId)>,
}

impl CoalesceMap {
    /// No slot is listed twice.
    pub closed spec fn wf(&self) -> bool {
        forall|i: int, j: int|
            0 <= i < j < self.slots@.len() ==> (#[trigger] self.slots@[i]).0 != (
            #[trigger] self.slots@[j]).0
    }

    spec fn holds(&self, key: CoalesceKey) -> bool {
        exists|i: int| 0 <= i < self.slots@.len() && (#[trigger] self.slots@[i]).0 == key
    }

    spec fn position(&self, key: CoalesceKey) -> int {
        choose|i: int| 0 <= i < self.slots@.len() && (#[trigger] self.slots@[i]).0 == key
    }

    pub closed spec fn view(&self) -> Map<CoalesceKey, JobId> {
        Map::new(
            |key: CoalesceKey| self.holds(key),
            |key: CoalesceKey| self.slots@[self.position(key)].1,
        )
    }

    pub fn new() -> (r: Self)
        ensures
            r.wf(),
            r@ == Map::<CoalesceKey, JobId>::empty(),
    {
        let r = CoalesceMap { slots: Vec::new() };
        assert(r@ =~= Map::<CoalesceKey, JobId>::empty());
        r
    }

    fn find(&self, key: CoalesceKey) -> (r: Option<usize>)
        requires
            self.wf(),
        ensures
            r is Some <==> self@.contains_key(key),
            r matches Some(i) ==> i < self.slots@.len() && self.slots@[i as int].0 == key
                && self.slots@[i as int].1 == self@[key],
    {
        let mut i: usize = 0;
        while i < self.slots.len()
            invariant
                i <= self.slots@.len(),
                self.wf(),
                forall|j: int| 0 <= j < i ==> (#[trigger] self.slots@[j]).0 != key,
            decreases self.slots@.len() - i,
        {
            if self.slots[i].0 == key {
                proof {
                    assert(self.slots@[i as int].0 == key);
                    let p = self.position(key);
                    assert(p == i);
                }
                return Some(i);
            }
            i = i + 1;
        }
        None
    }

    pub fn get(&self, key: CoalesceKey) -> (r: Option<JobId>)
        requires
            self.wf(),
        ensures
            r is Some <==> self@.contains_key(key),
            r matches Some(job) ==> job == self@[key],
    {
        match self.find(key) {
            Some(i) => Some(self.slots[i].1),
            None => None,
        }
    }

    /// Makes `job` the pending job of the slot.
    pub fn insert(&mut self, key: CoalesceKey, job: JobId)
        requires
            old(self).wf(),
        ensures
            final(self).wf(),
            final(self)@ == old(self)@.insert(key, job),
    {
        match self.find(key) {
            Some(i) => {
                self.slots[i] = (key, job);
                proof {
                    self.lemma_update(*old(self), key, job, i as int);
                }
            },
            None => {
                self.slots.push((key, job));
                proof {
                    self.lemma_update(*old(self), key, job, self.slots@.len() - 1);
                }
            },
        }
    }

    proof fn lemma_update(&self, before: Self, key: CoalesceKey, job: JobId, at: int)
        requires
            before.wf(),
            0 <= at < self.slots@.len(),
            before.slots@.len() <= self.slots@.len() <= before.slots@.len() + 1,
            self.slots@[at] == (key, job),
            at < before.slots@.len() ==> before.slots@[at].0 == key && self.slots@
                == before.slots@.update(at, (key, job)),
            at == before.slots@.len() ==> self.slots@ == before.slots@.push((key, job))
                && !before@.contains_key(key),
        ensures
            self.wf(),
            self@ == before@.insert(key, job),
    {
        assert forall|i: int, j: int| 0 <= i < j < self.slots@.len() implies (
        #[trigger] self.slots@[i]).0 != (#[trigger] self.slots@[j]).0 by {
            if j == before.slots@.len() {
                assert(before.slots@[i].0 != key);
            } else {
                assert(before.slots@[i].0 != before.slots@[j].0);
            }
        }
        let after = before@.insert(key, job);
        assert forall|k: CoalesceKey|
            #[trigger] self@.dom().contains(k) == after.dom().contains(k) && (self@.contains_key(k) ==> self@[k]
                == after[k]) by {
            if k == key {
                assert(self.slots@[at].0 == key);
                assert(self.position(key) == at);
            } else {
                if before.holds(k) {
                    let p = before.position(k);
                    assert(self.slots@[p] == before.slots@[p]);
                    assert(self.position(k) == p);
                }
                if self.holds(k) {
                    let p = self.position(k);
                    assert(p != at);
                    assert(before.slots@[p] == self.slots@[p]);
                    assert(before.position(k) == p);
                }
            }
        }
        assert(self@.dom() =~= after.dom());
        assert(self@ =~= after);
    }

    /// Frees the slot.
    pub fn remove(&mut self, key: CoalesceKey)
        requires
            old(self).wf(),
        ensures
            final(self).wf(),
            final(self)@ == old(self)@.remove(key),
    {
        match self.find(key) {
            Some(i) => {
                let _ = self.slots.swap_remove(i);
                proof {
                    let before = *old(self);
                    let last = before.slots@.len() - 1;
                    let s = self.slots@;
                    assert(forall|j: int|
                        0 <= j < s.len() ==> s[j] == (if j == i {
                            before.slots@[last]
                        } else {
                            before.slots@[j]
                        }));
                    let after = before@.remove(key);
                    assert forall|k: CoalesceKey|
                        #[trigger] self@.dom().contains(k) == after.dom().contains(k) && (self@.contains_key(k)
                            ==> self@[k] == after[k]) by {
                        if self.holds(k) {
                            let p = self.position(k);
                            let q = if p == i {
                                last
                            } else {
                                p
                            };
                            assert(before.slots@[q] == s[p]);
                            assert(before.position(k) == q);
                        }
                        if before.holds(k) && k != key {
                            let q = before.position(k);
                            let p = if q == last {
                                i as int
                            } else {
                                q
                            };
                            assert(s[p] == before.slots@[q]);
                        }
                    }
                    assert(self@.dom() =~= after.dom());
                    assert(self@ =~= after);
                }
            },
            None => {
                assert(self@ =~= old(self)@.remove(key));
            },
        }
    }

    /// The number of slots with a pending job.
    pub fn len(&self) -> (r: usize)
        ensures
            r == 0 <==> self@ == Map::<CoalesceKey, JobId>::empty(),
    {
        proof {
            if self.slots@.len() > 0 {
                let key = self.slots@[0].0;
                assert(self@.contains_key(key));
            } else {
                assert(self@ =~= Map::<CoalesceKey, JobId>::empty());
            }
        }
        self.slots.len()
    }
}

} // verus!
