//! Delivery of protocol messages between participants.
use vstd::prelude::*;
use crate::messages::{DkgMessage, ParticipantId};
use crate::entries::{entry_for, index_of, lemma_entry_for_push, lemma_entry_for_update};

verus! {

/// What the protocol needs from a transport.
pub trait Network {
    /// The mailbox of `id`, oldest message first, if `id` is a known participant.
    spec fn inbox(&self, id: ParticipantId) -> Option<Seq<DkgMessage>>;

    /// Enqueues `msg` in the mailbox of `to` alone; nothing happens if `to`
    /// is unknown.
    fn send_private(&mut self, to: ParticipantId, msg: DkgMessage)
        ensures
            forall|id: ParticipantId| #[trigger] final(self).inbox(id) == (if id == to && old(self).inbox(id).is_some() {
                Some(old(self).inbox(id).unwrap().push(msg))
            } else {
                old(self).inbox(id)
            }),
    ;

    /// Enqueues a copy of `msg` in every mailbox, the sender's included.
    fn broadcast(&mut self, msg: DkgMessage)
        ensures
            forall|id: ParticipantId| #![trigger final(self).inbox(id)] match old(self).inbox(id) {
                None => final(self).inbox(id).is_none(),
                Some(q) => final(self).inbox(id) matches Some(q2) && q2.len() == q.len() + 1
                    && q2.drop_last() == q && q2.last().same_as(msg),
            },
    ;

    /// Empties the mailbox of `id` and returns what it held, oldest first;
    /// nothing if `id` is unknown.
    fn receive(&mut self, id: ParticipantId) -> (r: Vec<DkgMessage>)
        ensures
            r@ == (match old(self).inbox(id) {
                Some(q) => q,
                None => Seq::empty(),
            }),
            forall|d: ParticipantId| #[trigger] final(self).inbox(d) == (if d == id && old(self).inbox(d).is_some() {
                Some(Seq::<DkgMessage>::empty())
            } else {
                old(self).inbox(d)
            }),
    ;
}

/// Two sequences of entries with the same keys, position by position, hold
/// an entry for the same keys, found at the same position.
proof fn lemma_entry_for_same_keys<A, B>(s1: Seq<(ParticipantId, A)>, s2: Seq<(ParticipantId, B)>, id: ParticipantId)
    requires
        s1.len() == s2.len(),
        forall|j: int| 0 <= j < s1.len() ==> (#[trigger] s1[j]).0 == s2[j].0,
    ensures
        entry_for(s1, id).is_some() == entry_for(s2, id).is_some(),
        entry_for(s1, id).is_some() ==> exists|j: int| 0 <= j < s1.len() && entry_for(s1, id) == Some(s1[j].1)
            && entry_for(s2, id) == Some(#[trigger] s2[j].1),
    decreases s1.len(),
{
    if s1.len() > 0 {
        assert(s1[0].0 == s2[0].0);
        if s1[0].0 != id {
            assert forall|j: int| 0 <= j < s1.skip(1).len() implies (#[trigger] s1.skip(1)[j]).0 == s2.skip(1)[j].0 by {
                assert(s1.skip(1)[j] == s1[j + 1]);
                assert(s2.skip(1)[j] == s2[j + 1]);
            }
            lemma_entry_for_same_keys(s1.skip(1), s2.skip(1), id);
            if entry_for(s1, id).is_some() {
                let j = choose|j: int| 0 <= j < s1.skip(1).len() && entry_for(s1.skip(1), id) == Some(s1.skip(1)[j].1)
                    && entry_for(s2.skip(1), id) == Some(#[trigger] s2.skip(1)[j].1);
                assert(s1.skip(1)[j] == s1[j + 1]);
                assert(s2.skip(1)[j] == s2[j + 1]);
            }
        }
    }
}

/// An in-memory transport: one first-in first-out mailbox per participant.
pub struct InMemoryNetwork {
    inboxes: Vec<(ParticipantId, Vec<DkgMessage>)>,
}

impl InMemoryNetwork {
    /// A network of empty mailboxes, one for each of `participant_ids`.
    pub fn new(participant_ids: Vec<ParticipantId>) -> (r: Self)
        ensures
            forall|id: ParticipantId| #[trigger] r.inbox(id) == (if participant_ids@.contains(id) {
                Some(Seq::<DkgMessage>::empty())
            } else {
                None
            }),
    {
        let ghost ids = participant_ids@;
        let mut inboxes: Vec<(ParticipantId, Vec<DkgMessage>)> = Vec::new();
        let mut k: usize = 0;
        while k < participant_ids.len()
            invariant
                k <= participant_ids.len(),
                ids == participant_ids@,
                forall|id: ParticipantId| #[trigger] entry_for(inboxes@, id) matches Some(v) ==> v@.len() == 0,
                forall|id: ParticipantId| entry_for(inboxes@, id).is_some() == #[trigger] ids.take(k as int).contains(id),
            decreases participant_ids.len() - k,
        {
            let id = participant_ids[k];
            let ghost before = inboxes@;
            assert(ids.take(k + 1) =~= ids.take(k as int).push(id));
            let found = index_of(&inboxes, id);
            if found.is_none() {
                let fresh: Vec<DkgMessage> = Vec::new();
                inboxes.push((id, fresh));
                assert forall|d: ParticipantId| true implies entry_for(inboxes@, d) == (if entry_for(before, d).is_some() {
                    entry_for(before, d)
                } else if id == d {
                    Some(fresh)
                } else {
                    None
                }) by {
                    lemma_entry_for_push(before, (id, fresh), d);
                }
            }
            assert forall|d: ParticipantId| entry_for(inboxes@, d).is_some() == #[trigger] ids.take(k + 1).contains(d) by {
                let t0 = ids.take(k as int);
                let t1 = ids.take(k + 1);
                assert(entry_for(before, d).is_some() == t0.contains(d));
                if found.is_some() {
                    assert(inboxes@ == before);
                }
                if d == id {
                    assert(t1[k as int] == id);
                } else if t1.contains(d) {
                    let j = choose|j: int| 0 <= j < t1.len() && t1[j] == d;
                    assert(t0[j] == d);
                } else if t0.contains(d) {
                    let j = choose|j: int| 0 <= j < t0.len() && t0[j] == d;
                    assert(t1[j] == d);
                }
            }
            k = k + 1;
        }
        assert(ids.take(k as int) =~= ids);
        InMemoryNetwork { inboxes }
    }
}

impl Network for InMemoryNetwork {
    closed spec fn inbox(&self, id: ParticipantId) -> Option<Seq<DkgMessage>> {
        match entry_for(self.inboxes@, id) {
            Some(v) => Some(v@),
            None => None,
        }
    }

    fn send_private(&mut self, to: ParticipantId, msg: DkgMessage)
    {
        match index_of(&self.inboxes, to) {
            Some(i) => {
                let ghost before = self.inboxes@;
                let mut entry = self.inboxes.remove(i);
                entry.1.push(msg);
                self.inboxes.insert(i, entry);
                proof {
                    assert(self.inboxes@ =~= before.update(i as int, (to, entry.1)));
                    assert forall|id: ParticipantId| true implies entry_for(self.inboxes@, id) == (if id == to {
                        Some(entry.1)
                    } else {
                        entry_for(before, id)
                    }) by {
                        lemma_entry_for_update(before, i as int, entry.1, id);
                    }
                }
            },
            None => {},
        }
    }

    fn broadcast(&mut self, msg: DkgMessage)
    {
        let ghost before = self.inboxes@;
        let mut i: usize = 0;
        while i < self.inboxes.len()
            invariant
                i <= self.inboxes.len(),
                self.inboxes.len() == before.len(),
                forall|j: int| 0 <= j < before.len() ==> (#[trigger] self.inboxes@[j]).0 == before[j].0,
                forall|j: int| i <= j < before.len() ==> (#[trigger] self.inboxes@[j]).1@ == before[j].1@,
                forall|j: int| 0 <= j < i ==> {
                    let q = before[j].1@;
                    let q2 = (#[trigger] self.inboxes@[j]).1@;
                    q2.len() == q.len() + 1 && q2.drop_last() == q && q2.last().same_as(msg)
                },
            decreases before.len() - i,
        {
            let mut entry = self.inboxes.remove(i);
            entry.1.push(msg.copied());
            self.inboxes.insert(i, entry);
            i = i + 1;
        }
        proof {
            assert forall|id: ParticipantId| #![trigger self.inbox(id)] true implies match old(self).inbox(id) {
                None => self.inbox(id).is_none(),
                Some(q) => self.inbox(id) matches Some(q2) && q2.len() == q.len() + 1
                    && q2.drop_last() == q && q2.last().same_as(msg),
            } by {
                lemma_entry_for_same_keys(before, self.inboxes@, id);
            }
        }
    }

    fn receive(&mut self, id: ParticipantId) -> (r: Vec<DkgMessage>)
    {
        match index_of(&self.inboxes, id) {
            Some(i) => {
                let ghost before = self.inboxes@;
                let entry = self.inboxes.remove(i);
                let empty: Vec<DkgMessage> = Vec::new();
                self.inboxes.insert(i, (id, empty));
                proof {
                    assert(self.inboxes@ =~= before.update(i as int, (id, empty)));
                    assert forall|d: ParticipantId| true implies entry_for(self.inboxes@, d) == (if d == id {
                        Some(empty)
                    } else {
                        entry_for(before, d)
                    }) by {
                        lemma_entry_for_update(before, i as int, empty, d);
                    }
                }
                entry.1
            },
            None => Vec::new(),
        }
    }
}

} // verus!
