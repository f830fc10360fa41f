//! Association lists keyed by participant id, where the first entry with a
//! key is the one that counts.
use vstd::prelude::*;
use crate::messages::ParticipantId;

verus! {

/// The value stored under the first entry of `s` with key `id`.
pub open spec fn entry_for<A>(s: Seq<(ParticipantId, A)>, id: ParticipantId) -> Option<A>
    decreases s.len(),
{
    if s.len() == 0 {
        None
    } else if s[0].0 == id {
        Some(s[0].1)
    } else {
        entry_for(s.skip(1), id)
    }
}

/// Appending an entry changes no value already present.
pub proof fn lemma_entry_for_push<A>(s: Seq<(ParticipantId, A)>, e: (ParticipantId, A), id: ParticipantId)
    ensures
        entry_for(s.push(e), id) == (if entry_for(s, id).is_some() {
            entry_for(s, id)
        } else if e.0 == id {
            Some(e.1)
        } else {
            None
        }),
    decreases s.len(),
{
    if s.len() > 0 {
        assert(s.push(e)[0] == s[0]);
        assert(s.push(e).skip(1) =~= s.skip(1).push(e));
        lemma_entry_for_push(s.skip(1), e, id);
    } else {
        assert(s.push(e)[0] == e);
        assert(s.push(e).skip(1) =~= Seq::<(ParticipantId, A)>::empty());
        assert(entry_for(s.push(e).skip(1), id).is_none());
        assert(entry_for(s, id).is_none());
    }
}

/// Every key of `s` has an entry.
pub proof fn lemma_entry_for_index<A>(s: Seq<(ParticipantId, A)>, k: int)
    requires
        0 <= k < s.len(),
    ensures
        entry_for(s, s[k].0).is_some(),
    decreases s.len(),
{
    if k > 0 && s[0].0 != s[k].0 {
        assert(s.skip(1)[k - 1] == s[k]);
        lemma_entry_for_index(s.skip(1), k - 1);
    }
}

/// Replacing the value of the first entry with a given key changes the
/// value for that key alone.
pub proof fn lemma_entry_for_update<A>(s: Seq<(ParticipantId, A)>, i: int, v: A, id: ParticipantId)
    requires
        0 <= i < s.len(),
        forall|j: int| 0 <= j < i ==> s[j].0 != s[i].0,
    ensures
        entry_for(s.update(i, (s[i].0, v)), id) == (if id == s[i].0 {
            Some(v)
        } else {
            entry_for(s, id)
        }),
    decreases s.len(),
{
    let u = s.update(i, (s[i].0, v));
    if i == 0 {
        assert(u.skip(1) =~= s.skip(1));
    } else {
        assert(u[0] == s[0]);
        assert(u.skip(1) =~= s.skip(1).update(i - 1, (s[i].0, v)));
        assert(s.skip(1)[i - 1] == s[i]);
        lemma_entry_for_update(s.skip(1), i - 1, v, id);
    }
}

/// The position of the first entry of `v` with key `id`.
pub(crate) fn index_of<A>(v: &Vec<(ParticipantId, A)>, id: ParticipantId) -> (r: Option<usize>)
    ensures
        match r {
            None => entry_for(v@, id).is_none(),
            Some(k) => k < v.len() && v@[k as int].0 == id && entry_for(v@, id) == Some(v@[k as int].1)
                && forall|j: int| 0 <= j < k ==> v@[j].0 != id,
        },
{
    let mut k: usize = 0;
    assert(v@.skip(0) =~= v@);
    while k < v.len()
        invariant
            k <= v.len(),
            entry_for(v@, id) == entry_for(v@.skip(k as int), id),
            forall|j: int| 0 <= j < k ==> v@[j].0 != id,
        decreases v.len() - k,
    {
        assert(v@.skip(k as int)[0] == v@[k as int]);
        if v[k].0 == id {
            return Some(k);
        }
        assert(v@.skip(k as int).skip(1) =~= v@.skip(k + 1));
        k = k + 1;
    }
    assert(v@.skip(k as int) =~= Seq::<(ParticipantId, A)>::empty());
    None
}

} // verus!
