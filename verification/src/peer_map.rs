//! A map keyed by peer identity that keeps insertion order.

use crate::assoc;
use crate::types::PeerId;
use vstd::prelude::*;

verus! {

/// A map from peers to values.
#[derive(Debug)]
pub struct PeerMap<V> {
    pub entries: Vec<(PeerId, V)>,
}

impl<V> View for PeerMap<V> {
    type V = Seq<(PeerId, V)>;

    open spec fn view(&self) -> Seq<(PeerId, V)> {
        self.entries@
    }
}

impl<V> PeerMap<V> {
    /// No identity has two entries.
    pub open spec fn wf(self) -> bool {
        assoc::distinct_keys(self@)
    }

    /// The empty map.
    pub fn new() -> (r: Self)
        ensures
            r.wf(),
            r@ == Seq::<(PeerId, V)>::empty(),
    {
        PeerMap { entries: Vec::new() }
    }

    /// Where the entry for `id` stands.
    pub fn position(&self, id: &PeerId) -> (r: Option<usize>)
        ensures
            match r {
                Some(i) => assoc::key_at(self@, i as int, *id),
                None => !assoc::has_key(self@, *id),
            },
            self.wf() ==> (r matches Some(i) ==> assoc::has_key(self@, *id) && assoc::index_of(self@, *id) == i),
    {
        let mut i: usize = 0;
        while i < self.entries.len()
            invariant
                i <= self.entries.len(),
                forall|j: int| 0 <= j < i ==> (#[trigger] self@[j]).0 != *id,
            decreases self.entries.len() - i,
        {
            if self.entries[i].0 == *id {
                proof {
                    assert(assoc::key_at(self@, i as int, *id));
                    if self.wf() {
                        assoc::lemma_index_unique(self@, i as int, *id);
                    }
                }
                return Some(i);
            }
            i += 1;
        }
        assert forall|j: int| !assoc::key_at(self@, j, *id) by {
            if 0 <= j < self@.len() {
                assert(self@[j].0 != *id);
            }
        }
        None
    }

    /// Puts a value under `id`, replacing the one that was there.
    pub fn insert(&mut self, id: PeerId, value: V)
        requires
            old(self).wf(),
        ensures
            final(self).wf(),
            final(self)@ == assoc::inserted(old(self)@, id, value),
    {
        match self.position(&id) {
            Some(i) => {
                self.entries[i] = (id, value);
            },
            None => {
                proof {
                    assert forall|j: int| 0 <= j < self@.len() implies (#[trigger] self@[j]).0
                        != id by {
                        assert(!assoc::key_at(self@, j, id));
                    }
                }
                self.entries.push((id, value));
            },
        }
    }

    /// Takes the entry for `id` out.
    pub fn remove(&mut self, id: &PeerId)
        requires
            old(self).wf(),
        ensures
            final(self).wf(),
            final(self)@ == assoc::removed(old(self)@, *id),
    {
        if let Some(i) = self.position(id) {
            self.entries.remove(i);
        }
    }
}

} // verus!
