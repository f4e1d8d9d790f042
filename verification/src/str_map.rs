//! A map keyed by strings that keeps insertion order.

use crate::assoc;
use vstd::prelude::*;

verus! {

/// A map from strings to bytes.
#[derive(Debug)]
pub struct StrMap {
    pub entries: Vec<(String, u8)>,
}

/// The contents of a list of entries.
pub open spec fn entry_views(s: Seq<(String, u8)>) -> Seq<(Seq<char>, u8)> {
    s.map_values(|e: (String, u8)| (e.0@, e.1))
}

impl View for StrMap {
    type V = Seq<(Seq<char>, u8)>;

    open spec fn view(&self) -> Seq<(Seq<char>, u8)> {
        entry_views(self.entries@)
    }
}

impl StrMap {
    /// No key has two entries.
    pub open spec fn wf(self) -> bool {
        assoc::distinct_keys(self@)
    }

    /// The empty map.
    pub fn new() -> (r: Self)
        ensures
            r.wf(),
            r@ == Seq::<(Seq<char>, u8)>::empty(),
    {
        let r = StrMap { entries: Vec::new() };
        assert(r@ =~= Seq::<(Seq<char>, u8)>::empty());
        r
    }

    /// Where the entry for `key` stands.
    pub fn position(&self, key: &str) -> (r: Option<usize>)
        ensures
            match r {
                Some(i) => assoc::key_at(self@, i as int, key@),
                None => !assoc::has_key(self@, key@),
            },
            self.wf() ==> (r matches Some(i) ==> assoc::index_of(self@, key@) == i),
    {
        let wanted = key.to_owned();
        let mut i: usize = 0;
        while i < self.entries.len()
            invariant
                i <= self.entries.len(),
                wanted@ == key@,
                forall|j: int| 0 <= j < i ==> (#[trigger] self@[j]).0 != key@,
            decreases self.entries.len() - i,
        {
            if self.entries[i].0 == wanted {
                proof {
                    assert(assoc::key_at(self@, i as int, key@));
                    if self.wf() {
                        assoc::lemma_index_unique(self@, i as int, key@);
                    }
                }
                return Some(i);
            }
            i += 1;
        }
        assert forall|j: int| !assoc::key_at(self@, j, key@) by {
            if 0 <= j < self@.len() {
                assert(self@[j].0 != key@);
            }
        }
        None
    }

    /// The value under `key`.
    pub fn get(&self, key: &str) -> (r: Option<u8>)
        requires
            self.wf(),
        ensures
            r == assoc::lookup(self@, key@),
    {
        match self.position(key) {
            Some(i) => Some(self.entries[i].1),
            None => None,
        }
    }

    /// Puts a value under `key`, replacing the one that was there.
    pub fn insert(&mut self, key: String, value: u8)
        requires
            old(self).wf(),
        ensures
            final(self).wf(),
            final(self)@ == assoc::inserted(old(self)@, key@, value),
    {
        match self.position(key.as_str()) {
            Some(i) => {
                let ghost k = key@;
                self.entries[i] = (key, value);
                assert(self@ =~= old(self)@.update(i as int, (k, value)));
            },
            None => {
                proof {
                    assert forall|j: int| 0 <= j < self@.len() implies (#[trigger] self@[j]).0
                        != key@ by {
                        assert(!assoc::key_at(self@, j, key@));
                    }
                }
                let ghost k = key@;
                self.entries.push((key, value));
                assert(self@ =~= old(self)@.push((k, value)));
            },
        }
    }

    /// A copy of the map.
    pub fn copy(&self) -> (r: Self)
        ensures
            r@ == self@,
    {
        let mut entries: Vec<(String, u8)> = Vec::new();
        let mut i: usize = 0;
        while i < self.entries.len()
            invariant
                i <= self.entries.len(),
                entry_views(entries@) == self@.take(i as int),
            decreases self.entries.len() - i,
        {
            let ghost before = entry_views(entries@);
            entries.push((self.entries[i].0.clone(), self.entries[i].1));
            assert(entry_views(entries@) =~= before.push(self@[i as int]));
            assert(self@.take(i as int + 1) =~= self@.take(i as int).push(self@[i as int]));
            i += 1;
        }
        assert(self@.take(i as int) =~= self@);
        StrMap { entries }
    }

    /// Inserts every entry of `new`.
    pub fn extend_from(&mut self, new: &StrMap)
        requires
            old(self).wf(),
        ensures
            final(self).wf(),
            final(self)@ == assoc::extended(old(self)@, new@),
    {
        let mut i: usize = 0;
        while i < new.entries.len()
            invariant
                i <= new.entries.len(),
                self.wf(),
                self@ == assoc::extended(old(self)@, new@.take(i as int)),
            decreases new.entries.len() - i,
        {
            let ghost seen = new@.take(i as int + 1);
            assert(seen.drop_last() =~= new@.take(i as int));
            assert(seen.last() == new@[i as int]);
            self.insert(new.entries[i].0.clone(), new.entries[i].1);
            i += 1;
        }
        assert(new@.take(i as int) =~= new@);
    }
}

} // verus!
