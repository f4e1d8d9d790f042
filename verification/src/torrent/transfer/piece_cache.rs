//! Recently read pieces.

use vstd::prelude::*;

verus! {

/// The pieces that were used last, the latest at the end.
#[derive(Debug)]
pub struct PieceCache {
    pub capacity: usize,
    pub entries: Vec<(usize, Vec<u8>)>,
}

/// The contents of a list of entries.
pub open spec fn entry_views(s: Seq<(usize, Vec<u8>)>) -> Seq<(usize, Seq<u8>)> {
    s.map_values(|e: (usize, Vec<u8>)| (e.0, e.1@))
}

/// Entry `i` of `s` is for piece `index`.
pub open spec fn key_at(s: Seq<(usize, Seq<u8>)>, i: int, index: usize) -> bool {
    0 <= i < s.len() && s[i].0 == index
}

/// `s` has an entry for piece `index`.
pub open spec fn holds(s: Seq<(usize, Seq<u8>)>, index: usize) -> bool {
    exists|i: int| key_at(s, i, index)
}

/// No piece has two entries.
pub open spec fn distinct(s: Seq<(usize, Seq<u8>)>) -> bool {
    forall|i: int, j: int| 0 <= i < j < s.len() ==> (#[trigger] s[i]).0 != (#[trigger] s[j]).0
}

/// Where the entry for piece `index` stands.
pub open spec fn position(s: Seq<(usize, Seq<u8>)>, index: usize) -> int {
    choose|i: int| key_at(s, i, index)
}

/// The piece that `s` holds for `index`.
pub open spec fn held(s: Seq<(usize, Seq<u8>)>, index: usize) -> Seq<u8> {
    s[position(s, index)].1
}

/// The entries after the one for `index` was used: it moves to the end.
pub open spec fn touched(s: Seq<(usize, Seq<u8>)>, index: usize) -> Seq<(usize, Seq<u8>)> {
    if holds(s, index) {
        s.remove(position(s, index)).push(s[position(s, index)])
    } else {
        s
    }
}

/// The entries after a piece came in: the one used longest ago makes room.
pub open spec fn inserted(
    s: Seq<(usize, Seq<u8>)>,
    capacity: usize,
    index: usize,
    piece: Seq<u8>,
) -> Seq<(usize, Seq<u8>)> {
    let without = if holds(s, index) {
        s.remove(position(s, index))
    } else {
        s
    };
    if without.len() >= capacity {
        without.skip(1).push((index, piece))
    } else {
        without.push((index, piece))
    }
}

impl View for PieceCache {
    type V = Seq<(usize, Seq<u8>)>;

    open spec fn view(&self) -> Seq<(usize, Seq<u8>)> {
        entry_views(self.entries@)
    }
}

impl PieceCache {
    /// The cache keeps to its capacity and holds no piece twice.
    pub open spec fn wf(self) -> bool {
        &&& self.capacity > 0
        &&& self@.len() <= self.capacity
        &&& distinct(self@)
    }

    /// An empty cache.
    pub fn new(capacity: usize) -> (r: PieceCache)
        requires
            capacity > 0,
        ensures
            r.wf(),
            r.capacity == capacity,
            r@ == Seq::<(usize, Seq<u8>)>::empty(),
    {
        let r = PieceCache { capacity, entries: Vec::new() };
        assert(r@ =~= Seq::<(usize, Seq<u8>)>::empty());
        r
    }

    fn find(&self, index: usize) -> (r: Option<usize>)
        requires
            self.wf(),
        ensures
            match r {
                Some(i) => key_at(self@, i as int, index) && position(self@, index) == i,
                None => !holds(self@, index),
            },
    {
        let mut i: usize = 0;
        while i < self.entries.len()
            invariant
                i <= self.entries.len(),
                self.wf(),
                forall|j: int| 0 <= j < i ==> (#[trigger] self@[j]).0 != index,
            decreases self.entries.len() - i,
        {
            if self.entries[i].0 == index {
                proof {
                    assert(key_at(self@, i as int, index));
                    let j = position(self@, index);
                    assert(key_at(self@, j, index));
                    if i < j {
                        assert(self@[i as int].0 != self@[j].0);
                    } else if j < i {
                        assert(self@[j].0 != self@[i as int].0);
                    }
                }
                return Some(i);
            }
            i += 1;
        }
        assert forall|j: int| !key_at(self@, j, index) by {
            if 0 <= j < self@.len() {
                assert(self@[j].0 != index);
            }
        }
        None
    }

    /// Whether the piece is here; if so, it counts as used just now and stands
    /// at the end.
    pub fn touch(&mut self, index: usize) -> (r: bool)
        requires
            old(self).wf(),
        ensures
            final(self).wf(),
            final(self).capacity == old(self).capacity,
            final(self)@ == touched(old(self)@, index),
            r == holds(old(self)@, index),
            r ==> final(self)@.len() > 0 && final(self)@.last() == (index, held(old(self)@, index)),
    {
        match self.find(index) {
            Some(i) => {
                let entry = self.entries.remove(i);
                self.entries.push(entry);
                assert(self@ =~= touched(old(self)@, index));
                true
            },
            None => false,
        }
    }

    /// Takes a piece in.
    pub fn insert(&mut self, index: usize, piece: Vec<u8>)
        requires
            old(self).wf(),
        ensures
            final(self).wf(),
            final(self).capacity == old(self).capacity,
            final(self)@ == inserted(old(self)@, old(self).capacity, index, piece@),
    {
        let found = self.find(index);
        if let Some(i) = found {
            self.entries.remove(i);
        }
        let ghost without = self@;
        proof {
            if found is None {
                assert forall|j: int| 0 <= j < without.len() implies (#[trigger] without[j]).0
                    != index by {
                    assert(!key_at(without, j, index));
                }
            } else {
                let i = found->0 as int;
                assert(without =~= old(self)@.remove(i));
                assert forall|j: int| 0 <= j < without.len() implies (#[trigger] without[j]).0
                    != index by {
                    if j < i {
                        assert(old(self)@[j].0 != old(self)@[i].0);
                    } else {
                        assert(old(self)@[i].0 != old(self)@[j + 1].0);
                    }
                }
            }
        }
        if self.entries.len() >= self.capacity {
            self.entries.remove(0);
            assert(self@ =~= without.skip(1));
        }
        let ghost before = self@;
        let ghost entry = (index, piece@);
        self.entries.push((index, piece));
        assert(self@ =~= before.push(entry));
    }
}

/// A piece that was just taken in is the one that the cache gives back.
pub proof fn law_cache_gives_back(
    s: Seq<(usize, Seq<u8>)>,
    capacity: usize,
    index: usize,
    piece: Seq<u8>,
)
    requires
        distinct(s),
        s.len() <= capacity,
        capacity > 0,
    ensures
        holds(inserted(s, capacity, index, piece), index),
        held(inserted(s, capacity, index, piece), index) == piece,
{
    let after = inserted(s, capacity, index, piece);
    let last = after.len() - 1;
    assert(key_at(after, last, index));
    let j = position(after, index);
    assert(key_at(after, j, index));
    if j != last {
        let without = if holds(s, index) {
            s.remove(position(s, index))
        } else {
            s
        };
        let k = if without.len() >= capacity {
            j + 1
        } else {
            j
        };
        assert(without[k].0 == index);
        if holds(s, index) {
            let i = position(s, index);
            assert(key_at(s, i, index));
            if k < i {
                assert(s[k].0 != s[i].0);
            } else {
                assert(s[i].0 != s[k + 1].0);
            }
        } else {
            assert(key_at(s, k, index));
        }
        assert(false);
    }
}

/// A cache forgets nothing but the piece that was not used for longest, and that
/// only where there is no room. A piece that is used is the last to be forgotten.
pub proof fn law_cache_keeps(
    s: Seq<(usize, Seq<u8>)>,
    capacity: usize,
    index: usize,
    piece: Seq<u8>,
    i: int,
)
    requires
        distinct(s),
        s.len() <= capacity,
        capacity > 0,
        0 <= i < s.len(),
    ensures
        s[i].0 != index && (s.len() < capacity || i > 0 || holds(s, index)) ==> inserted(
            s,
            capacity,
            index,
            piece,
        ).contains(s[i]),
        inserted(s, capacity, index, piece).len() <= capacity,
        inserted(s, capacity, index, piece).last() == (index, piece),
        touched(s, index).contains(s[i]),
        touched(s, index).len() == s.len(),
        s[i].0 == index ==> touched(s, index).last() == s[i],
        !holds(s, index) ==> touched(s, index) == s,
{
    let after = inserted(s, capacity, index, piece);
    let used = touched(s, index);
    if holds(s, index) {
        let k = position(s, index);
        assert(key_at(s, k, index));
        let without = s.remove(k);
        if i < k {
            assert(s[i].0 != s[k].0);
            assert(without[i] == s[i]);
            assert(after[i] == s[i]);
            assert(used[i] == s[i]);
        } else if k < i {
            assert(s[k].0 != s[i].0);
            assert(without[i - 1] == s[i]);
            assert(after[i - 1] == s[i]);
            assert(used[i - 1] == s[i]);
        } else {
            assert(used[used.len() - 1] == s[i]);
        }
    } else {
        if s[i].0 == index {
            assert(key_at(s, i, index));
        }
        if s.len() < capacity {
            assert(after[i] == s[i]);
        } else if i > 0 {
            assert(after[i - 1] == s[i]);
        }
        assert(used[i] == s[i]);
    }
}

} // verus!
