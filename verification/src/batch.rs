//! The tiles of one retrieval: encoded image files, keyed by tile index.

use vstd::prelude::*;
use crate::geometry::TileIndex;

verus! {

/// One tile as it was retrieved: its index and the bytes of its image file.
#[derive(Debug)]
pub struct TileEntry {
    pub index: TileIndex,
    pub bytes: Vec<u8>,
}

/// A set of retrieved tiles at one zoom level. No index occurs twice. The
/// tiles are kept in the order in which they were first inserted; the view,
/// a map from index to bytes, does not show that order.
#[derive(Debug)]
pub struct TileBatch {
    zoom: u32,
    entries: Vec<TileEntry>,
}

/// Some entry of `entries` has the index `t`.
pub open spec fn holds(entries: Seq<(TileIndex, Seq<u8>)>, t: TileIndex) -> bool {
    exists|i: int| 0 <= i < entries.len() && (#[trigger] entries[i]).0 == t
}

/// The position of an entry with the index `t`.
pub open spec fn position(entries: Seq<(TileIndex, Seq<u8>)>, t: TileIndex) -> int {
    choose|i: int| 0 <= i < entries.len() && (#[trigger] entries[i]).0 == t
}

/// No two entries share an index.
pub open spec fn distinct(entries: Seq<(TileIndex, Seq<u8>)>) -> bool {
    forall|i: int, j: int|
        0 <= i < j < entries.len() ==> (#[trigger] entries[i]).0 != (#[trigger] entries[j]).0
}

/// The map from index to bytes that `entries` stands for.
pub open spec fn as_map(entries: Seq<(TileIndex, Seq<u8>)>) -> Map<TileIndex, Seq<u8>> {
    Map::new(|t: TileIndex| holds(entries, t), |t: TileIndex| entries[position(entries, t)].1)
}

/// Among distinct entries, an index is found at the place where it stands.
pub proof fn lemma_lookup(entries: Seq<(TileIndex, Seq<u8>)>, i: int)
    requires
        distinct(entries),
        0 <= i < entries.len(),
    ensures
        holds(entries, entries[i].0),
        position(entries, entries[i].0) == i,
        as_map(entries).contains_key(entries[i].0),
        as_map(entries)[entries[i].0] == entries[i].1,
{
    let t = entries[i].0;
    assert(holds(entries, t));
    let p = position(entries, t);
    assert(0 <= p < entries.len() && entries[p].0 == t);
    if p < i {
        assert(entries[p].0 != entries[i].0);
    } else if i < p {
        assert(entries[i].0 != entries[p].0);
    }
}

/// Taking one more of distinct entries adds one key to the map.
pub proof fn lemma_take_next(entries: Seq<(TileIndex, Seq<u8>)>, i: int)
    requires
        distinct(entries),
        0 <= i < entries.len(),
    ensures
        distinct(entries.take(i)),
        distinct(entries.take(i + 1)),
        !as_map(entries.take(i)).contains_key(entries[i].0),
        as_map(entries.take(i + 1)) == as_map(entries.take(i)).insert(entries[i].0, entries[i].1),
{
    let a = entries.take(i);
    let b = entries.take(i + 1);
    assert forall|x: int, y: int| 0 <= x < y < b.len() implies (#[trigger] b[x]).0 != (
    #[trigger] b[y]).0 by {
        assert(b[x] == entries[x] && b[y] == entries[y]);
    }
    assert forall|x: int, y: int| 0 <= x < y < a.len() implies (#[trigger] a[x]).0 != (
    #[trigger] a[y]).0 by {
        assert(a[x] == entries[x] && a[y] == entries[y]);
    }
    if holds(a, entries[i].0) {
        let p = position(a, entries[i].0);
        assert(a[p] == entries[p]);
        assert(entries[p].0 != entries[i].0);
    }
    assert(b[i] == entries[i]);
    assert forall|t: TileIndex| holds(b, t) == (holds(a, t) || t == entries[i].0) by {
        if holds(a, t) {
            let p = position(a, t);
            assert(b[p] == a[p]);
        }
        if holds(b, t) {
            let p = position(b, t);
            if p < i {
                assert(a[p] == b[p]);
            }
        }
    }
    assert forall|t: TileIndex| holds(b, t) implies as_map(b)[t] == as_map(a).insert(
        entries[i].0,
        entries[i].1,
    )[t] by {
        let p = position(b, t);
        lemma_lookup(b, p);
        if p < i {
            assert(a[p] == b[p]);
            lemma_lookup(a, p);
        }
    }
    assert(as_map(b) =~= as_map(a).insert(entries[i].0, entries[i].1));
}

impl View for TileBatch {
    type V = Map<TileIndex, Seq<u8>>;

    open spec fn view(&self) -> Map<TileIndex, Seq<u8>> {
        as_map(self.entries())
    }
}

impl TileBatch {
    /// The zoom level of every tile in the batch.
    pub closed spec fn zoom_level(&self) -> u32 {
        self.zoom
    }

    /// The tiles in the order in which they are kept.
    pub closed spec fn entries(&self) -> Seq<(TileIndex, Seq<u8>)> {
        Seq::new(self.entries@.len(), |i: int| (self.entries@[i].index, self.entries@[i].bytes@))
    }

    /// Every tile lies at the batch's zoom level, and no index occurs twice.
    pub open spec fn wf(&self) -> bool {
        &&& distinct(self.entries())
        &&& forall|i: int|
            0 <= i < self.entries().len() ==> (#[trigger] self.entries()[i]).0.z
                == self.zoom_level()
    }

    /// An empty batch for the given zoom level.
    pub fn new(zoom: u32) -> (batch: TileBatch)
        ensures
            batch.wf(),
            batch.zoom_level() == zoom,
            batch.entries().len() == 0,
            batch@ == Map::<TileIndex, Seq<u8>>::empty(),
    {
        let batch = TileBatch { zoom, entries: Vec::new() };
        assert(batch@ =~= Map::<TileIndex, Seq<u8>>::empty());
        batch
    }

    /// The zoom level of every tile in the batch.
    pub fn zoom(&self) -> (z: u32)
        ensures
            z == self.zoom_level(),
    {
        self.zoom
    }

    /// How many tiles the batch holds.
    pub fn len(&self) -> (n: usize)
        ensures
            n == self.entries().len(),
            self.wf() ==> n == self@.dom().len(),
    {
        proof {
            if self.wf() {
                lemma_dom_len(self.entries());
            }
        }
        self.entries.len()
    }

    /// The tile at place `i`.
    pub fn entry(&self, i: usize) -> (e: &TileEntry)
        requires
            i < self.entries().len(),
        ensures
            (e.index, e.bytes@) == self.entries()[i as int],
    {
        &self.entries[i]
    }

    /// The place of the tile with index `t`, if the batch holds it.
    fn find(&self, t: &TileIndex) -> (at: Option<usize>)
        ensures
            match at {
                Some(i) => i < self.entries().len() && self.entries()[i as int].0 == *t,
                None => !holds(self.entries(), *t),
            },
    {
        let mut i: usize = 0;
        while i < self.entries.len()
            invariant
                i <= self.entries@.len(),
                forall|j: int| 0 <= j < i ==> (#[trigger] self.entries()[j]).0 != *t,
            decreases self.entries@.len() - i,
        {
            let e = &self.entries[i];
            if e.index.x == t.x && e.index.y == t.y && e.index.z == t.z {
                assert(self.entries()[i as int].0 == *t);
                return Some(i);
            }
            assert(self.entries()[i as int].0 != *t);
            i += 1;
        }
        None
    }

    /// The bytes of the tile with index `t`, if the batch holds it.
    pub fn get(&self, t: &TileIndex) -> (bytes: Option<&Vec<u8>>)
        requires
            self.wf(),
        ensures
            match bytes {
                Some(b) => self@.contains_key(*t) && self@[*t] == b@,
                None => !self@.contains_key(*t),
            },
    {
        match self.find(t) {
            Some(i) => {
                proof {
                    lemma_lookup(self.entries(), i as int);
                }
                Some(&self.entries[i].bytes)
            },
            None => None,
        }
    }

    /// Puts a tile into the batch, in place of the one with the same index
    /// if there is one. A tile of another zoom level is turned away: the
    /// batch stays as it was and the answer is `false`.
    pub fn insert(&mut self, index: TileIndex, bytes: Vec<u8>) -> (taken: bool)
        requires
            old(self).wf(),
        ensures
            final(self).wf(),
            final(self).zoom_level() == old(self).zoom_level(),
            taken == (index.z == old(self).zoom_level()),
            taken ==> final(self)@ == old(self)@.insert(index, bytes@),
            taken && old(self)@.contains_key(index) ==> final(self).entries() == old(
                self,
            ).entries().update(position(old(self).entries(), index), (index, bytes@)),
            taken && !old(self)@.contains_key(index) ==> final(self).entries() == old(
                self,
            ).entries().push((index, bytes@)),
            !taken ==> final(self).entries() == old(self).entries(),
    {
        if index.z != self.zoom {
            return false;
        }
        let ghost before = self.entries();
        let ghost value = bytes@;
        match self.find(&index) {
            Some(i) => {
                self.entries.set(i, TileEntry { index, bytes });
                proof {
                    let after = self.entries();
                    lemma_lookup(before, i as int);
                    assert(after =~= before.update(i as int, (index, value)));
                    assert forall|a: int, b: int| 0 <= a < b < after.len() implies (
                    #[trigger] after[a]).0 != (#[trigger] after[b]).0 by {
                        assert(after[a].0 == before[a].0);
                        assert(after[b].0 == before[b].0);
                    }
                    assert forall|t: TileIndex| holds(after, t) == holds(before, t) by {
                        if holds(before, t) {
                            let p = position(before, t);
                            assert(after[p].0 == t);
                        }
                        if holds(after, t) {
                            let p = position(after, t);
                            assert(before[p].0 == t);
                        }
                    }
                    assert forall|t: TileIndex| holds(after, t) implies as_map(after)[t]
                        == as_map(before).insert(index, value)[t] by {
                        let p = position(after, t);
                        lemma_lookup(after, p);
                        lemma_lookup(before, p);
                    }
                    assert(as_map(after) =~= as_map(before).insert(index, value));
                }
            },
            None => {
                self.entries.push(TileEntry { index, bytes });
                proof {
                    let after = self.entries();
                    assert(after =~= before.push((index, value)));
                    assert forall|a: int, b: int| 0 <= a < b < after.len() implies (
                    #[trigger] after[a]).0 != (#[trigger] after[b]).0 by {
                        assert(after[a].0 == before[a].0);
                        if b < before.len() {
                            assert(after[b].0 == before[b].0);
                        }
                    }
                    assert(after[before.len() as int].0 == index);
                    assert forall|t: TileIndex| holds(after, t) == (holds(before, t) || t
                        == index) by {
                        if holds(before, t) {
                            let p = position(before, t);
                            assert(after[p].0 == t);
                        }
                        if holds(after, t) {
                            let p = position(after, t);
                            if p < before.len() {
                                assert(before[p].0 == t);
                            }
                        }
                    }
                    assert forall|t: TileIndex| holds(after, t) implies as_map(after)[t]
                        == as_map(before).insert(index, value)[t] by {
                        let p = position(after, t);
                        lemma_lookup(after, p);
                        if p < before.len() {
                            assert(before[p].0 == t);
                            lemma_lookup(before, p);
                        }
                    }
                    assert(as_map(after) =~= as_map(before).insert(index, value));
                }
            },
        }
        true
    }
}

/// Distinct entries stand for a map with as many keys as there are entries.
pub proof fn lemma_dom_len(entries: Seq<(TileIndex, Seq<u8>)>)
    requires
        distinct(entries),
    ensures
        as_map(entries).dom().finite(),
        as_map(entries).dom().len() == entries.len(),
    decreases entries.len(),
{
    if entries.len() == 0 {
        assert(as_map(entries).dom() =~= Set::<TileIndex>::empty());
    } else {
        let front = entries.drop_last();
        let last = entries.last();
        assert forall|i: int, j: int| 0 <= i < j < front.len() implies (#[trigger] front[i]).0 != (
        #[trigger] front[j]).0 by {
            assert(front[i] == entries[i]);
            assert(front[j] == entries[j]);
        }
        lemma_dom_len(front);
        assert(!holds(front, last.0)) by {
            if holds(front, last.0) {
                let p = position(front, last.0);
                assert(front[p] == entries[p]);
                assert(entries[p].0 != entries[entries.len() - 1].0);
            }
        }
        assert forall|t: TileIndex| holds(entries, t) == (holds(front, t) || t == last.0) by {
            if holds(front, t) {
                let p = position(front, t);
                assert(entries[p] == front[p]);
            }
            if t == last.0 {
                assert(entries[entries.len() - 1].0 == t);
            }
            if holds(entries, t) {
                let p = position(entries, t);
                if p < front.len() {
                    assert(front[p] == entries[p]);
                }
            }
        }
        assert(as_map(entries).dom() =~= as_map(front).dom().insert(last.0));
    }
}

} // verus!
