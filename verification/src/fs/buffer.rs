//! A cache of disk sectors. Sixty sectors are kept; a new one takes the
//! place of the one that has been in the cache longest, which has to be
//! written to the disk first. Reading and writing the disk is left to the
//! caller.

use crate::registry::{
    index_entries, index_map_get, index_map_insert, index_map_new, index_map_remove, IndexMap,
};
use vstd::prelude::*;

verus! {

/// Sectors in the cache.
pub const CACHE_SIZE: usize = 60;

/// Bytes in a sector.
pub const SECTOR_SIZE: usize = 512;

/// A sector that has to be written to the disk.
pub struct WriteBack {
    pub sector: usize,
    pub data: [u8; 512],
}

/// The cache.
pub struct Cache {
    cache: Vec<[u8; 512]>,
    cache_from: Vec<Option<usize>>,
    cur: usize,
    map: IndexMap,
}

impl View for Cache {
    type V = Map<usize, Seq<u8>>;

    /// The bytes of every sector in the cache.
    closed spec fn view(&self) -> Map<usize, Seq<u8>> {
        Map::new(
            |sector: usize| index_entries(self.map).contains_key(sector),
            |sector: usize| self.cache@[index_entries(self.map)[sector] as int]@,
        )
    }
}

impl Cache {
    /// Every slot is free or holds the sector that the index says it holds.
    pub closed spec fn wf(&self) -> bool {
        &&& self.cache@.len() == CACHE_SIZE
        &&& self.cache_from@.len() == CACHE_SIZE
        &&& self.cur < CACHE_SIZE
        &&& forall|sector: usize| #[trigger]
            index_entries(self.map).contains_key(sector) ==> index_entries(self.map)[sector]
                < CACHE_SIZE && self.cache_from@[index_entries(self.map)[sector] as int] == Some(
                sector,
            )
        &&& forall|i: int|
            0 <= i < CACHE_SIZE ==> ((#[trigger] self.cache_from@[i]) matches Some(sector)
                ==> index_entries(self.map).contains_key(sector) && index_entries(
                self.map,
            )[sector] == i)
    }

    /// The slot that the next sector goes to.
    pub closed spec fn cursor(&self) -> usize {
        self.cur
    }

    /// The sector in slot `i`, if the slot holds one.
    pub closed spec fn held(&self, i: int) -> Option<usize> {
        self.cache_from@[i]
    }

    /// An empty cache.
    pub fn new() -> (c: Self)
        ensures
            c.wf(),
            c@ == Map::<usize, Seq<u8>>::empty(),
            c.cursor() == 0,
    {
        let mut cache: Vec<[u8; 512]> = Vec::new();
        let mut cache_from: Vec<Option<usize>> = Vec::new();
        let mut i: usize = 0;
        while i < CACHE_SIZE
            invariant
                i <= CACHE_SIZE,
                cache@.len() == i,
                cache_from@.len() == i,
                forall|k: int| 0 <= k < i ==> (#[trigger] cache_from@[k]) is None,
            decreases CACHE_SIZE - i,
        {
            cache.push([0u8; 512]);
            cache_from.push(None);
            i += 1;
        }
        let c = Self { cache, cache_from, cur: 0, map: index_map_new() };
        assert(c@ =~= Map::<usize, Seq<u8>>::empty());
        c
    }

    /// Tests whether the sector is in the cache.
    pub fn contains(&self, sector: usize) -> (r: bool)
        ensures
            r == self@.contains_key(sector),
    {
        index_map_get(&self.map, sector).is_some()
    }

    /// Frees the slot at the cursor and moves the cursor on. The result is
    /// the slot and, where the slot held a sector, that sector with its
    /// bytes: it has left the cache and has to be written to the disk.
    pub fn next_sector_cache(&mut self) -> (r: (usize, Option<WriteBack>))
        requires
            old(self).wf(),
        ensures
            final(self).wf(),
            r.0 == old(self).cursor(),
            final(self).cursor() == (old(self).cursor() + 1) % (CACHE_SIZE as int),
            final(self).held(r.0 as int) is None,
            match old(self).held(old(self).cursor() as int) {
                Some(sector) => r.1 matches Some(w) && w.sector == sector && w.data@ == old(
                    self,
                )@[sector] && final(self)@ == old(self)@.remove(sector),
                None => r.1 is None && final(self)@ == old(self)@,
            },
    {
        let res = self.cur;
        self.cur = (self.cur + 1) % CACHE_SIZE;
        let evicted = match self.cache_from[res] {
            Some(sector) => {
                let data = self.cache[res];
                index_map_remove(&mut self.map, sector);
                Some(WriteBack { sector, data })
            },
            None => None,
        };
        self.cache_from[res] = None;
        proof {
            match old(self).held(res as int) {
                Some(sector) => {
                    assert(self@ =~= old(self)@.remove(sector));
                },
                None => {
                    assert(self@ =~= old(self)@);
                },
            }
        }
        (res, evicted)
    }

    /// Puts a sector that is not in the cache into it. The result is the
    /// sector that left the cache to make room, if one did.
    pub fn set_cache(&mut self, sector: usize, buf: &[u8; 512]) -> (r: Option<WriteBack>)
        requires
            old(self).wf(),
            !old(self)@.contains_key(sector),
        ensures
            final(self).wf(),
            final(self).cursor() == (old(self).cursor() + 1) % (CACHE_SIZE as int),
            match old(self).held(old(self).cursor() as int) {
                Some(out) => r matches Some(w) && w.sector == out && w.data@ == old(self)@[out]
                    && final(self)@ == old(self)@.remove(out).insert(sector, buf@),
                None => r is None && final(self)@ == old(self)@.insert(sector, buf@),
            },
    {
        let (cache_index, evicted) = self.next_sector_cache();
        let ghost before = *self;
        index_map_insert(&mut self.map, sector, cache_index);
        self.cache_from[cache_index] = Some(sector);
        self.cache[cache_index] = *buf;
        proof {
            assert(self@ =~= before@.insert(sector, buf@));
        }
        evicted
    }

    /// The `len` bytes from `begin` on of a sector in the cache; an error
    /// where the sector is not in the cache.
    pub fn copy_into(&self, sector: usize, begin: usize, len: usize) -> (r: Result<Vec<u8>, ()>)
        requires
            self.wf(),
            begin + len <= SECTOR_SIZE,
        ensures
            match r {
                Ok(bytes) => self@.contains_key(sector) && bytes@ == self@[sector].subrange(
                    begin as int,
                    begin + len,
                ),
                Err(_) => !self@.contains_key(sector),
            },
    {
        let cache_index = match index_map_get(&self.map, sector) {
            None => { return Err(()); },
            Some(i) => i,
        };
        let mut bytes: Vec<u8> = Vec::new();
        let mut i: usize = 0;
        while i < len
            invariant
                i <= len,
                begin + len <= SECTOR_SIZE,
                cache_index < self.cache@.len(),
                bytes@ == self.cache@[cache_index as int]@.subrange(begin as int, begin + i),
            decreases len - i,
        {
            bytes.push(self.cache[cache_index][begin + i]);
            assert(bytes@ =~= self.cache@[cache_index as int]@.subrange(
                begin as int,
                begin + i + 1,
            ));
            i += 1;
        }
        Ok(bytes)
    }

    /// Overwrites the bytes from `begin` on of a sector in the cache with
    /// `buf`; an error, with nothing changed, where the sector is not in the
    /// cache.
    pub fn copy_from(&mut self, sector: usize, begin: usize, buf: &Vec<u8>) -> (r: Result<(), ()>)
        requires
            old(self).wf(),
            begin + buf@.len() <= SECTOR_SIZE,
        ensures
            final(self).wf(),
            final(self).cursor() == old(self).cursor(),
            match r {
                Ok(_) => old(self)@.contains_key(sector) && final(self)@ == old(self)@.insert(
                    sector,
                    old(self)@[sector].subrange(0, begin as int) + buf@ + old(self)@[sector].subrange(
                        begin + buf@.len(),
                        SECTOR_SIZE as int,
                    ),
                ),
                Err(_) => !old(self)@.contains_key(sector) && final(self)@ == old(self)@,
            },
    {
        let cache_index = match index_map_get(&self.map, sector) {
            None => { return Err(()); },
            Some(i) => i,
        };
        let ghost start = self.cache@[cache_index as int]@;
        let mut i: usize = 0;
        while i < buf.len()
            invariant
                i <= buf@.len(),
                begin + buf@.len() <= SECTOR_SIZE,
                cache_index < self.cache@.len(),
                self.map == old(self).map,
                self.cache_from == old(self).cache_from,
                self.cur == old(self).cur,
                self.cache@.len() == old(self).cache@.len(),
                start == old(self).cache@[cache_index as int]@,
                start.len() == SECTOR_SIZE,
                forall|j: int|
                    0 <= j < self.cache@.len() && j != cache_index ==> #[trigger] self.cache@[j]
                        == old(self).cache@[j],
                self.cache@[cache_index as int]@ == start.subrange(0, begin as int)
                    + buf@.subrange(0, i as int) + start.subrange(begin + i, SECTOR_SIZE as int),
            decreases buf@.len() - i,
        {
            self.cache[cache_index][begin + i] = buf[i];
            assert(self.cache@[cache_index as int]@ =~= start.subrange(0, begin as int)
                + buf@.subrange(0, i + 1) + start.subrange(begin + i + 1, SECTOR_SIZE as int));
            i += 1;
        }
        proof {
            assert(buf@.subrange(0, buf@.len() as int) =~= buf@);
            assert(self@ =~= old(self)@.insert(sector, self.cache@[cache_index as int]@));
        }
        Ok(())
    }

    /// Every sector in the cache, with its bytes, in the order of the
    /// slots: what has to be written to the disk to bring it up to date.
    pub fn flush(&self) -> (r: Vec<WriteBack>)
        requires
            self.wf(),
        ensures
            forall|k: int|
                0 <= k < r@.len() ==> self@.contains_key((#[trigger] r@[k]).sector)
                    && r@[k].data@ == self@[r@[k].sector],
            forall|sector: usize|
                self@.contains_key(sector) ==> exists|k: int|
                    0 <= k < r@.len() && (#[trigger] r@[k]).sector == sector,
    {
        let mut out: Vec<WriteBack> = Vec::new();
        let mut i: usize = 0;
        while i < CACHE_SIZE
            invariant
                i <= CACHE_SIZE,
                self.wf(),
                forall|k: int|
                    0 <= k < out@.len() ==> self@.contains_key((#[trigger] out@[k]).sector)
                        && out@[k].data@ == self@[out@[k].sector],
                forall|j: int|
                    0 <= j < i ==> ((#[trigger] self.cache_from@[j]) matches Some(sector)
                        ==> exists|k: int| 0 <= k < out@.len() && (#[trigger] out@[k]).sector
                        == sector),
            decreases CACHE_SIZE - i,
        {
            if let Some(sector) = self.cache_from[i] {
                let ghost before = out@;
                out.push(WriteBack { sector, data: self.cache[i] });
                proof {
                    assert(out@[before.len() as int].sector == sector);
                    assert forall|j: int| 0 <= j < i + 1 implies ((
                    #[trigger] self.cache_from@[j]) matches Some(s) ==> exists|k: int|
                        0 <= k < out@.len() && (#[trigger] out@[k]).sector == s) by {
                        if j < i {
                            if let Some(s) = self.cache_from@[j] {
                                let k = choose|k: int|
                                    0 <= k < before.len() && (#[trigger] before[k]).sector == s;
                                assert(out@[k].sector == s);
                            }
                        }
                    }
                }
            }
            i += 1;
        }
        proof {
            assert forall|sector: usize| self@.contains_key(sector) implies exists|k: int|
                0 <= k < out@.len() && (#[trigger] out@[k]).sector == sector by {
                let j = index_entries(self.map)[sector] as int;
                assert(self.cache_from@[j] == Some(sector));
            }
        }
        out
    }
}

/// Where a position on the disk lies: the sector, and the offset in it.
pub fn locate(pos: usize) -> (r: (usize, usize))
    ensures
        r.0 == pos / SECTOR_SIZE,
        r.1 == pos % SECTOR_SIZE,
        r.0 * SECTOR_SIZE + r.1 == pos,
{
    (pos / SECTOR_SIZE, pos % SECTOR_SIZE)
}

/// How many bytes to move in one step: what is left, but not past the end
/// of the sector.
pub fn step(pos: usize, left: usize) -> (amount: usize)
    ensures
        amount <= left,
        pos % SECTOR_SIZE + amount <= SECTOR_SIZE,
        amount == left || pos % SECTOR_SIZE + amount == SECTOR_SIZE,
{
    let room = SECTOR_SIZE - pos % SECTOR_SIZE;
    if left < room {
        left
    } else {
        room
    }
}

} // verus!
