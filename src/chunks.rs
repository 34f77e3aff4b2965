//! Chunk storage: a fixed number of slots, each empty or holding one tile,
//! and a count of the occupied slots.
use vstd::prelude::*;

verus! {

/// The coordinate of a given chunk, in chunk units.
#[derive(Clone, Copy, Debug, PartialEq, Eq, Hash)]
pub struct ChunkCoord<const N: usize>(pub [i32; N]);

/// How many slots of `s` hold a tile.
pub open spec fn occupied<T>(s: Seq<Option<T>>) -> nat
    decreases s.len(),
{
    if s.len() == 0 {
        0
    } else {
        occupied(s.drop_last()) + if s.last() is Some {
            1nat
        } else {
            0nat
        }
    }
}

pub proof fn lemma_occupied_bound<T>(s: Seq<Option<T>>)
    ensures
        occupied(s) <= s.len(),
    decreases s.len(),
{
    if s.len() > 0 {
        lemma_occupied_bound(s.drop_last());
    }
}

/// Writing `x` into slot `i` changes the count by the change in that slot.
pub proof fn lemma_occupied_update<T>(s: Seq<Option<T>>, i: int, x: Option<T>)
    requires
        0 <= i < s.len(),
    ensures
        occupied(s.update(i, x)) + (if s[i] is Some { 1int } else { 0int }) == occupied(s) + (
        if x is Some {
            1int
        } else {
            0int
        }),
    decreases s.len(),
{
    let t = s.update(i, x);
    if i == s.len() - 1 {
        assert(t.drop_last() =~= s.drop_last());
    } else {
        assert(t.drop_last() =~= s.drop_last().update(i, x));
        lemma_occupied_update(s.drop_last(), i, x);
    }
}

/// A count of zero means that every slot is empty.
pub proof fn lemma_occupied_zero<T>(s: Seq<Option<T>>)
    ensures
        occupied(s) == 0 <==> forall|i: int| 0 <= i < s.len() ==> #[trigger] s[i] is None,
    decreases s.len(),
{
    if s.len() > 0 {
        lemma_occupied_zero(s.drop_last());
        if occupied(s) == 0 {
            assert forall|i: int| 0 <= i < s.len() implies #[trigger] s[i] is None by {
                if i < s.len() - 1 {
                    assert(s.drop_last()[i] == s[i]);
                }
            }
        } else {
            if forall|i: int| 0 <= i < s.len() ==> #[trigger] s[i] is None {
                assert forall|i: int| 0 <= i < s.drop_last().len() implies #[trigger] s.drop_last()[i] is None by {
                    assert(s[i] is None);
                }
                assert(s[s.len() - 1] is None);
            }
        }
    }
}

/// Holds data for tiles in chunk.
pub struct ChunkData<T> {
    tiles: Vec<Option<T>>,
    count: usize,
}

impl<T> View for ChunkData<T> {
    type V = Seq<Option<T>>;

    closed spec fn view(&self) -> Seq<Option<T>> {
        self.tiles@
    }
}

impl<T> ChunkData<T> {
    /// The stored count agrees with the slots.
    pub closed spec fn wf(&self) -> bool {
        self.count == occupied(self.tiles@)
    }

    /// Create a new ChunkData with the given number of slots, all empty.
    pub fn new(chunk_size: usize) -> (r: Self)
        ensures
            r.wf(),
            r@ == Seq::new(chunk_size as nat, |i: int| None::<T>),
    {
        let mut tiles: Vec<Option<T>> = Vec::new();
        let mut i: usize = 0;
        while i < chunk_size
            invariant
                0 <= i <= chunk_size,
                tiles@ == Seq::new(i as nat, |j: int| None::<T>),
            decreases chunk_size - i,
        {
            tiles.push(None);
            i = i + 1;
            assert(tiles@ =~= Seq::new(i as nat, |j: int| None::<T>));
        }
        proof {
            lemma_occupied_zero(tiles@);
        }
        ChunkData { tiles, count: 0 }
    }

    /// Get tile data at a given index.
    pub fn get(&self, tile_i: usize) -> (r: Option<&T>)
        ensures
            r is Some <==> tile_i < self@.len() && self@[tile_i as int] is Some,
            r is Some ==> *r->0 == self@[tile_i as int]->0,
    {
        if tile_i < self.tiles.len() {
            self.tiles[tile_i].as_ref()
        } else {
            None
        }
    }

    /// Get tile data at a given index, for writing.
    pub fn get_mut(&mut self, tile_i: usize) -> (r: Option<&mut T>)
        requires
            old(self).wf(),
        ensures
            r is Some <==> tile_i < old(self)@.len() && old(self)@[tile_i as int] is Some,
            r is Some ==> {
                &&& *r->0 == old(self)@[tile_i as int]->0
                &&& final(self)@ == old(self)@.update(tile_i as int, Some(*final(r->0)))
                &&& final(self).wf()
            },
            r is None ==> final(self)@ == old(self)@ && final(self).wf(),
    {
        if tile_i < self.tiles.len() {
            proof {
                lemma_occupied_update(self.tiles@, tile_i as int, self.tiles@[tile_i as int]);
                assert(self.tiles@.update(tile_i as int, self.tiles@[tile_i as int]) =~= self.tiles@);
            }
            let ghost before = self.tiles@;
            let slot = &mut self.tiles[tile_i];
            let r = slot.as_mut();
            proof {
                if r is Some {
                    lemma_occupied_update(before, tile_i as int, Some(*final(r->0)));
                }
            }
            r
        } else {
            None
        }
    }

    /// Take the value from this index, leaving the slot empty.
    pub fn take(&mut self, tile_i: usize) -> (r: Option<T>)
        requires
            old(self).wf(),
        ensures
            final(self).wf(),
            tile_i < old(self)@.len() ==> r == old(self)@[tile_i as int] && final(self)@ == old(
                self,
            )@.update(tile_i as int, None),
            tile_i >= old(self)@.len() ==> r is None && final(self)@ == old(self)@,
    {
        if tile_i >= self.tiles.len() {
            return None;
        }
        proof {
            lemma_occupied_update(self.tiles@, tile_i as int, None);
        }
        let removed = self.tiles[tile_i].take();
        if removed.is_some() {
            self.count = self.count - 1;
        }
        removed
    }

    /// Insert the value at this index, returning the value it replaced.
    pub fn insert(&mut self, tile_i: usize, value: T) -> (r: Option<T>)
        requires
            old(self).wf(),
            tile_i < old(self)@.len(),
        ensures
            final(self).wf(),
            r == old(self)@[tile_i as int],
            final(self)@ == old(self)@.update(tile_i as int, Some(value)),
    {
        proof {
            lemma_occupied_update(self.tiles@, tile_i as int, Some(value));
            lemma_occupied_bound(self.tiles@.update(tile_i as int, Some(value)));
        }
        let ghost before = self.tiles@;
        assert(before.len() == self.tiles.len());
        let replaced = self.tiles[tile_i].take();
        self.tiles[tile_i] = Some(value);
        assert(self.tiles@ =~= before.update(tile_i as int, Some(value)));
        assert(replaced == before[tile_i as int]);
        if replaced.is_none() {
            self.count = self.count + 1;
        }
        replaced
    }

    /// The current number of items.
    pub fn get_count(&self) -> (r: usize)
        requires
            self.wf(),
        ensures
            r == occupied(self@),
    {
        self.count
    }
}

} // verus!
