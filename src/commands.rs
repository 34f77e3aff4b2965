//! Batch mutations: many inserts, removals, moves or swaps in one call, with
//! the same outcome as the single operations applied in the order given.
use crate::coords::coord_ints;
use crate::maps::TileMap;
use vstd::prelude::*;

verus! {

/// `m` after inserting every pair of `s` in order; a later pair at the same
/// coordinate wins.
pub open spec fn insert_all<T, const N: usize>(m: Map<Seq<int>, T>, s: Seq<([i32; N], T)>) -> Map<Seq<int>, T>
    decreases s.len(),
{
    if s.len() == 0 {
        m
    } else {
        insert_all(m, s.drop_last()).insert(coord_ints(s.last().0), s.last().1)
    }
}

/// The tiles that inserting the pairs of `s` in order replaces, in order.
pub open spec fn replaced_by<T, const N: usize>(m: Map<Seq<int>, T>, s: Seq<([i32; N], T)>) -> Seq<T>
    decreases s.len(),
{
    if s.len() == 0 {
        Seq::empty()
    } else {
        let before = insert_all(m, s.drop_last());
        let k = coord_ints(s.last().0);
        replaced_by(m, s.drop_last()) + if before.contains_key(k) {
            seq![before[k]]
        } else {
            Seq::empty()
        }
    }
}

/// `m` after removing every coordinate of `cs` in order.
pub open spec fn remove_all<T, const N: usize>(m: Map<Seq<int>, T>, cs: Seq<[i32; N]>) -> Map<Seq<int>, T>
    decreases cs.len(),
{
    if cs.len() == 0 {
        m
    } else {
        remove_all(m, cs.drop_last()).remove(coord_ints(cs.last()))
    }
}

/// Removing the coordinates of `cs` in order, the tiles found, each paired
/// with the coordinate of `ts` at the same position.
pub open spec fn taken_to<T, const N: usize>(m: Map<Seq<int>, T>, cs: Seq<[i32; N]>, ts: Seq<[i32; N]>) -> Seq<([i32; N], T)>
    decreases cs.len(),
{
    if cs.len() == 0 {
        Seq::empty()
    } else {
        let before = remove_all(m, cs.drop_last());
        let k = coord_ints(cs.last());
        taken_to(m, cs.drop_last(), ts.subrange(0, ts.len() - 1)) + if before.contains_key(k) {
            seq![(ts[cs.len() - 1], before[k])]
        } else {
            Seq::empty()
        }
    }
}

pub open spec fn firsts<const N: usize>(s: Seq<([i32; N], [i32; N])>) -> Seq<[i32; N]> {
    Seq::new(s.len(), |i: int| s[i].0)
}

pub open spec fn seconds<const N: usize>(s: Seq<([i32; N], [i32; N])>) -> Seq<[i32; N]> {
    Seq::new(s.len(), |i: int| s[i].1)
}

/// The tiles after a batch move: every source is emptied in order, then each
/// tile found is inserted at its destination in order.
pub open spec fn moved_all<T, const N: usize>(m: Map<Seq<int>, T>, s: Seq<([i32; N], [i32; N])>) -> Map<Seq<int>, T> {
    insert_all(remove_all(m, firsts(s)), taken_to(m, firsts(s), seconds(s)))
}

/// The tiles handed to the destinations of a batch swap: first those taken
/// from the first coordinates, then those taken from the second ones.
pub open spec fn swap_carried<T, const N: usize>(m: Map<Seq<int>, T>, s: Seq<([i32; N], [i32; N])>) -> Seq<([i32; N], T)> {
    let m1 = remove_all(m, firsts(s));
    taken_to(m, firsts(s), seconds(s)) + taken_to(m1, seconds(s), firsts(s))
}

/// The tiles after a batch swap: both coordinates of every pair are emptied,
/// then each tile found is inserted at the other coordinate of its pair.
pub open spec fn swapped_all<T, const N: usize>(m: Map<Seq<int>, T>, s: Seq<([i32; N], [i32; N])>) -> Map<Seq<int>, T> {
    let m2 = remove_all(remove_all(m, firsts(s)), seconds(s));
    insert_all(m2, swap_carried(m, s))
}

impl<T, const N: usize> TileMap<T, N> {
    /// Inserts a batch of tiles in order, returning every tile that was
    /// replaced. A run of tiles in one chunk resolves that chunk once.
    pub fn insert_tile_batch(&mut self, tiles: Vec<([i32; N], T)>) -> (r: Vec<T>)
        requires
            old(self).wf(),
        ensures
            final(self).wf(),
            final(self).settings() == old(self).settings(),
            final(self).tiles() == insert_all(old(self).tiles(), tiles@),
            r@ == replaced_by(old(self).tiles(), tiles@),
    {
        let ghost m = self.tiles();
        let ghost s = tiles@;
        let mut replaced: Vec<T> = Vec::new();
        let mut hint: Option<usize> = None;
        proof {
            assert(s.subrange(0, 0) =~= Seq::<([i32; N], T)>::empty());
        }
        for pair in it: tiles.into_iter()
            invariant
                it.seq() == s,
                self.wf(),
                self.settings() == old(self).settings(),
                self.tiles() == insert_all(m, s.subrange(0, it.index() as int)),
                replaced@ == replaced_by(m, s.subrange(0, it.index() as int)),
        {
            let ghost i = it.index() as int;
            proof {
                assert(s.subrange(0, i + 1).drop_last() =~= s.subrange(0, i));
                self.lemma_tile_at_tiles(coord_ints(pair.0));
            }
            let (tile_c, value) = pair;
            let (old_tile, chunk_pos) = self.insert_tile_hinted(tile_c, value, hint);
            if let Some(t) = old_tile {
                replaced.push(t);
            }
            hint = Some(chunk_pos);
            proof {
                assert(replaced@ =~= replaced_by(m, s.subrange(0, i + 1)));
            }
        }
        proof {
            assert(s.subrange(0, s.len() as int) =~= s);
        }
        replaced
    }

    /// Removes the tiles at `cs` in order; each tile found is returned paired
    /// with the coordinate of `ts` at the same position.
    fn take_to(&mut self, cs: &Vec<[i32; N]>, ts: &Vec<[i32; N]>) -> (r: Vec<([i32; N], T)>)
        requires
            old(self).wf(),
            cs@.len() == ts@.len(),
        ensures
            final(self).wf(),
            final(self).settings() == old(self).settings(),
            final(self).tiles() == remove_all(old(self).tiles(), cs@),
            r@ == taken_to(old(self).tiles(), cs@, ts@),
    {
        let ghost m = self.tiles();
        let mut taken: Vec<([i32; N], T)> = Vec::new();
        let mut hint: Option<usize> = None;
        let mut i: usize = 0;
        proof {
            assert(cs@.subrange(0, 0) =~= Seq::<[i32; N]>::empty());
        }
        while i < cs.len()
            invariant
                0 <= i <= cs@.len(),
                cs@.len() == ts@.len(),
                self.wf(),
                self.settings() == old(self).settings(),
                m == old(self).tiles(),
                self.tiles() == remove_all(m, cs@.subrange(0, i as int)),
                taken@ == taken_to(m, cs@.subrange(0, i as int), ts@.subrange(0, i as int)),
            decreases cs@.len() - i,
        {
            proof {
                assert(cs@.subrange(0, i + 1).drop_last() =~= cs@.subrange(0, i as int));
                assert(ts@.subrange(0, i + 1).subrange(0, i as int) =~= ts@.subrange(0, i as int));
                self.lemma_tile_at_tiles(coord_ints(cs@[i as int]));
            }
            let (found, chunk_pos) = self.take_tile_hinted(cs[i], hint);
            if let Some(tile) = found {
                taken.push((ts[i], tile));
            }
            hint = chunk_pos;
            i = i + 1;
            proof {
                assert(taken@ =~= taken_to(m, cs@.subrange(0, i as int), ts@.subrange(0, i as int)));
            }
        }
        proof {
            assert(cs@.subrange(0, cs@.len() as int) =~= cs@);
            assert(ts@.subrange(0, ts@.len() as int) =~= ts@);
        }
        taken
    }

    /// Removes a batch of tiles, returning each tile found with its coordinate.
    pub fn take_tile_batch(&mut self, tile_cs: Vec<[i32; N]>) -> (r: Vec<([i32; N], T)>)
        requires
            old(self).wf(),
        ensures
            final(self).wf(),
            final(self).settings() == old(self).settings(),
            final(self).tiles() == remove_all(old(self).tiles(), tile_cs@),
            r@ == taken_to(old(self).tiles(), tile_cs@, tile_cs@),
    {
        self.take_to(&tile_cs, &tile_cs)
    }

    /// Moves a batch of tiles: every source is emptied first, in order, then
    /// each tile found is inserted at its destination, in order. A source
    /// listed twice yields its tile once, to the first move that names it.
    /// Returns the tiles that were replaced at the destinations.
    pub fn move_tile_batch(&mut self, moves: Vec<([i32; N], [i32; N])>) -> (r: Vec<T>)
        requires
            old(self).wf(),
        ensures
            final(self).wf(),
            final(self).settings() == old(self).settings(),
            final(self).tiles() == moved_all(old(self).tiles(), moves@),
            r@ == replaced_by(remove_all(old(self).tiles(), firsts(moves@)), taken_to(old(self).tiles(), firsts(moves@), seconds(moves@))),
    {
        let (sources, targets) = split_pairs(&moves);
        let carried = self.take_to(&sources, &targets);
        self.insert_tile_batch(carried)
    }

    /// Swaps a batch of coordinate pairs: the first coordinates of all pairs
    /// are emptied, then the second ones, then each tile found is inserted at
    /// the other coordinate of its pair. With no coordinate repeated, no tile
    /// is replaced; the tiles that were replaced are returned.
    pub fn swap_tile_batch(&mut self, swaps: Vec<([i32; N], [i32; N])>) -> (r: Vec<T>)
        requires
            old(self).wf(),
        ensures
            final(self).wf(),
            final(self).settings() == old(self).settings(),
            final(self).tiles() == swapped_all(old(self).tiles(), swaps@),
            r@ == replaced_by(remove_all(remove_all(old(self).tiles(), firsts(swaps@)), seconds(swaps@)), swap_carried(old(self).tiles(), swaps@)),
    {
        let (lefts, rights) = split_pairs(&swaps);
        let mut carried = self.take_to(&lefts, &rights);
        let mut back = self.take_to(&rights, &lefts);
        carried.append(&mut back);
        self.insert_tile_batch(carried)
    }
}

/// The first and the second coordinates of a sequence of pairs.
fn split_pairs<const N: usize>(pairs: &Vec<([i32; N], [i32; N])>) -> (r: (Vec<[i32; N]>, Vec<[i32; N]>))
    ensures
        r.0@ == firsts(pairs@),
        r.1@ == seconds(pairs@),
{
    let mut a: Vec<[i32; N]> = Vec::new();
    let mut b: Vec<[i32; N]> = Vec::new();
    let mut i: usize = 0;
    while i < pairs.len()
        invariant
            0 <= i <= pairs@.len(),
            a@ == firsts(pairs@.subrange(0, i as int)),
            b@ == seconds(pairs@.subrange(0, i as int)),
        decreases pairs@.len() - i,
    {
        a.push(pairs[i].0);
        b.push(pairs[i].1);
        i = i + 1;
        assert(a@ =~= firsts(pairs@.subrange(0, i as int)));
        assert(b@ =~= seconds(pairs@.subrange(0, i as int)));
    }
    assert(pairs@.subrange(0, pairs@.len() as int) =~= pairs@);
    (a, b)
}

} // verus!
