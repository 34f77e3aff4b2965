//! Reading tiles: point lookups and iteration over the occupied tiles of a box.
use crate::coords::{
    box_count, box_point, calculate_tile_coordinate, calculate_tile_index, chunk_origin_fits,
    coord_ints, lemma_chunk_corners, max_corner, max_tile_index, min_corner, CoordIterator,
};
use crate::maps::TileMap;
use vstd::prelude::*;

verus! {

/// The first position at or after `from` whose point of the box holds a tile
/// in `m`; `box_count` when there is none.
pub open spec fn next_occupied<T>(m: Map<Seq<int>, T>, lo: Seq<int>, hi: Seq<int>, from: int) -> int
    decreases box_count(lo, hi) - from,
{
    if from >= box_count(lo, hi) {
        box_count(lo, hi)
    } else if from >= 0 && m.contains_key(box_point(lo, hi, from)) {
        from
    } else {
        next_occupied(m, lo, hi, from + 1)
    }
}

/// The lowest tile of the chunk at `cc`.
pub open spec fn chunk_low(cc: Seq<int>, s: int) -> Seq<int> {
    Seq::new(cc.len(), |i: int| cc[i] * s)
}

/// The highest tile of the chunk at `cc`.
pub open spec fn chunk_high(cc: Seq<int>, s: int) -> Seq<int> {
    Seq::new(cc.len(), |i: int| cc[i] * s + s - 1)
}

impl<T, const N: usize> TileMap<T, N> {
    /// Gets the tile at the given coordinate.
    pub fn get_at(&self, tile_c: [i32; N]) -> (r: Option<&T>)
        requires
            self.wf(),
        ensures
            r is Some <==> self.tiles().contains_key(coord_ints(tile_c)),
            r is Some ==> *r->0 == self.tiles()[coord_ints(tile_c)],
    {
        proof {
            self.lemma_wf_chunk_size();
        }
        let tile_i = calculate_tile_index(tile_c, self.get_chunk_size());
        match self.get_from_tile(tile_c) {
            Some(chunk) => chunk.get(tile_i),
            None => None,
        }
    }

    /// Iterate over all the tiles in a given space, starting at `corner_1`
    /// inclusive over `corner_2`.
    pub fn iter_in(&self, corner_1: [i32; N], corner_2: [i32; N]) -> (r: TileQueryIter<'_, T, N>)
        requires
            self.wf(),
        ensures
            r.wf(),
            r.map() == *self,
            r.lo() == min_corner(coord_ints(corner_1), coord_ints(corner_2)),
            r.hi() == max_corner(coord_ints(corner_1), coord_ints(corner_2)),
            r.pos() == 0,
    {
        TileQueryIter { coord_iter: CoordIterator::new(corner_1, corner_2), map: self }
    }

    /// The lowest tile of the chunk at `chunk_c_1` and the highest tile of
    /// the chunk at `chunk_c_2`.
    fn chunk_corners(&self, chunk_c_1: [i32; N], chunk_c_2: [i32; N]) -> (r: ([i32; N], [i32; N]))
        requires
            self.wf(),
            chunk_origin_fits(coord_ints(chunk_c_1), self.size()),
            chunk_origin_fits(coord_ints(chunk_c_2), self.size()),
        ensures
            coord_ints(r.0) == chunk_low(coord_ints(chunk_c_1), self.size()),
            coord_ints(r.1) == chunk_high(coord_ints(chunk_c_2), self.size()),
    {
        proof {
            self.lemma_wf_chunk_size();
            lemma_chunk_corners(coord_ints(chunk_c_1), self.size());
            lemma_chunk_corners(coord_ints(chunk_c_2), self.size());
            assert(coord_ints(chunk_c_1).len() == N);
        }
        let chunk_size = self.get_chunk_size();
        let corner_1 = calculate_tile_coordinate(chunk_c_1, 0, chunk_size);
        let corner_2 = calculate_tile_coordinate(chunk_c_2, max_tile_index::<N>(chunk_size), chunk_size);
        (corner_1, corner_2)
    }

    /// Iterate over all the tiles of the chunk at `chunk_c` (in chunk coordinates).
    pub fn iter_in_chunk(&self, chunk_c: [i32; N]) -> (r: TileQueryIter<'_, T, N>)
        requires
            self.wf(),
            chunk_origin_fits(coord_ints(chunk_c), self.size()),
        ensures
            r.wf(),
            r.map() == *self,
            r.lo() == chunk_low(coord_ints(chunk_c), self.size()),
            r.hi() == chunk_high(coord_ints(chunk_c), self.size()),
            r.pos() == 0,
    {
        let (corner_1, corner_2) = self.chunk_corners(chunk_c, chunk_c);
        proof {
            self.lemma_wf_chunk_size();
            assert(min_corner(coord_ints(corner_1), coord_ints(corner_2)) =~= coord_ints(corner_1));
            assert(max_corner(coord_ints(corner_1), coord_ints(corner_2)) =~= coord_ints(corner_2));
        }
        self.iter_in(corner_1, corner_2)
    }

    /// Iterate over all the tiles of the chunks in the box of chunk
    /// coordinates from `chunk_c_1` to `chunk_c_2`.
    pub fn iter_in_chunks(&self, chunk_c_1: [i32; N], chunk_c_2: [i32; N]) -> (r: TileQueryIter<'_, T, N>)
        requires
            self.wf(),
            chunk_origin_fits(coord_ints(chunk_c_1), self.size()),
            chunk_origin_fits(coord_ints(chunk_c_2), self.size()),
        ensures
            r.wf(),
            r.map() == *self,
            r.lo() == min_corner(chunk_low(coord_ints(chunk_c_1), self.size()), chunk_high(coord_ints(chunk_c_2), self.size())),
            r.hi() == max_corner(chunk_low(coord_ints(chunk_c_1), self.size()), chunk_high(coord_ints(chunk_c_2), self.size())),
            r.pos() == 0,
    {
        let (corner_1, corner_2) = self.chunk_corners(chunk_c_1, chunk_c_2);
        self.iter_in(corner_1, corner_2)
    }

    /// Iterate, for writing, over all the tiles of the chunk at `chunk_c`.
    pub fn iter_in_chunk_mut(&self, chunk_c: [i32; N]) -> (r: TileQueryIterMut<N>)
        requires
            self.wf(),
            chunk_origin_fits(coord_ints(chunk_c), self.size()),
        ensures
            r.wf(),
            r.lo() == chunk_low(coord_ints(chunk_c), self.size()),
            r.hi() == chunk_high(coord_ints(chunk_c), self.size()),
            r.pos() == 0,
    {
        let (corner_1, corner_2) = self.chunk_corners(chunk_c, chunk_c);
        proof {
            self.lemma_wf_chunk_size();
            assert(min_corner(coord_ints(corner_1), coord_ints(corner_2)) =~= coord_ints(corner_1));
            assert(max_corner(coord_ints(corner_1), coord_ints(corner_2)) =~= coord_ints(corner_2));
        }
        self.iter_in_mut(corner_1, corner_2)
    }

    /// Iterate, for writing, over all the tiles of the chunks in the box of
    /// chunk coordinates from `chunk_c_1` to `chunk_c_2`.
    pub fn iter_in_chunks_mut(&self, chunk_c_1: [i32; N], chunk_c_2: [i32; N]) -> (r: TileQueryIterMut<N>)
        requires
            self.wf(),
            chunk_origin_fits(coord_ints(chunk_c_1), self.size()),
            chunk_origin_fits(coord_ints(chunk_c_2), self.size()),
        ensures
            r.wf(),
            r.lo() == min_corner(chunk_low(coord_ints(chunk_c_1), self.size()), chunk_high(coord_ints(chunk_c_2), self.size())),
            r.hi() == max_corner(chunk_low(coord_ints(chunk_c_1), self.size()), chunk_high(coord_ints(chunk_c_2), self.size())),
            r.pos() == 0,
    {
        let (corner_1, corner_2) = self.chunk_corners(chunk_c_1, chunk_c_2);
        self.iter_in_mut(corner_1, corner_2)
    }

    /// Iterate, for writing, over all the tiles in a given space, starting at
    /// `corner_1` inclusive over `corner_2`.
    pub fn iter_in_mut(&self, corner_1: [i32; N], corner_2: [i32; N]) -> (r: TileQueryIterMut<N>)
        ensures
            r.wf(),
            r.lo() == min_corner(coord_ints(corner_1), coord_ints(corner_2)),
            r.hi() == max_corner(coord_ints(corner_1), coord_ints(corner_2)),
            r.pos() == 0,
    {
        TileQueryIterMut { coord_iter: CoordIterator::new(corner_1, corner_2) }
    }
}

/// Iterates over the occupied tiles of a box, in the order axis 0 fastest.
pub struct TileQueryIter<'a, T, const N: usize> {
    coord_iter: CoordIterator<N>,
    map: &'a TileMap<T, N>,
}

impl<'a, T, const N: usize> TileQueryIter<'a, T, N> {
    pub closed spec fn lo(&self) -> Seq<int> {
        self.coord_iter.lo()
    }

    pub closed spec fn hi(&self) -> Seq<int> {
        self.coord_iter.hi()
    }

    /// How many points of the box have been visited.
    pub closed spec fn pos(&self) -> int {
        self.coord_iter.pos()
    }

    pub closed spec fn map(&self) -> TileMap<T, N> {
        *self.map
    }

    pub closed spec fn wf(&self) -> bool {
        self.coord_iter.wf() && self.map.wf()
    }

    /// The tile at the next occupied point of the box; `None` when no point
    /// that is left holds a tile.
    pub fn next(&mut self) -> (r: Option<&'a T>)
        requires
            old(self).wf(),
        ensures
            final(self).wf(),
            final(self).map() == old(self).map(),
            final(self).lo() == old(self).lo(),
            final(self).hi() == old(self).hi(),
            ({
                let m = old(self).map().tiles();
                let q = next_occupied(m, old(self).lo(), old(self).hi(), old(self).pos());
                &&& q < box_count(old(self).lo(), old(self).hi()) ==> {
                    &&& r is Some
                    &&& *r->0 == m[box_point(old(self).lo(), old(self).hi(), q)]
                    &&& final(self).pos() == q + 1
                }
                &&& q == box_count(old(self).lo(), old(self).hi()) ==> {
                    &&& r is None
                    &&& final(self).pos() == q
                }
            }),
    {
        let ghost m = self.map.tiles();
        let ghost lo = self.lo();
        let ghost hi = self.hi();
        let ghost q = next_occupied(m, lo, hi, self.pos());
        loop
            invariant
                self.wf(),
                self.map() == old(self).map(),
                m == self.map.tiles(),
                lo == self.lo() && hi == self.hi(),
                lo == old(self).lo() && hi == old(self).hi(),
                old(self).pos() <= self.pos(),
                next_occupied(m, lo, hi, self.pos()) == q,
                q == next_occupied(m, lo, hi, old(self).pos()),
            decreases box_count(lo, hi) - self.pos(),
        {
            let ghost p = self.pos();
            match self.coord_iter.next() {
                None => {
                    return None;
                },
                Some(c) => {
                    let t = self.map.get_at(c);
                    if t.is_some() {
                        return t;
                    }
                },
            }
        }
    }
}

/// Visits the occupied tiles of a box for writing, in the order axis 0
/// fastest. It holds no borrow of the map: each step borrows the map for the
/// one tile it hands out, so no two handed-out tiles are ever borrowed at once.
pub struct TileQueryIterMut<const N: usize> {
    coord_iter: CoordIterator<N>,
}

impl<const N: usize> TileQueryIterMut<N> {
    pub closed spec fn lo(&self) -> Seq<int> {
        self.coord_iter.lo()
    }

    pub closed spec fn hi(&self) -> Seq<int> {
        self.coord_iter.hi()
    }

    /// How many points of the box have been visited.
    pub closed spec fn pos(&self) -> int {
        self.coord_iter.pos()
    }

    pub closed spec fn wf(&self) -> bool {
        self.coord_iter.wf()
    }

    /// The tile at the next occupied point of the box, for writing; `None`
    /// when no point that is left holds a tile.
    pub fn next<'a, T>(&mut self, map: &'a mut TileMap<T, N>) -> (r: Option<&'a mut T>)
        requires
            old(self).wf(),
            old(map).wf(),
        ensures
            final(self).wf(),
            final(self).lo() == old(self).lo(),
            final(self).hi() == old(self).hi(),
            final(map).wf(),
            final(map).settings() == old(map).settings(),
            ({
                let m = old(map).tiles();
                let q = next_occupied(m, old(self).lo(), old(self).hi(), old(self).pos());
                let c = box_point(old(self).lo(), old(self).hi(), q);
                &&& q < box_count(old(self).lo(), old(self).hi()) ==> {
                    &&& r is Some
                    &&& *r->0 == m[c]
                    &&& final(map).tiles() == m.insert(c, *final(r->0))
                    &&& final(self).pos() == q + 1
                }
                &&& q == box_count(old(self).lo(), old(self).hi()) ==> {
                    &&& r is None
                    &&& final(map).tiles() == m
                    &&& final(self).pos() == q
                }
            }),
    {
        let ghost m = map.tiles();
        let ghost lo = self.lo();
        let ghost hi = self.hi();
        let ghost q = next_occupied(m, lo, hi, self.pos());
        loop
            invariant
                self.wf(),
                map.wf(),
                m == map.tiles(),
                map.settings() == old(map).settings(),
                m == old(map).tiles(),
                lo == self.lo() && hi == self.hi(),
                lo == old(self).lo() && hi == old(self).hi(),
                old(self).pos() <= self.pos(),
                next_occupied(m, lo, hi, self.pos()) == q,
                q == next_occupied(m, lo, hi, old(self).pos()),
            decreases box_count(lo, hi) - self.pos(),
        {
            match self.coord_iter.next() {
                None => {
                    return None;
                },
                Some(c) => {
                    if map.get_at(c).is_some() {
                        return map.get_at_mut(c);
                    }
                },
            }
        }
    }
}

} // verus!
