//! The registry of a grid: which chunk lives at which chunk coordinate, and the
//! grid's chunk size.
use crate::chunks::{occupied, ChunkCoord, ChunkData};
use crate::coords::{
    calculate_chunk_coordinate, calculate_tile_index, chunk_of, coord_ints, lemma_index_round_trip,
    lemma_round_trip, lemma_tile_identity, tile_coord_of, tile_index_of, valid_chunk_size,
};
use crate::chunks::lemma_occupied_zero;
use vstd::arithmetic::power::pow;
use vstd::prelude::*;

verus! {

/// The map that a sequence of distinct keys and a sequence of values describe.
pub open spec fn seq_map<V>(keys: Seq<Seq<int>>, vals: Seq<V>) -> Map<Seq<int>, V> {
    Map::new(
        |k: Seq<int>| exists|i: int| 0 <= i < keys.len() && keys[i] == k,
        |k: Seq<int>| vals[choose|i: int| 0 <= i < keys.len() && keys[i] == k],
    )
}

pub open spec fn distinct_keys(keys: Seq<Seq<int>>) -> bool {
    forall|i: int, j: int| 0 <= i < keys.len() && 0 <= j < keys.len() && i != j ==> #[trigger] keys[i] != #[trigger] keys[j]
}

pub proof fn lemma_seq_map_at<V>(keys: Seq<Seq<int>>, vals: Seq<V>, i: int)
    requires
        distinct_keys(keys),
        0 <= i < keys.len(),
    ensures
        seq_map(keys, vals).contains_key(keys[i]),
        seq_map(keys, vals)[keys[i]] == vals[i],
{
    let k = keys[i];
    assert(exists|j: int| 0 <= j < keys.len() && keys[j] == k);
    let j = choose|j: int| 0 <= j < keys.len() && keys[j] == k;
    assert(j == i);
}

/// Replacing the value at position `i` replaces the value at its key.
pub proof fn lemma_seq_map_update<V>(keys: Seq<Seq<int>>, vals: Seq<V>, i: int, v: V)
    requires
        distinct_keys(keys),
        keys.len() == vals.len(),
        0 <= i < keys.len(),
    ensures
        seq_map(keys, vals.update(i, v)) == seq_map(keys, vals).insert(keys[i], v),
{
    let a = seq_map(keys, vals.update(i, v));
    let b = seq_map(keys, vals).insert(keys[i], v);
    assert forall|k: Seq<int>| #[trigger] a.contains_key(k) implies a[k] == b[k] by {
        let j = choose|j: int| 0 <= j < keys.len() && keys[j] == k;
        lemma_seq_map_at(keys, vals.update(i, v), j);
        lemma_seq_map_at(keys, vals, j);
    }
    assert(a =~= b);
}

/// Appending a fresh key adds it to the map.
pub proof fn lemma_seq_map_push<V>(keys: Seq<Seq<int>>, vals: Seq<V>, k: Seq<int>, v: V)
    requires
        distinct_keys(keys),
        keys.len() == vals.len(),
        !seq_map(keys, vals).contains_key(k),
    ensures
        distinct_keys(keys.push(k)),
        seq_map(keys.push(k), vals.push(v)) == seq_map(keys, vals).insert(k, v),
{
    let ks = keys.push(k);
    let vs = vals.push(v);
    assert forall|i: int, j: int| 0 <= i < ks.len() && 0 <= j < ks.len() && i != j implies #[trigger] ks[i] != #[trigger] ks[j] by {
        if i < keys.len() && j < keys.len() {
        } else if i < keys.len() {
            assert(keys[i] == ks[i]);
        } else {
            assert(keys[j] == ks[j]);
        }
    }
    let a = seq_map(ks, vs);
    let b = seq_map(keys, vals).insert(k, v);
    assert forall|key: Seq<int>| #[trigger] a.contains_key(key) implies b.contains_key(key) && a[key] == b[key] by {
        let j = choose|j: int| 0 <= j < ks.len() && ks[j] == key;
        lemma_seq_map_at(ks, vs, j);
        if j < keys.len() {
            lemma_seq_map_at(keys, vals, j);
        }
    }
    assert forall|key: Seq<int>| #[trigger] b.contains_key(key) implies a.contains_key(key) by {
        if key == k {
            lemma_seq_map_at(ks, vs, keys.len() as int);
        } else {
            let j = choose|j: int| 0 <= j < keys.len() && keys[j] == key;
            assert(ks[j] == key);
        }
    }
    assert(a =~= b);
}

/// Removing position `i` by moving the last entry into it removes its key.
pub proof fn lemma_seq_map_swap_remove<V>(keys: Seq<Seq<int>>, vals: Seq<V>, i: int)
    requires
        distinct_keys(keys),
        keys.len() == vals.len(),
        0 <= i < keys.len(),
    ensures
        distinct_keys(keys.update(i, keys.last()).drop_last()),
        seq_map(keys.update(i, keys.last()).drop_last(), vals.update(i, vals.last()).drop_last())
            == seq_map(keys, vals).remove(keys[i]),
{
    let n = keys.len() - 1;
    let ks = keys.update(i, keys.last()).drop_last();
    let vs = vals.update(i, vals.last()).drop_last();
    assert forall|a: int, b: int| 0 <= a < ks.len() && 0 <= b < ks.len() && a != b implies #[trigger] ks[a] != #[trigger] ks[b] by {
        let ia = if a == i { n } else { a };
        let ib = if b == i { n } else { b };
        assert(ks[a] == keys[ia]);
        assert(ks[b] == keys[ib]);
    }
    let m1 = seq_map(ks, vs);
    let m2 = seq_map(keys, vals).remove(keys[i]);
    assert forall|key: Seq<int>| #[trigger] m1.contains_key(key) implies m2.contains_key(key) && m1[key] == m2[key] by {
        let j = choose|j: int| 0 <= j < ks.len() && ks[j] == key;
        lemma_seq_map_at(ks, vs, j);
        let oj = if j == i { n } else { j };
        assert(keys[oj] == key);
        lemma_seq_map_at(keys, vals, oj);
    }
    assert forall|key: Seq<int>| #[trigger] m2.contains_key(key) implies m1.contains_key(key) by {
        let j = choose|j: int| 0 <= j < keys.len() && keys[j] == key;
        let nj = if j == n { i } else { j };
        assert(ks[nj] == key);
    }
    assert(m1 =~= m2);
}

/// Slot `j` of the chunk at `cc`; an absent chunk reads as empty slots.
pub open spec fn slot_of<T>(m: Map<Seq<int>, Seq<Option<T>>>, cc: Seq<int>, j: int) -> Option<T> {
    if m.contains_key(cc) && 0 <= j < m[cc].len() {
        m[cc][j]
    } else {
        None
    }
}

/// When only the slot of `c` changes between two registries, only the tile at
/// `c` changes.
pub proof fn lemma_lookup_change<T>(
    m1: Map<Seq<int>, Seq<Option<T>>>,
    m2: Map<Seq<int>, Seq<Option<T>>>,
    s: int,
    n: nat,
    c: Seq<int>,
    x: Option<T>,
)
    requires
        s > 0,
        c.len() == n,
        forall|cc: Seq<int>, j: int| cc != chunk_of(c, s) ==> #[trigger] slot_of(m2, cc, j) == slot_of(m1, cc, j),
        forall|j: int| j != tile_index_of(c, s) ==> #[trigger] slot_of(m2, chunk_of(c, s), j) == slot_of(m1, chunk_of(c, s), j),
        slot_of(m2, chunk_of(c, s), tile_index_of(c, s)) == x,
    ensures
        forall|c2: Seq<int>| c2.len() == n ==> #[trigger] slot_of(m2, chunk_of(c2, s), tile_index_of(c2, s)) == if c2 == c {
            x
        } else {
            slot_of(m1, chunk_of(c2, s), tile_index_of(c2, s))
        },
{
    assert forall|c2: Seq<int>| c2.len() == n implies #[trigger] slot_of(m2, chunk_of(c2, s), tile_index_of(c2, s)) == if c2 == c {
        x
    } else {
        slot_of(m1, chunk_of(c2, s), tile_index_of(c2, s))
    } by {
        if c2 != c && chunk_of(c2, s) == chunk_of(c, s) && tile_index_of(c2, s) == tile_index_of(c, s) {
            lemma_tile_identity(c2, c, s);
        }
    }
}

/// `m` after moving the entry at `a` to `b`, over whatever `b` held; `m`
/// itself when `a` is empty or equal to `b`.
pub open spec fn moved<T>(m: Map<Seq<int>, T>, a: Seq<int>, b: Seq<int>) -> Map<Seq<int>, T> {
    if a != b && m.contains_key(a) {
        m.remove(a).insert(b, m[a])
    } else {
        m
    }
}

/// `m` with the entries at `a` and `b` exchanged; an absent entry is
/// exchanged as absence.
pub open spec fn swapped<T>(m: Map<Seq<int>, T>, a: Seq<int>, b: Seq<int>) -> Map<Seq<int>, T> {
    let m0 = m.remove(a).remove(b);
    let m1 = if m.contains_key(a) {
        m0.insert(b, m[a])
    } else {
        m0
    };
    if m.contains_key(b) {
        m1.insert(a, m[b])
    } else {
        m1
    }
}

/// Inserting at an empty coordinate and then removing there gives back the
/// tiles as they were.
pub proof fn lemma_insert_then_remove<T>(m: Map<Seq<int>, T>, c: Seq<int>, v: T)
    requires
        !m.contains_key(c),
    ensures
        m.insert(c, v).remove(c) == m,
{
    assert(m.insert(c, v).remove(c) =~= m);
}

/// Inserting twice at one coordinate leaves only the second tile there, and
/// the first is what the second insertion replaces.
pub proof fn lemma_insert_twice<T>(m: Map<Seq<int>, T>, c: Seq<int>, v1: T, v2: T)
    ensures
        m.insert(c, v1).insert(c, v2) == m.insert(c, v2),
        m.insert(c, v1).contains_key(c) && m.insert(c, v1)[c] == v1,
{
    assert(m.insert(c, v1).insert(c, v2) =~= m.insert(c, v2));
}

/// Moving an occupied coordinate `a` to a different `b` empties `a`, puts the
/// tile of `a` at `b`, and leaves every other coordinate alone; what `b` held
/// before is no longer stored.
pub proof fn lemma_move_semantics<T>(m: Map<Seq<int>, T>, a: Seq<int>, b: Seq<int>)
    requires
        m.contains_key(a),
        a != b,
    ensures
        !moved(m, a, b).contains_key(a),
        moved(m, a, b).contains_key(b) && moved(m, a, b)[b] == m[a],
        forall|k: Seq<int>| k != a && k != b ==> (#[trigger] moved(m, a, b).contains_key(k) == m.contains_key(k))
            && (m.contains_key(k) ==> moved(m, a, b)[k] == m[k]),
{
}

/// Swapping two different occupied coordinates exchanges their tiles and keeps
/// every tile; swapping an occupied coordinate with an empty one is a move.
pub proof fn lemma_swap_semantics<T>(m: Map<Seq<int>, T>, a: Seq<int>, b: Seq<int>)
    requires
        a != b,
    ensures
        m.contains_key(a) && m.contains_key(b) ==> {
            &&& swapped(m, a, b)[a] == m[b]
            &&& swapped(m, a, b)[b] == m[a]
            &&& swapped(m, a, b).dom() == m.dom()
            &&& forall|k: Seq<int>| k != a && k != b && #[trigger] m.contains_key(k) ==> swapped(m, a, b)[k] == m[k]
        },
        m.contains_key(a) && !m.contains_key(b) ==> swapped(m, a, b) == moved(m, a, b),
{
    if m.contains_key(a) && m.contains_key(b) {
        assert(swapped(m, a, b).dom() =~= m.dom());
    }
    if m.contains_key(a) && !m.contains_key(b) {
        assert(swapped(m, a, b) =~= moved(m, a, b));
    }
}

/// The entries of `m` whose coordinates lie outside the chunk at `cc`.
pub open spec fn outside_chunk<T>(m: Map<Seq<int>, T>, cc: Seq<int>, s: int) -> Map<Seq<int>, T> {
    Map::new(|c: Seq<int>| m.contains_key(c) && chunk_of(c, s) != cc, |c: Seq<int>| m[c])
}

/// Holds all the chunks of a grid, keyed by chunk coordinate, and the grid's
/// chunk size.
pub struct TileMap<T, const N: usize> {
    chunk_size: usize,
    keep_empty_chunks: bool,
    coords: Vec<[i32; N]>,
    chunks: Vec<ChunkData<T>>,
}

impl<T, const N: usize> TileMap<T, N> {
    /// The size of a chunk along each axis.
    pub closed spec fn size(&self) -> int {
        self.chunk_size as int
    }

    /// Whether chunks stay registered after their last tile is removed.
    pub closed spec fn keeps_empty_chunks(&self) -> bool {
        self.keep_empty_chunks
    }

    /// The settings fixed at construction: chunk size and empty-chunk policy.
    pub open spec fn settings(&self) -> (int, bool) {
        (self.size(), self.keeps_empty_chunks())
    }

    pub closed spec fn keys(&self) -> Seq<Seq<int>> {
        Seq::new(self.coords@.len(), |i: int| coord_ints(self.coords@[i]))
    }

    pub closed spec fn slots(&self) -> Seq<Seq<Option<T>>> {
        Seq::new(self.chunks@.len(), |i: int| self.chunks@[i]@)
    }

    /// The registered chunks: chunk coordinate to slots.
    pub closed spec fn chunk_map(&self) -> Map<Seq<int>, Seq<Option<T>>> {
        seq_map(self.keys(), self.slots())
    }

    /// The chunks are well formed, but some may be empty.
    pub closed spec fn wf_store(&self) -> bool {
        &&& valid_chunk_size(self.chunk_size as int, N as nat)
        &&& self.coords@.len() == self.chunks@.len()
        &&& distinct_keys(self.keys())
        &&& forall|i: int| 0 <= i < self.chunks@.len() ==> (#[trigger] self.chunks@[i]).wf()
        &&& forall|i: int| 0 <= i < self.chunks@.len() ==> (#[trigger] self.chunks@[i])@.len() == pow(self.chunk_size as int, N as nat)
    }

    /// The well-formed state between operations: unless empty chunks are
    /// kept, every registered chunk holds at least one tile.
    pub closed spec fn wf(&self) -> bool {
        &&& self.wf_store()
        &&& !self.keep_empty_chunks ==> forall|i: int|
            0 <= i < self.chunks@.len() ==> occupied((#[trigger] self.chunks@[i])@) > 0
    }

    /// The tile stored at coordinate `c`, if any.
    pub open spec fn tile_at(&self, c: Seq<int>) -> Option<T> {
        if c.len() == N {
            slot_of(self.chunk_map(), chunk_of(c, self.size()), tile_index_of(c, self.size()))
        } else {
            None
        }
    }

    /// The stored tiles: tile coordinate to tile.
    pub open spec fn tiles(&self) -> Map<Seq<int>, T> {
        Map::new(|c: Seq<int>| self.tile_at(c) is Some, |c: Seq<int>| self.tile_at(c)->0)
    }

    /// A well-formed map has a usable chunk size.
    pub proof fn lemma_wf_chunk_size(&self)
        requires
            self.wf(),
        ensures
            valid_chunk_size(self.size(), N as nat),
    {
    }

    /// `tile_at` reads the `tiles` map.
    pub proof fn lemma_tile_at_tiles(&self, c: Seq<int>)
        ensures
            self.tile_at(c) == if self.tiles().contains_key(c) {
                Some(self.tiles()[c])
            } else {
                None
            },
    {
    }

    /// Whether a chunk is registered at chunk coordinate `cc`.
    pub open spec fn has_chunk(&self, cc: Seq<int>) -> bool {
        self.chunk_map().contains_key(cc)
    }

    proof fn lemma_chunk_at(&self, i: int)
        requires
            self.wf_store(),
            0 <= i < self.chunks@.len(),
        ensures
            self.chunk_map().contains_key(self.keys()[i]),
            self.chunk_map()[self.keys()[i]] == self.chunks@[i]@,
    {
        lemma_seq_map_at(self.keys(), self.slots(), i);
    }

    /// Create an empty map with the given chunk size. A chunk is removed as
    /// soon as its last tile is removed.
    pub fn new(chunk_size: usize) -> (r: Self)
        requires
            valid_chunk_size(chunk_size as int, N as nat),
        ensures
            r.wf(),
            r.settings() == (chunk_size as int, false),
            r.chunk_map() == Map::<Seq<int>, Seq<Option<T>>>::empty(),
            r.tiles() == Map::<Seq<int>, T>::empty(),
    {
        Self::with_policy(chunk_size, false)
    }

    /// Create an empty map with the given chunk size and empty-chunk policy:
    /// with `keep_empty_chunks`, a chunk stays registered when its last tile
    /// is removed, until it is despawned.
    pub fn with_policy(chunk_size: usize, keep_empty_chunks: bool) -> (r: Self)
        requires
            valid_chunk_size(chunk_size as int, N as nat),
        ensures
            r.wf(),
            r.settings() == (chunk_size as int, keep_empty_chunks),
            r.chunk_map() == Map::<Seq<int>, Seq<Option<T>>>::empty(),
            r.tiles() == Map::<Seq<int>, T>::empty(),
    {
        let r = TileMap { chunk_size, keep_empty_chunks, coords: Vec::new(), chunks: Vec::new() };
        assert(r.chunk_map() =~= Map::<Seq<int>, Seq<Option<T>>>::empty());
        assert(r.tiles() =~= Map::<Seq<int>, T>::empty());
        r
    }

    /// Whether chunks stay registered after their last tile is removed.
    pub fn keeps_empty(&self) -> (r: bool)
        ensures
            r == self.keeps_empty_chunks(),
    {
        self.keep_empty_chunks
    }

    /// Get the size of chunks in this tilemap.
    pub fn get_chunk_size(&self) -> (r: usize)
        ensures
            r == self.size(),
    {
        self.chunk_size
    }

    /// The position of the chunk at `chunk_c` in the store, if registered.
    fn find_chunk(&self, chunk_c: &[i32; N]) -> (r: Option<usize>)
        requires
            self.wf_store(),
        ensures
            r is Some <==> self.has_chunk(coord_ints(*chunk_c)),
            r is Some ==> r->0 < self.chunks@.len() && self.keys()[r->0 as int] == coord_ints(*chunk_c),
    {
        let mut i: usize = 0;
        while i < self.coords.len()
            invariant
                self.wf_store(),
                0 <= i <= self.coords@.len(),
                forall|j: int| 0 <= j < i ==> self.keys()[j] != coord_ints(*chunk_c),
            decreases self.coords@.len() - i,
        {
            if coords_equal(&self.coords[i], chunk_c) {
                proof {
                    self.lemma_chunk_at(i as int);
                }
                return Some(i);
            }
            i = i + 1;
        }
        None
    }

    /// Gets the chunk from a chunk coordinate.
    pub fn get_from_chunk(&self, chunk_c: ChunkCoord<N>) -> (r: Option<&ChunkData<T>>)
        requires
            self.wf(),
        ensures
            r is Some <==> self.has_chunk(coord_ints(chunk_c.0)),
            r is Some ==> r->0@ == self.chunk_map()[coord_ints(chunk_c.0)] && r->0.wf(),
    {
        match self.find_chunk(&chunk_c.0) {
            Some(i) => {
                proof {
                    self.lemma_chunk_at(i as int);
                }
                Some(&self.chunks[i])
            },
            None => None,
        }
    }

    /// A change confined to the slot of `c` shows in `tiles` as a change at `c`.
    proof fn lemma_tiles_change(a: &Self, b: &Self, c: Seq<int>, x: Option<T>)
        requires
            a.size() == b.size(),
            a.size() > 0,
            c.len() == N,
            forall|cc: Seq<int>, j: int| cc != chunk_of(c, a.size()) ==> #[trigger] slot_of(b.chunk_map(), cc, j) == slot_of(a.chunk_map(), cc, j),
            forall|j: int| j != tile_index_of(c, a.size()) ==> #[trigger] slot_of(b.chunk_map(), chunk_of(c, a.size()), j) == slot_of(a.chunk_map(), chunk_of(c, a.size()), j),
            slot_of(b.chunk_map(), chunk_of(c, a.size()), tile_index_of(c, a.size())) == x,
        ensures
            x is Some ==> b.tiles() == a.tiles().insert(c, x->0),
            x is None ==> b.tiles() == a.tiles().remove(c),
    {
        lemma_lookup_change(a.chunk_map(), b.chunk_map(), a.size(), N as nat, c, x);
        assert forall|c2: Seq<int>| #[trigger] b.tile_at(c2) == if c2 == c { x } else { a.tile_at(c2) } by {
            if c2.len() == N {
                assert(slot_of(b.chunk_map(), chunk_of(c2, a.size()), tile_index_of(c2, a.size())) == if c2 == c {
                    x
                } else {
                    slot_of(a.chunk_map(), chunk_of(c2, a.size()), tile_index_of(c2, a.size()))
                });
            }
        }
        if x is Some {
            assert(b.tiles() =~= a.tiles().insert(c, x->0));
        } else {
            assert(b.tiles() =~= a.tiles().remove(c));
        }
    }

    /// Inserts a tile, returning the tile it replaced. A chunk is created
    /// when the tile's chunk has none yet.
    pub fn insert_tile(&mut self, tile_c: [i32; N], value: T) -> (r: Option<T>)
        requires
            old(self).wf(),
        ensures
            final(self).wf(),
            final(self).settings() == old(self).settings(),
            r == old(self).tile_at(coord_ints(tile_c)),
            final(self).tiles() == old(self).tiles().insert(coord_ints(tile_c), value),
            final(self).chunk_map().dom() == old(self).chunk_map().dom().insert(
                chunk_of(coord_ints(tile_c), old(self).size()),
            ),
    {
        self.insert_tile_hinted(tile_c, value, None).0
    }

    /// `insert_tile`, where `hint` may give the store position of the tile's
    /// chunk, which spares the search when it is right. Also returns the
    /// position of the tile's chunk, as a hint for the next insertion.
    pub(crate) fn insert_tile_hinted(&mut self, tile_c: [i32; N], value: T, hint: Option<usize>) -> (r: (
        Option<T>,
        usize,
    ))
        requires
            old(self).wf(),
        ensures
            final(self).wf(),
            final(self).settings() == old(self).settings(),
            r.0 == old(self).tile_at(coord_ints(tile_c)),
            final(self).tiles() == old(self).tiles().insert(coord_ints(tile_c), value),
            final(self).chunk_map().dom() == old(self).chunk_map().dom().insert(
                chunk_of(coord_ints(tile_c), old(self).size()),
            ),
    {
        let ghost c = coord_ints(tile_c);
        let ghost s = self.size();
        let ghost cc = chunk_of(c, s);
        let chunk_c = calculate_chunk_coordinate(tile_c, self.chunk_size);
        let tile_i = calculate_tile_index(tile_c, self.chunk_size);
        let ghost old_map = *self;
        proof {
            lemma_round_trip(c, s);
        }
        let found = match hint {
            Some(h) if h < self.coords.len() && coords_equal(&self.coords[h], &chunk_c) => Some(h),
            _ => self.find_chunk(&chunk_c),
        };
        match found {
            Some(i) => {
                proof {
                    self.lemma_chunk_at(i as int);
                }
                let ghost before = self.chunks@[i as int]@;
                let replaced = self.chunks[i].insert(tile_i, value);
                proof {
                    let after = self.chunks@[i as int]@;
                    assert(self.slots() =~= old_map.slots().update(i as int, after));
                    assert(self.keys() =~= old_map.keys());
                    lemma_seq_map_update(old_map.keys(), old_map.slots(), i as int, after);
                    lemma_occupied_zero(after);
                    assert(after[tile_i as int] is Some);
                    Self::lemma_tiles_change(&old_map, self, c, Some(value));
                    assert(self.chunk_map().dom() =~= old_map.chunk_map().dom().insert(cc));
                }
                (replaced, i)
            },
            None => {
                let mut chunk = ChunkData::new(max_slots::<N>(self.chunk_size));
                let ghost empty = chunk@;
                chunk.insert(tile_i, value);
                proof {
                    let after = chunk@;
                    lemma_occupied_zero(after);
                    assert(after[tile_i as int] is Some);
                    lemma_seq_map_push(old_map.keys(), old_map.slots(), cc, after);
                }
                self.coords.push(chunk_c);
                self.chunks.push(chunk);
                proof {
                    assert(self.slots() =~= old_map.slots().push(chunk@));
                    assert(self.keys() =~= old_map.keys().push(cc));
                    Self::lemma_tiles_change(&old_map, self, c, Some(value));
                    assert(self.chunk_map().dom() =~= old_map.chunk_map().dom().insert(cc));
                }
                (None, self.coords.len() - 1)
            },
        }
    }

    /// Removes the tile at a coordinate if there is one, and returns it. A
    /// chunk left without tiles is removed from the map.
    pub fn take_tile(&mut self, tile_c: [i32; N]) -> (r: Option<T>)
        requires
            old(self).wf(),
        ensures
            final(self).wf(),
            final(self).settings() == old(self).settings(),
            r == old(self).tile_at(coord_ints(tile_c)),
            final(self).tiles() == old(self).tiles().remove(coord_ints(tile_c)),
            old(self).keeps_empty_chunks() ==> final(self).chunk_map().dom() == old(self).chunk_map().dom(),
    {
        self.take_tile_hinted(tile_c, None).0
    }

    /// `take_tile`, where `hint` may give the store position of the tile's
    /// chunk, which spares the search when it is right. Also returns the
    /// position of the tile's chunk if it is still registered, as a hint for
    /// the next removal.
    pub(crate) fn take_tile_hinted(&mut self, tile_c: [i32; N], hint: Option<usize>) -> (r: (Option<T>, Option<usize>))
        requires
            old(self).wf(),
        ensures
            final(self).wf(),
            final(self).settings() == old(self).settings(),
            r.0 == old(self).tile_at(coord_ints(tile_c)),
            final(self).tiles() == old(self).tiles().remove(coord_ints(tile_c)),
            old(self).keeps_empty_chunks() ==> final(self).chunk_map().dom() == old(self).chunk_map().dom(),
    {
        let ghost c = coord_ints(tile_c);
        let ghost s = self.size();
        let ghost cc = chunk_of(c, s);
        let chunk_c = calculate_chunk_coordinate(tile_c, self.chunk_size);
        let tile_i = calculate_tile_index(tile_c, self.chunk_size);
        let ghost old_map = *self;
        proof {
            lemma_round_trip(c, s);
        }
        let found = match hint {
            Some(h) if h < self.coords.len() && coords_equal(&self.coords[h], &chunk_c) => Some(h),
            _ => self.find_chunk(&chunk_c),
        };
        match found {
            Some(i) => {
                proof {
                    self.lemma_chunk_at(i as int);
                }
                let removed = self.chunks[i].take(tile_i);
                let ghost after = self.chunks@[i as int]@;
                let ghost mid = *self;
                proof {
                    assert(self.slots() =~= old_map.slots().update(i as int, after));
                    assert(self.keys() =~= old_map.keys());
                    lemma_seq_map_update(old_map.keys(), old_map.slots(), i as int, after);
                }
                let mut kept = Some(i);
                if !self.keep_empty_chunks && self.chunks[i].get_count() == 0 {
                    kept = None;
                    self.coords.swap_remove(i);
                    self.chunks.swap_remove(i);
                    proof {
                        lemma_occupied_zero(after);
                        assert(self.slots() =~= mid.slots().update(i as int, mid.slots().last()).drop_last());
                        assert(self.keys() =~= mid.keys().update(i as int, mid.keys().last()).drop_last());
                        lemma_seq_map_swap_remove(mid.keys(), mid.slots(), i as int);
                        assert forall|j: int| j != tile_i as int implies #[trigger] slot_of(self.chunk_map(), cc, j) == slot_of(old_map.chunk_map(), cc, j) by {
                            if 0 <= j < after.len() {
                                assert(after[j] is None);
                                assert(after[j] == old_map.chunk_map()[cc][j]);
                            }
                        }
                        assert forall|j: int| 0 <= j < self.chunks@.len() implies occupied((#[trigger] self.chunks@[j])@) > 0 by {
                            let oj = if j == i as int { mid.chunks@.len() - 1 } else { j };
                            assert(self.chunks@[j] == mid.chunks@[oj]);
                        }
                    }
                } else {
                    proof {
                        lemma_occupied_zero(after);
                        assert(self.chunk_map().dom() =~= old_map.chunk_map().dom());
                    }
                }
                proof {
                    Self::lemma_tiles_change(&old_map, self, c, None);
                }
                (removed, kept)
            },
            None => {
                proof {
                    assert(self.tiles() =~= old_map.tiles().remove(c));
                }
                (None, None)
            },
        }
    }

    /// Moves the tile at `old_c` to `new_c`, returning the tile that was at
    /// `new_c` for the caller to dispose of. Nothing happens when the two are
    /// equal or `old_c` is empty.
    pub fn move_tile(&mut self, old_c: [i32; N], new_c: [i32; N]) -> (r: Option<T>)
        requires
            old(self).wf(),
        ensures
            final(self).wf(),
            final(self).settings() == old(self).settings(),
            final(self).tiles() == moved(old(self).tiles(), coord_ints(old_c), coord_ints(new_c)),
            r == if coord_ints(old_c) != coord_ints(new_c) && old(self).tiles().contains_key(coord_ints(old_c)) {
                old(self).tile_at(coord_ints(new_c))
            } else {
                None
            },
    {
        if coords_equal(&old_c, &new_c) {
            proof {
                assert(self.tiles() =~= moved(self.tiles(), coord_ints(old_c), coord_ints(new_c)));
            }
            return None;
        }
        let ghost before = self.tiles();
        let ghost prior = self.tile_at(coord_ints(new_c));
        match self.take_tile(old_c) {
            Some(v) => {
                proof {
                    let n = coord_ints(new_c);
                    assert(self.tiles().contains_key(n) == before.contains_key(n));
                    assert(self.tile_at(n) is Some <==> self.tiles().contains_key(n));
                    assert(before.contains_key(n) ==> self.tiles()[n] == before[n]);
                    assert(self.tile_at(n) == prior);
                }
                let replaced = self.insert_tile(new_c, v);
                proof {
                    assert(self.tiles() =~= moved(before, coord_ints(old_c), coord_ints(new_c)));
                    assert(before.remove(coord_ints(old_c)).contains_key(coord_ints(new_c)) == before.contains_key(coord_ints(new_c)));
                }
                replaced
            },
            None => {
                proof {
                    assert(self.tiles() =~= moved(before, coord_ints(old_c), coord_ints(new_c)));
                }
                None
            },
        }
    }

    /// Swaps the tiles at two coordinates; when only one of them holds a
    /// tile, that tile moves to the other. No tile is dropped.
    pub fn swap_tiles(&mut self, tile_c_0: [i32; N], tile_c_1: [i32; N])
        requires
            old(self).wf(),
        ensures
            final(self).wf(),
            final(self).settings() == old(self).settings(),
            final(self).tiles() == swapped(old(self).tiles(), coord_ints(tile_c_0), coord_ints(tile_c_1)),
    {
        let ghost a = coord_ints(tile_c_0);
        let ghost b = coord_ints(tile_c_1);
        if coords_equal(&tile_c_0, &tile_c_1) {
            proof {
                assert(self.tiles() =~= swapped(self.tiles(), a, b));
            }
            return;
        }
        let ghost before = self.tiles();
        let t0 = self.take_tile(tile_c_0);
        let ghost s1 = *self;
        let t1 = self.take_tile(tile_c_1);
        proof {
            assert(s1.tile_at(b) is Some <==> s1.tiles().contains_key(b));
            assert(s1.tiles().contains_key(b) == before.contains_key(b));
            assert(s1.tiles().contains_key(b) ==> s1.tiles()[b] == before[b]);
            assert(self.tiles() == before.remove(a).remove(b));
        }
        let ghost m0 = before.remove(a).remove(b);
        proof {
            assert(t0 is Some <==> before.contains_key(a));
            assert(t0 is Some ==> t0->0 == before[a]);
            assert(t1 is Some <==> before.contains_key(b));
            assert(t1 is Some ==> t1->0 == before[b]);
        }
        let ghost m1 = if before.contains_key(a) {
            m0.insert(b, before[a])
        } else {
            m0
        };
        if let Some(v) = t0 {
            self.insert_tile(tile_c_1, v);
        }
        assert(self.tiles() == m1);
        if let Some(v) = t1 {
            self.insert_tile(tile_c_0, v);
        }
        proof {
            assert(self.tiles() == swapped(before, a, b));
        }
    }

    /// A registered chunk always holds a tile: a chunk coordinate is
    /// registered exactly when some tile within that chunk's bounds is
    /// occupied. So a chunk appears with the first tile inserted in its
    /// bounds and disappears with the last one removed.
    pub proof fn lemma_chunk_lifecycle(&self, cc: Seq<int>)
        requires
            self.wf(),
            !self.keeps_empty_chunks(),
            cc.len() == N,
        ensures
            self.has_chunk(cc) <==> exists|c: Seq<int>| #[trigger] self.tiles().contains_key(c) && chunk_of(c, self.size()) == cc,
    {
        let s = self.size();
        if self.has_chunk(cc) {
            let i = choose|i: int| 0 <= i < self.keys().len() && self.keys()[i] == cc;
            self.lemma_chunk_at(i);
            let slots = self.chunks@[i]@;
            lemma_occupied_zero(slots);
            let j = choose|j: int| 0 <= j < slots.len() && !(slots[j] is None);
            let c = tile_coord_of(cc, j, s);
            lemma_index_round_trip(cc, j, s);
            assert(self.tile_at(c) is Some);
            assert(self.tiles().contains_key(c));
        }
    }

    /// `b` is `a` with only the tile in slot `idx` of chunk `i` rewritten.
    spec fn rewrites_slot(a: Self, b: Self, i: int, idx: int) -> bool {
        &&& b.chunk_size == a.chunk_size
        &&& b.keep_empty_chunks == a.keep_empty_chunks
        &&& b.coords@ == a.coords@
        &&& b.chunks@.len() == a.chunks@.len()
        &&& forall|j: int| 0 <= j < a.chunks@.len() && j != i ==> b.chunks@[j] == a.chunks@[j]
        &&& b.chunks@[i].wf()
        &&& b.chunks@[i]@[idx] is Some
        &&& b.chunks@[i]@ == a.chunks@[i]@.update(idx, b.chunks@[i]@[idx])
    }

    /// Rewriting the tile in the slot of `c` stores the new tile at `c`.
    proof fn lemma_chunk_rewrite(a: Self, b: Self, i: int, c: Seq<int>)
        requires
            a.wf(),
            0 <= i < a.chunks@.len(),
            c.len() == N,
            a.keys()[i] == chunk_of(c, a.size()),
            0 <= tile_index_of(c, a.size()) < a.chunks@[i]@.len(),
            Self::rewrites_slot(a, b, i, tile_index_of(c, a.size())),
        ensures
            b.wf(),
            b.tiles() == a.tiles().insert(c, b.chunks@[i]@[tile_index_of(c, a.size())]->0),
    {
        let after = b.chunks@[i]@;
        a.lemma_chunk_at(i);
        assert(b.slots() =~= a.slots().update(i, after));
        assert(b.keys() =~= a.keys());
        lemma_seq_map_update(a.keys(), a.slots(), i, after);
        lemma_occupied_zero(after);
        Self::lemma_tiles_change(&a, &b, c, after[tile_index_of(c, a.size())]);
    }

    /// Gets the tile at a coordinate, for writing.
    pub fn get_at_mut(&mut self, tile_c: [i32; N]) -> (r: Option<&mut T>)
        requires
            old(self).wf(),
        ensures
            r is Some <==> old(self).tiles().contains_key(coord_ints(tile_c)),
            r is Some ==> {
                &&& *r->0 == old(self).tiles()[coord_ints(tile_c)]
                &&& final(self).wf()
                &&& final(self).settings() == old(self).settings()
                &&& final(self).tiles() == old(self).tiles().insert(coord_ints(tile_c), *final(r->0))
            },
            r is None ==> {
                &&& final(self).wf()
                &&& final(self).settings() == old(self).settings()
                &&& final(self).tiles() == old(self).tiles()
            },
    {
        let ghost c = coord_ints(tile_c);
        let ghost s = self.size();
        let chunk_c = calculate_chunk_coordinate(tile_c, self.chunk_size);
        let tile_i = calculate_tile_index(tile_c, self.chunk_size);
        let ghost old_map = *self;
        proof {
            lemma_round_trip(c, s);
        }
        match self.find_chunk(&chunk_c) {
            Some(i) => {
                proof {
                    self.lemma_chunk_at(i as int);
                }
                proof {
                    assert forall|b: Self| Self::rewrites_slot(old_map, b, i as int, tile_i as int) implies b.wf()
                        && #[trigger] b.tiles() == old_map.tiles().insert(c, b.chunks@[i as int]@[tile_i as int]->0) by {
                        Self::lemma_chunk_rewrite(old_map, b, i as int, c);
                    }
                    assert forall|b: Self| Self::rewrites_slot(old_map, b, i as int, tile_i as int) implies #[trigger] b.wf() by {
                        Self::lemma_chunk_rewrite(old_map, b, i as int, c);
                    }
                }
                self.chunks[i].get_mut(tile_i)
            },
            None => None,
        }
    }

    /// Registers an empty chunk at `chunk_c` when empty chunks are kept and
    /// none is registered there; otherwise does nothing, since an empty chunk
    /// would not stay registered.
    pub fn spawn_chunk(&mut self, chunk_c: [i32; N])
        requires
            old(self).wf(),
        ensures
            final(self).wf(),
            final(self).settings() == old(self).settings(),
            final(self).tiles() == old(self).tiles(),
            final(self).chunk_map().dom() == if old(self).keeps_empty_chunks() {
                old(self).chunk_map().dom().insert(coord_ints(chunk_c))
            } else {
                old(self).chunk_map().dom()
            },
    {
        let ghost old_map = *self;
        let ghost cc = coord_ints(chunk_c);
        if self.keep_empty_chunks && self.find_chunk(&chunk_c).is_none() {
            let chunk = ChunkData::new(max_slots::<N>(self.chunk_size));
            proof {
                lemma_seq_map_push(old_map.keys(), old_map.slots(), cc, chunk@);
            }
            self.coords.push(chunk_c);
            self.chunks.push(chunk);
            proof {
                assert(self.slots() =~= old_map.slots().push(chunk@));
                assert(self.keys() =~= old_map.keys().push(cc));
                assert forall|c: Seq<int>| #[trigger] self.tile_at(c) == old_map.tile_at(c) by {}
                assert(self.tiles() =~= old_map.tiles());
                assert(self.chunk_map().dom() =~= old_map.chunk_map().dom().insert(cc));
            }
        }
    }

    /// Removes the chunk at `chunk_c` with all its tiles, and returns it so
    /// that the caller can dispose of the tiles.
    pub fn despawn_chunk(&mut self, chunk_c: [i32; N]) -> (r: Option<ChunkData<T>>)
        requires
            old(self).wf(),
        ensures
            final(self).wf(),
            final(self).settings() == old(self).settings(),
            r is Some <==> old(self).has_chunk(coord_ints(chunk_c)),
            r is Some ==> r->0.wf() && r->0@ == old(self).chunk_map()[coord_ints(chunk_c)],
            final(self).chunk_map() == old(self).chunk_map().remove(coord_ints(chunk_c)),
            final(self).tiles() == outside_chunk(old(self).tiles(), coord_ints(chunk_c), old(self).size()),
    {
        let ghost old_map = *self;
        let ghost cc = coord_ints(chunk_c);
        match self.find_chunk(&chunk_c) {
            Some(i) => {
                proof {
                    self.lemma_chunk_at(i as int);
                    lemma_seq_map_swap_remove(old_map.keys(), old_map.slots(), i as int);
                }
                self.coords.swap_remove(i);
                let chunk = self.chunks.swap_remove(i);
                proof {
                    assert(self.slots() =~= old_map.slots().update(i as int, old_map.slots().last()).drop_last());
                    assert(self.keys() =~= old_map.keys().update(i as int, old_map.keys().last()).drop_last());
                    assert forall|j: int| 0 <= j < self.chunks@.len() implies (#[trigger] self.chunks@[j]).wf()
                        && self.chunks@[j]@.len() == pow(self.chunk_size as int, N as nat)
                        && (!self.keep_empty_chunks ==> occupied(self.chunks@[j]@) > 0) by {
                        let oj = if j == i as int { old_map.chunks@.len() - 1 } else { j };
                        assert(self.chunks@[j] == old_map.chunks@[oj]);
                    }
                    assert forall|c: Seq<int>| #[trigger] self.tile_at(c) == if chunk_of(c, self.size()) == cc {
                        None
                    } else {
                        old_map.tile_at(c)
                    } by {}
                    assert(self.tiles() =~= outside_chunk(old_map.tiles(), cc, old_map.size()));
                }
                Some(chunk)
            },
            None => {
                proof {
                    assert(self.chunk_map() =~= old_map.chunk_map().remove(cc));
                    assert(self.tiles() =~= outside_chunk(old_map.tiles(), cc, old_map.size()));
                }
                None
            },
        }
    }

    /// The coordinates of all registered chunks, each once.
    pub fn chunk_coords(&self) -> (r: Vec<ChunkCoord<N>>)
        requires
            self.wf(),
        ensures
            forall|i: int| 0 <= i < r@.len() ==> self.has_chunk(coord_ints(#[trigger] r@[i].0)),
            forall|cc: Seq<int>| #[trigger] self.has_chunk(cc) ==> exists|i: int| 0 <= i < r@.len() && coord_ints(r@[i].0) == cc,
            forall|i: int, j: int| 0 <= i < j < r@.len() ==> coord_ints(#[trigger] r@[i].0) != coord_ints(#[trigger] r@[j].0),
    {
        let mut r: Vec<ChunkCoord<N>> = Vec::new();
        let mut i: usize = 0;
        while i < self.coords.len()
            invariant
                self.wf(),
                0 <= i <= self.coords@.len(),
                r@.len() == i,
                forall|j: int| 0 <= j < i ==> coord_ints(#[trigger] r@[j].0) == self.keys()[j],
            decreases self.coords@.len() - i,
        {
            r.push(ChunkCoord(self.coords[i]));
            i = i + 1;
        }
        proof {
            assert forall|j: int| 0 <= j < r@.len() implies self.has_chunk(coord_ints(#[trigger] r@[j].0)) by {
                self.lemma_chunk_at(j);
            }
            assert forall|cc: Seq<int>| #[trigger] self.has_chunk(cc) implies exists|j: int| 0 <= j < r@.len() && coord_ints(r@[j].0) == cc by {
                let j = choose|j: int| 0 <= j < self.keys().len() && self.keys()[j] == cc;
                assert(coord_ints(r@[j].0) == cc);
            }
        }
        r
    }

    /// Gets the chunk that holds a tile coordinate.
    pub fn get_from_tile(&self, tile_c: [i32; N]) -> (r: Option<&ChunkData<T>>)
        requires
            self.wf(),
        ensures
            r is Some <==> self.has_chunk(chunk_of(coord_ints(tile_c), self.size())),
            r is Some ==> r->0@ == self.chunk_map()[chunk_of(coord_ints(tile_c), self.size())],
    {
        let chunk_c = calculate_chunk_coordinate(tile_c, self.chunk_size);
        self.get_from_chunk(ChunkCoord(chunk_c))
    }
}

/// The number of slots in a chunk: `chunk_size^N`.
fn max_slots<const N: usize>(chunk_size: usize) -> (r: usize)
    requires
        valid_chunk_size(chunk_size as int, N as nat),
    ensures
        r as int == pow(chunk_size as int, N as nat),
{
    crate::coords::max_tile_index::<N>(chunk_size) + 1
}

/// Component-wise equality of two coordinates.
pub fn coords_equal<const N: usize>(a: &[i32; N], b: &[i32; N]) -> (r: bool)
    ensures
        r == (coord_ints(*a) == coord_ints(*b)),
{
    let mut i: usize = 0;
    while i < N
        invariant
            0 <= i <= N,
            forall|j: int| 0 <= j < i ==> a[j] == b[j],
        decreases N - i,
    {
        if a[i] != b[i] {
            assert(coord_ints(*a)[i as int] != coord_ints(*b)[i as int]);
            return false;
        }
        i = i + 1;
    }
    assert(coord_ints(*a) =~= coord_ints(*b));
    true
}

} // verus!
