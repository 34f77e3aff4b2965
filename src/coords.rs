//! Coordinate arithmetic: tile coordinate to chunk coordinate and index within
//! the chunk, the inverse, and enumeration of the points of a box.
use vstd::arithmetic::div_mod::{
    lemma_fundamental_div_mod, lemma_fundamental_div_mod_converse, lemma_mod_bound,
    lemma_mod_pos_bound,
};
use vstd::arithmetic::power::{lemma_pow_increases, lemma_pow_positive, pow};
use vstd::prelude::*;

verus! {

/// The components of an integer array, as mathematical integers.
pub open spec fn coord_ints<const N: usize>(c: [i32; N]) -> Seq<int> {
    Seq::new(N as nat, |i: int| c[i] as int)
}

/// Floor division of every component by `s` (Euclidean division, `s > 0`).
pub open spec fn chunk_of(c: Seq<int>, s: int) -> Seq<int> {
    Seq::new(c.len(), |i: int| c[i] / s)
}

/// The non-negative remainder of every component by `s`.
pub open spec fn relative_of(c: Seq<int>, s: int) -> Seq<int> {
    Seq::new(c.len(), |i: int| c[i] % s)
}

/// Mixed-radix value of `d` with radices `w`, least significant digit first.
pub open spec fn rank(d: Seq<int>, w: Seq<int>) -> int
    decreases d.len(),
{
    if d.len() == 0 || w.len() == 0 {
        0
    } else {
        d[0] + w[0] * rank(d.drop_first(), w.drop_first())
    }
}

/// The digits of `k` in radices `w`, least significant first.
pub open spec fn digits(k: int, w: Seq<int>) -> Seq<int>
    decreases w.len(),
{
    if w.len() == 0 {
        Seq::empty()
    } else {
        seq![k % w[0]].add(digits(k / w[0], w.drop_first()))
    }
}

/// The product of the radices: how many digit vectors there are.
pub open spec fn radix_product(w: Seq<int>) -> int
    decreases w.len(),
{
    if w.len() == 0 {
        1
    } else {
        w[0] * radix_product(w.drop_first())
    }
}

/// `n` radices all equal to `s`.
pub open spec fn uniform(s: int, n: nat) -> Seq<int> {
    Seq::new(n, |i: int| s)
}

pub open spec fn positive_radices(w: Seq<int>) -> bool {
    forall|i: int| 0 <= i < w.len() ==> w[i] > 0
}

pub open spec fn digits_in_range(d: Seq<int>, w: Seq<int>) -> bool {
    d.len() == w.len() && forall|i: int| 0 <= i < d.len() ==> 0 <= #[trigger] d[i] < w[i]
}

/// Index of a tile within its chunk: the remainders read as a base-`s` number,
/// axis 0 least significant.
pub open spec fn tile_index_of(c: Seq<int>, s: int) -> int {
    rank(relative_of(c, s), uniform(s, c.len()))
}

/// The tile coordinate at index `idx` of the chunk at `chunk`.
pub open spec fn tile_coord_of(chunk: Seq<int>, idx: int, s: int) -> Seq<int> {
    Seq::new(
        chunk.len(),
        |i: int| chunk[i] * s + digits(idx, uniform(s, chunk.len()))[i],
    )
}

/// A chunk size that fits the integer types used: positive, representable as
/// `i32`, and with `s^N` slots countable in `usize`.
pub open spec fn valid_chunk_size(s: int, n: nat) -> bool {
    0 < s <= i32::MAX && pow(s, n) <= usize::MAX
}

/// Every tile of the chunk at `chunk` has a coordinate representable as `i32`.
pub open spec fn chunk_origin_fits(chunk: Seq<int>, s: int) -> bool {
    forall|i: int|
        0 <= i < chunk.len() ==> i32::MIN <= #[trigger] chunk[i] * s && chunk[i] * s + s - 1
            <= i32::MAX
}

pub proof fn lemma_div_mod_digit(a: int, b: int, s: int)
    requires
        s > 0,
        0 <= a < s,
    ensures
        (a + s * b) % s == a,
        (a + s * b) / s == b,
{
    assert(a + s * b == b * s + a) by (nonlinear_arith);
    lemma_fundamental_div_mod_converse(a + s * b, s, b, a);
}

pub proof fn lemma_uniform_product(s: int, n: nat)
    ensures
        radix_product(uniform(s, n)) == pow(s, n),
    decreases n,
{
    reveal(pow);
    if n > 0 {
        assert(uniform(s, n).drop_first() =~= uniform(s, (n - 1) as nat));
        lemma_uniform_product(s, (n - 1) as nat);
    }
}

pub proof fn lemma_digits_len(k: int, w: Seq<int>)
    ensures
        digits(k, w).len() == w.len(),
    decreases w.len(),
{
    if w.len() > 0 {
        lemma_digits_len(k / w[0], w.drop_first());
    }
}

/// A digit vector in range has a rank in `[0, product)`.
pub proof fn lemma_rank_bounds(d: Seq<int>, w: Seq<int>)
    requires
        digits_in_range(d, w),
    ensures
        0 <= rank(d, w) < radix_product(w),
    decreases d.len(),
{
    if d.len() > 0 {
        let r = rank(d.drop_first(), w.drop_first());
        let p = radix_product(w.drop_first());
        lemma_rank_bounds(d.drop_first(), w.drop_first());
        assert(0 <= d[0] + w[0] * r < w[0] * p) by (nonlinear_arith)
            requires
                0 <= d[0] < w[0],
                0 <= r < p,
        ;
    }
}

/// Reading the digits of a rank gives back the digit vector.
pub proof fn lemma_digits_of_rank(d: Seq<int>, w: Seq<int>)
    requires
        digits_in_range(d, w),
    ensures
        digits(rank(d, w), w) == d,
    decreases d.len(),
{
    if d.len() > 0 {
        let r = rank(d.drop_first(), w.drop_first());
        lemma_rank_bounds(d.drop_first(), w.drop_first());
        lemma_div_mod_digit(d[0], r, w[0]);
        lemma_digits_of_rank(d.drop_first(), w.drop_first());
        assert(digits(rank(d, w), w) =~= d);
    }
}

/// The digits of `k` are in range, and their rank is `k` when `k` is below
/// the product.
pub proof fn lemma_rank_of_digits(k: int, w: Seq<int>)
    requires
        positive_radices(w),
        0 <= k < radix_product(w),
    ensures
        digits_in_range(digits(k, w), w),
        rank(digits(k, w), w) == k,
    decreases w.len(),
{
    if w.len() > 0 {
        let q = k / w[0];
        lemma_fundamental_div_mod(k, w[0]);
        lemma_mod_pos_bound(k, w[0]);
        let p = radix_product(w.drop_first());
        assert(0 <= q < p) by (nonlinear_arith)
            requires
                k == w[0] * q + k % w[0],
                0 <= k % w[0] < w[0],
                0 <= k < w[0] * p,
        ;
        lemma_rank_of_digits(q, w.drop_first());
        let d = digits(k, w);
        assert(d.drop_first() =~= digits(q, w.drop_first()));
    }
}


/// Splitting a tile coordinate into its chunk coordinate and its index in the
/// chunk, then putting the two together again, gives back the coordinate; the
/// index lies in `[0, s^N)`.
pub proof fn lemma_round_trip(c: Seq<int>, s: int)
    requires
        s > 0,
    ensures
        tile_coord_of(chunk_of(c, s), tile_index_of(c, s), s) == c,
        0 <= tile_index_of(c, s) < pow(s, c.len()),
{
    let rel = relative_of(c, s);
    let u = uniform(s, c.len());
    assert forall|i: int| 0 <= i < c.len() implies 0 <= #[trigger] rel[i] < u[i] by {
        lemma_mod_bound(c[i], s);
    }
    lemma_digits_of_rank(rel, u);
    lemma_rank_bounds(rel, u);
    lemma_uniform_product(s, c.len());
    assert forall|i: int| 0 <= i < c.len() implies #[trigger] tile_coord_of(
        chunk_of(c, s),
        tile_index_of(c, s),
        s,
    )[i] == c[i] by {
        lemma_fundamental_div_mod(c[i], s);
        assert((c[i] / s) * s == s * (c[i] / s)) by (nonlinear_arith);
    }
    assert(tile_coord_of(chunk_of(c, s), tile_index_of(c, s), s) =~= c);
}

/// The tile at index `j` of the chunk at `cc` lies in that chunk, at index `j`.
pub proof fn lemma_index_round_trip(cc: Seq<int>, j: int, s: int)
    requires
        s > 0,
        0 <= j < pow(s, cc.len()),
    ensures
        chunk_of(tile_coord_of(cc, j, s), s) == cc,
        tile_index_of(tile_coord_of(cc, j, s), s) == j,
{
    let u = uniform(s, cc.len());
    let c = tile_coord_of(cc, j, s);
    lemma_uniform_product(s, cc.len());
    assert(positive_radices(u));
    lemma_rank_of_digits(j, u);
    let d = digits(j, u);
    assert forall|i: int| 0 <= i < cc.len() implies #[trigger] c[i] / s == cc[i] && c[i] % s == d[i] by {
        assert(0 <= d[i] < u[i]);
        assert(c[i] == d[i] + s * cc[i]) by (nonlinear_arith)
            requires
                c[i] == cc[i] * s + d[i],
        ;
        lemma_div_mod_digit(d[i], cc[i], s);
    }
    assert(chunk_of(c, s) =~= cc);
    assert(relative_of(c, s) =~= d);
}

/// The first and the last index of a chunk are its lowest and highest corner.
pub proof fn lemma_chunk_corners(cc: Seq<int>, s: int)
    requires
        s > 0,
    ensures
        tile_coord_of(cc, 0, s) == Seq::new(cc.len(), |i: int| cc[i] * s),
        tile_coord_of(cc, pow(s, cc.len()) - 1, s) == Seq::new(cc.len(), |i: int| cc[i] * s + s - 1),
{
    let u = uniform(s, cc.len());
    let zeros = Seq::new(cc.len(), |i: int| 0int);
    let tops = Seq::new(cc.len(), |i: int| s - 1);
    lemma_rank_zero(zeros, u);
    lemma_digits_of_rank(zeros, u);
    lemma_rank_max(tops, u);
    lemma_digits_of_rank(tops, u);
    lemma_uniform_product(s, cc.len());
    assert(tile_coord_of(cc, 0, s) =~= Seq::new(cc.len(), |i: int| cc[i] * s));
    assert(tile_coord_of(cc, pow(s, cc.len()) - 1, s) =~= Seq::new(cc.len(), |i: int| cc[i] * s + s - 1));
}

/// Two tile coordinates in the same chunk with the same index are equal.
pub proof fn lemma_tile_identity(c1: Seq<int>, c2: Seq<int>, s: int)
    requires
        s > 0,
        c1.len() == c2.len(),
        chunk_of(c1, s) == chunk_of(c2, s),
        tile_index_of(c1, s) == tile_index_of(c2, s),
    ensures
        c1 == c2,
{
    lemma_round_trip(c1, s);
    lemma_round_trip(c2, s);
}

pub open spec fn box_widths(lo: Seq<int>, hi: Seq<int>) -> Seq<int> {
    Seq::new(lo.len(), |i: int| hi[i] - lo[i] + 1)
}

/// How many integer points the box with corners `lo <= hi` holds.
pub open spec fn box_count(lo: Seq<int>, hi: Seq<int>) -> int {
    radix_product(box_widths(lo, hi))
}

/// The `k`-th point of the box in the order axis 0 fastest.
pub open spec fn box_point(lo: Seq<int>, hi: Seq<int>, k: int) -> Seq<int> {
    Seq::new(lo.len(), |i: int| lo[i] + digits(k, box_widths(lo, hi))[i])
}

/// The position of point `c` in the order axis 0 fastest.
pub open spec fn box_rank(lo: Seq<int>, hi: Seq<int>, c: Seq<int>) -> int {
    rank(Seq::new(lo.len(), |i: int| c[i] - lo[i]), box_widths(lo, hi))
}

pub open spec fn ordered_corners(lo: Seq<int>, hi: Seq<int>) -> bool {
    lo.len() == hi.len() && forall|i: int| 0 <= i < lo.len() ==> #[trigger] lo[i] <= hi[i]
}

pub open spec fn in_box(c: Seq<int>, lo: Seq<int>, hi: Seq<int>) -> bool {
    c.len() == lo.len() && lo.len() == hi.len() && forall|i: int|
        0 <= i < c.len() ==> lo[i] <= #[trigger] c[i] <= hi[i]
}

pub open spec fn min_corner(a: Seq<int>, b: Seq<int>) -> Seq<int> {
    Seq::new(a.len(), |i: int| if a[i] <= b[i] { a[i] } else { b[i] })
}

pub open spec fn max_corner(a: Seq<int>, b: Seq<int>) -> Seq<int> {
    Seq::new(a.len(), |i: int| if a[i] <= b[i] { b[i] } else { a[i] })
}

pub proof fn lemma_rank_zero(d: Seq<int>, w: Seq<int>)
    requires
        d.len() == w.len(),
        forall|i: int| 0 <= i < d.len() ==> #[trigger] d[i] == 0,
    ensures
        rank(d, w) == 0,
    decreases d.len(),
{
    if d.len() > 0 {
        lemma_rank_zero(d.drop_first(), w.drop_first());
    }
}

pub proof fn lemma_rank_max(d: Seq<int>, w: Seq<int>)
    requires
        d.len() == w.len(),
        forall|i: int| 0 <= i < d.len() ==> #[trigger] d[i] == w[i] - 1,
    ensures
        rank(d, w) == radix_product(w) - 1,
    decreases d.len(),
{
    if d.len() > 0 {
        lemma_rank_max(d.drop_first(), w.drop_first());
        let p = radix_product(w.drop_first());
        assert(w[0] - 1 + w[0] * (p - 1) == w[0] * p - 1) by (nonlinear_arith);
    }
}

/// Advancing the odometer: digits below `m` at their maximum wrap to zero and
/// digit `m` goes up by one; the rank goes up by one.
pub proof fn lemma_rank_step(d: Seq<int>, e: Seq<int>, w: Seq<int>, m: int)
    requires
        digits_in_range(d, w),
        e.len() == d.len(),
        0 <= m < d.len(),
        forall|j: int| 0 <= j < m ==> #[trigger] d[j] == w[j] - 1 && e[j] == 0,
        e[m] == d[m] + 1,
        forall|j: int| m < j < d.len() ==> #[trigger] e[j] == d[j],
    ensures
        rank(e, w) == rank(d, w) + 1,
    decreases m,
{
    if m == 0 {
        assert(e.drop_first() =~= d.drop_first());
    } else {
        lemma_rank_step(d.drop_first(), e.drop_first(), w.drop_first(), m - 1);
        let r = rank(d.drop_first(), w.drop_first());
        assert(w[0] * (r + 1) == w[0] * r + w[0]) by (nonlinear_arith);
    }
}

/// The box enumeration is a bijection between `[0, box_count)` and the
/// points of the box: every point has exactly one position.
pub proof fn lemma_box_enumeration(lo: Seq<int>, hi: Seq<int>)
    requires
        ordered_corners(lo, hi),
    ensures
        forall|k: int| 0 <= k < box_count(lo, hi) ==> in_box(#[trigger] box_point(lo, hi, k), lo, hi),
        forall|k: int| 0 <= k < box_count(lo, hi) ==> box_rank(lo, hi, #[trigger] box_point(lo, hi, k)) == k,
        forall|c: Seq<int>| in_box(c, lo, hi) ==> 0 <= #[trigger] box_rank(lo, hi, c) < box_count(lo, hi)
            && box_point(lo, hi, box_rank(lo, hi, c)) == c,
        forall|k1: int, k2: int|
            0 <= k1 < box_count(lo, hi) && 0 <= k2 < box_count(lo, hi) && #[trigger] box_point(lo, hi, k1)
                == #[trigger] box_point(lo, hi, k2) ==> k1 == k2,
{
    let w = box_widths(lo, hi);
    assert forall|k: int| 0 <= k < box_count(lo, hi) implies in_box(#[trigger] box_point(lo, hi, k), lo, hi)
        && box_rank(lo, hi, box_point(lo, hi, k)) == k by {
        lemma_rank_of_digits(k, w);
        let p = box_point(lo, hi, k);
        assert(Seq::new(lo.len(), |i: int| p[i] - lo[i]) =~= digits(k, w));
    }
    assert forall|c: Seq<int>| in_box(c, lo, hi) implies 0 <= #[trigger] box_rank(lo, hi, c) < box_count(lo, hi)
        && box_point(lo, hi, box_rank(lo, hi, c)) == c by {
        let d = Seq::new(lo.len(), |i: int| c[i] - lo[i]);
        lemma_rank_bounds(d, w);
        lemma_digits_of_rank(d, w);
        assert(box_point(lo, hi, box_rank(lo, hi, c)) =~= c);
    }
}

/// Floor of `v / s` for one component.
fn floor_div(v: i32, s: i32) -> (r: i32)
    requires
        s > 0,
    ensures
        r as int == v as int / s as int,
{
    if v < 0 {
        let m = -(v + 1);
        let q = m / s;
        proof {
            lemma_fundamental_div_mod(m as int, s as int);
            lemma_mod_pos_bound(m as int, s as int);
            let t = m as int % s as int;
            assert(v as int == (-q - 1) * s + (s - t - 1)) by (nonlinear_arith)
                requires
                    m as int == s * q + t,
                    v as int == -(m + 1),
            ;
            lemma_fundamental_div_mod_converse(v as int, s as int, -q - 1, s - t - 1);
        }
        -q - 1
    } else {
        v / s
    }
}

/// Calculate the coordinate of a chunk from a given tile coordinate and chunk size.
pub fn calculate_chunk_coordinate<const N: usize>(tile_c: [i32; N], chunk_size: usize) -> (r: [i32; N])
    requires
        0 < chunk_size <= i32::MAX,
    ensures
        coord_ints(r) == chunk_of(coord_ints(tile_c), chunk_size as int),
{
    let s = chunk_size as i32;
    let mut r = tile_c;
    let mut i: usize = 0;
    while i < N
        invariant
            s as int == chunk_size as int,
            0 < s,
            0 <= i <= N,
            forall|j: int| 0 <= j < i ==> #[trigger] r[j] as int == tile_c[j] as int / s as int,
            forall|j: int| i <= j < N ==> #[trigger] r[j] == tile_c[j],
        decreases N - i,
    {
        r[i] = floor_div(tile_c[i], s);
        i = i + 1;
    }
    assert(coord_ints(r) =~= chunk_of(coord_ints(tile_c), chunk_size as int));
    r
}


/// Non-negative remainder of `v` by `s` for one component.
fn euclid_rem(v: i32, s: i32) -> (r: i32)
    requires
        s > 0,
    ensures
        r as int == v as int % s as int,
        0 <= r < s,
{
    if v < 0 {
        let m = -(v + 1);
        let q = m / s;
        let t = m % s;
        proof {
            lemma_fundamental_div_mod(m as int, s as int);
            lemma_mod_pos_bound(m as int, s as int);
            assert(v as int == (-q - 1) * s + (s - t - 1)) by (nonlinear_arith)
                requires
                    m as int == s * q + t,
                    v as int == -(m + 1),
            ;
            lemma_fundamental_div_mod_converse(v as int, s as int, -q - 1, s - t - 1);
        }
        s - 1 - t
    } else {
        proof {
            lemma_mod_pos_bound(v as int, s as int);
        }
        v % s
    }
}

/// Calculate the coordinate of a tile relative to the origin of its chunk.
pub fn calculate_chunk_relative_tile_coordinate<const N: usize>(
    tile_c: [i32; N],
    chunk_size: usize,
) -> (r: [i32; N])
    requires
        0 < chunk_size <= i32::MAX,
    ensures
        coord_ints(r) == relative_of(coord_ints(tile_c), chunk_size as int),
        digits_in_range(coord_ints(r), uniform(chunk_size as int, N as nat)),
{
    let s = chunk_size as i32;
    let mut r = tile_c;
    let mut i: usize = 0;
    while i < N
        invariant
            s as int == chunk_size as int,
            0 < s,
            0 <= i <= N,
            forall|j: int| 0 <= j < i ==> #[trigger] r[j] as int == tile_c[j] as int % s as int,
            forall|j: int| 0 <= j < i ==> 0 <= #[trigger] r[j] < s,
            forall|j: int| i <= j < N ==> #[trigger] r[j] == tile_c[j],
        decreases N - i,
    {
        r[i] = euclid_rem(tile_c[i], s);
        i = i + 1;
    }
    assert(coord_ints(r) =~= relative_of(coord_ints(tile_c), chunk_size as int));
    r
}

/// Calculate the index of a tile within its chunk.
pub fn calculate_tile_index<const N: usize>(tile_c: [i32; N], chunk_size: usize) -> (r: usize)
    requires
        valid_chunk_size(chunk_size as int, N as nat),
    ensures
        r as int == tile_index_of(coord_ints(tile_c), chunk_size as int),
        r < pow(chunk_size as int, N as nat),
{
    let ghost s = chunk_size as int;
    let rel = calculate_chunk_relative_tile_coordinate(tile_c, chunk_size);
    let ghost d = coord_ints(rel);
    let ghost w = uniform(s, N as nat);
    let mut index: usize = 0;
    let mut i: usize = N;
    proof {
        assert(d.subrange(N as int, N as int).len() == 0);
    }
    while i > 0
        invariant
            0 <= i <= N,
            s == chunk_size as int,
            valid_chunk_size(s, N as nat),
            d == coord_ints(rel),
            w == uniform(s, N as nat),
            digits_in_range(d, w),
            index as int == rank(d.subrange(i as int, N as int), uniform(s, (N - i) as nat)),
        decreases i,
    {
        let ghost tail = d.subrange(i - 1, N as int);
        let ghost tw = uniform(s, (N - i + 1) as nat);
        proof {
            assert(tail.drop_first() =~= d.subrange(i as int, N as int));
            assert(tw.drop_first() =~= uniform(s, (N - i) as nat));
            assert(digits_in_range(tail, tw));
            lemma_rank_bounds(tail, tw);
            lemma_uniform_product(s, (N - i + 1) as nat);
            lemma_pow_increases(s as nat, (N - i + 1) as nat, N as nat);
            assert(rank(tail, tw) == d[i - 1] + s * rank(d.subrange(i as int, N as int), uniform(s, (N - i) as nat)));
        }
        index = index * chunk_size + rel[i - 1] as usize;
        i = i - 1;
    }
    proof {
        assert(d.subrange(0, N as int) =~= d);
        lemma_rank_bounds(d, w);
        lemma_uniform_product(s, N as nat);
        assert(relative_of(coord_ints(tile_c), s) == d);
    }
    index
}


/// Calculate the coordinate of a tile from its index in a chunk and the chunk coordinate.
pub fn calculate_tile_coordinate<const N: usize>(
    chunk_c: [i32; N],
    tile_i: usize,
    chunk_size: usize,
) -> (r: [i32; N])
    requires
        0 < chunk_size <= i32::MAX,
        chunk_origin_fits(coord_ints(chunk_c), chunk_size as int),
    ensures
        coord_ints(r) == tile_coord_of(coord_ints(chunk_c), tile_i as int, chunk_size as int),
{
    let ghost s = chunk_size as int;
    let ghost all = digits(tile_i as int, uniform(s, N as nat));
    let mut r = chunk_c;
    let mut rem = tile_i;
    let mut i: usize = 0;
    proof {
        lemma_digits_len(tile_i as int, uniform(s, N as nat));
        assert(all.subrange(0, N as int) =~= all);
    }
    while i < N
        invariant
            0 <= i <= N,
            s == chunk_size as int,
            0 < s <= i32::MAX,
            chunk_origin_fits(coord_ints(chunk_c), s),
            all == digits(tile_i as int, uniform(s, N as nat)),
            all.len() == N,
            all.subrange(i as int, N as int) == digits(rem as int, uniform(s, (N - i) as nat)),
            forall|j: int| 0 <= j < i ==> #[trigger] r[j] as int == chunk_c[j] * s + all[j],
        decreases N - i,
    {
        let ghost u = uniform(s, (N - i) as nat);
        proof {
            assert(u.drop_first() =~= uniform(s, (N - i - 1) as nat));
            assert(all.subrange(i as int, N as int)[0] == all[i as int]);
            assert(all.subrange(i as int + 1, N as int) =~= all.subrange(i as int, N as int).drop_first());
            lemma_mod_pos_bound(rem as int, s);
            assert(coord_ints(chunk_c)[i as int] == chunk_c[i as int] as int);
        }
        let digit = rem % chunk_size;
        let v = chunk_c[i] as i64 * chunk_size as i64 + digit as i64;
        r[i] = v as i32;
        rem = rem / chunk_size;
        i = i + 1;
    }
    assert(coord_ints(r) =~= tile_coord_of(coord_ints(chunk_c), tile_i as int, s));
    r
}

/// Find the highest index possible in a chunk: `chunk_size^N - 1`.
pub fn max_tile_index<const N: usize>(chunk_size: usize) -> (r: usize)
    requires
        valid_chunk_size(chunk_size as int, N as nat),
    ensures
        r as int == pow(chunk_size as int, N as nat) - 1,
{
    let mut p: usize = 1;
    let mut i: usize = 0;
    proof {
        reveal(pow);
    }
    while i < N
        invariant
            0 <= i <= N,
            valid_chunk_size(chunk_size as int, N as nat),
            p as int == pow(chunk_size as int, i as nat),
        decreases N - i,
    {
        proof {
            reveal(pow);
            lemma_pow_increases(chunk_size as nat, (i + 1) as nat, N as nat);
            assert(pow(chunk_size as int, (i + 1) as nat) == chunk_size * pow(chunk_size as int, i as nat));
        }
        p = p * chunk_size;
        i = i + 1;
    }
    proof {
        lemma_pow_positive(chunk_size as int, N as nat);
    }
    p - 1
}


/// Allows for iteration between all coordinates in between two corners.
pub struct CoordIterator<const N: usize> {
    corner_1: [i32; N],
    corner_2: [i32; N],
    current: [i32; N],
    complete: bool,
}

impl<const N: usize> CoordIterator<N> {
    /// The lower corner of the box.
    pub closed spec fn lo(&self) -> Seq<int> {
        coord_ints(self.corner_1)
    }

    /// The upper corner of the box.
    pub closed spec fn hi(&self) -> Seq<int> {
        coord_ints(self.corner_2)
    }

    /// How many points have been handed out so far.
    pub closed spec fn pos(&self) -> int {
        if self.complete {
            box_count(self.lo(), self.hi())
        } else {
            box_rank(self.lo(), self.hi(), coord_ints(self.current))
        }
    }

    pub closed spec fn wf(&self) -> bool {
        &&& ordered_corners(self.lo(), self.hi())
        &&& in_box(coord_ints(self.current), self.lo(), self.hi())
    }

    /// Create an iterator that iterates through each point created by the bounding of two corners.
    pub fn new(corner_1: [i32; N], corner_2: [i32; N]) -> (r: Self)
        ensures
            r.wf(),
            r.lo() == min_corner(coord_ints(corner_1), coord_ints(corner_2)),
            r.hi() == max_corner(coord_ints(corner_1), coord_ints(corner_2)),
            r.pos() == 0,
    {
        let mut lo = corner_1;
        let mut hi = corner_2;
        let mut i: usize = 0;
        while i < N
            invariant
                0 <= i <= N,
                forall|j: int| 0 <= j < i ==> #[trigger] lo[j] == if corner_1[j] <= corner_2[j] {
                    corner_1[j]
                } else {
                    corner_2[j]
                },
                forall|j: int| 0 <= j < i ==> #[trigger] hi[j] == if corner_1[j] <= corner_2[j] {
                    corner_2[j]
                } else {
                    corner_1[j]
                },
                forall|j: int| i <= j < N ==> #[trigger] lo[j] == corner_1[j],
                forall|j: int| i <= j < N ==> #[trigger] hi[j] == corner_2[j],
            decreases N - i,
        {
            if lo[i] > hi[i] {
                let t = lo[i];
                lo[i] = hi[i];
                hi[i] = t;
            }
            i = i + 1;
        }
        let r = CoordIterator { corner_1: lo, corner_2: hi, current: lo, complete: false };
        proof {
            assert(r.lo() =~= min_corner(coord_ints(corner_1), coord_ints(corner_2)));
            assert(r.hi() =~= max_corner(coord_ints(corner_1), coord_ints(corner_2)));
            lemma_rank_zero(Seq::new(N as nat, |j: int| r.lo()[j] - r.lo()[j]), box_widths(r.lo(), r.hi()));
        }
        r
    }

    /// The next point of the box, axis 0 fastest; `None` once every point was given.
    pub fn next(&mut self) -> (r: Option<[i32; N]>)
        requires
            old(self).wf(),
        ensures
            final(self).wf(),
            final(self).lo() == old(self).lo(),
            final(self).hi() == old(self).hi(),
            0 <= old(self).pos() <= box_count(old(self).lo(), old(self).hi()),
            old(self).pos() < box_count(old(self).lo(), old(self).hi()) ==> {
                &&& r is Some
                &&& coord_ints(r->0) == box_point(old(self).lo(), old(self).hi(), old(self).pos())
                &&& final(self).pos() == old(self).pos() + 1
            },
            old(self).pos() == box_count(old(self).lo(), old(self).hi()) ==> {
                &&& r is None
                &&& final(self).pos() == old(self).pos()
            },
    {
        let ghost lo = self.lo();
        let ghost hi = self.hi();
        let ghost w = box_widths(lo, hi);
        let ghost d = Seq::new(N as nat, |j: int| coord_ints(self.current)[j] - lo[j]);
        proof {
            assert(digits_in_range(d, w));
            lemma_rank_bounds(d, w);
            lemma_digits_of_rank(d, w);
            assert(box_point(lo, hi, box_rank(lo, hi, coord_ints(self.current))) =~= coord_ints(
                self.current,
            ));
        }
        if self.complete {
            return None;
        }
        let ret = self.current;
        let ghost old_cur = self.current;
        let mut i: usize = 0;
        while i < N && self.current[i] == self.corner_2[i]
            invariant
                0 <= i <= N,
                lo == self.lo(),
                hi == self.hi(),
                !self.complete,
                ordered_corners(lo, hi),
                in_box(coord_ints(old_cur), lo, hi),
                forall|j: int| 0 <= j < i ==> #[trigger] old_cur[j] == self.corner_2[j],
                forall|j: int| 0 <= j < i ==> #[trigger] self.current[j] == self.corner_1[j],
                forall|j: int| i <= j < N ==> #[trigger] self.current[j] == old_cur[j],
            decreases N - i,
        {
            self.current[i] = self.corner_1[i];
            i = i + 1;
        }
        if i == N {
            self.complete = true;
            proof {
                lemma_rank_max(d, w);
                assert(in_box(coord_ints(self.current), lo, hi));
            }
        } else {
            proof {
                assert(coord_ints(old_cur)[i as int] == old_cur[i as int]);
                assert(hi[i as int] == self.corner_2[i as int]);
            }
            self.current[i] = self.current[i] + 1;
            proof {
                let e = Seq::new(N as nat, |j: int| coord_ints(self.current)[j] - lo[j]);
                lemma_rank_step(d, e, w, i as int);
                assert forall|j: int| 0 <= j < N implies lo[j] <= #[trigger] coord_ints(
                    self.current,
                )[j] <= hi[j] by {
                    assert(coord_ints(old_cur)[j] == old_cur[j]);
                    assert(lo[j] == self.corner_1[j]);
                }
            }
        }
        Some(ret)
    }
}

} // verus!
