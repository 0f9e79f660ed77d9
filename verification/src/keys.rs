//! Enumeration of the grid cells overlapped by a bounding box: the box is
//! projected to a half-open rectangle of cell keys (floor of the lower corner,
//! ceiling of the upper corner), laid out row-major with x varying fastest.

use vstd::prelude::*;
use vstd::arithmetic::div_mod::{
    lemma_fundamental_div_mod, lemma_fundamental_div_mod_converse, lemma_div_pos_is_pos,
    lemma_mod_division_less_than_divisor, lemma_multiply_divide_lt,
};
use crate::cell::{
    Aabb, CellKey, ceil_div, ceil_div_i64, floor_div, floor_div_i64, lemma_ceil_div_bounds,
    lemma_floor_div_bounds, lemma_floor_le_ceil, valid_tile,
};

verus! {

/// The lowest cell column overlapped by the box.
pub open spec fn min_key_x(a: Aabb, t: int) -> int {
    floor_div(a.min.x as int, t)
}

/// The lowest cell row overlapped by the box.
pub open spec fn min_key_y(a: Aabb, t: int) -> int {
    floor_div(a.min.y as int, t)
}

/// One past the highest cell column overlapped by the box.
pub open spec fn max_key_x(a: Aabb, t: int) -> int {
    ceil_div(a.max.x as int, t)
}

/// One past the highest cell row overlapped by the box.
pub open spec fn max_key_y(a: Aabb, t: int) -> int {
    ceil_div(a.max.y as int, t)
}

/// How many cell columns the box overlaps.
pub open spec fn key_width(a: Aabb, t: int) -> int {
    max_key_x(a, t) - min_key_x(a, t)
}

/// How many cell rows the box overlaps.
pub open spec fn key_height(a: Aabb, t: int) -> int {
    max_key_y(a, t) - min_key_y(a, t)
}

/// How many cells the box overlaps in total.
pub open spec fn key_count(a: Aabb, t: int) -> int {
    key_width(a, t) * key_height(a, t)
}

/// The i-th overlapped cell, row-major from the lower corner.
pub open spec fn aabb_key_at(a: Aabb, t: int, i: int) -> CellKey {
    CellKey {
        x: (min_key_x(a, t) + i % key_width(a, t)) as i64,
        y: (min_key_y(a, t) + i / key_width(a, t)) as i64,
    }
}

/// All cells overlapped by the box, in enumeration order. A box whose key
/// rectangle is empty on either axis overlaps no cell.
pub open spec fn aabb_keys(a: Aabb, t: int) -> Seq<CellKey> {
    if key_count(a, t) <= 0 {
        Seq::empty()
    } else {
        Seq::new(key_count(a, t) as nat, |i: int| aabb_key_at(a, t, i))
    }
}

/// The key rectangle of the box is small enough for machine arithmetic.
pub open spec fn keys_fit(a: Aabb, t: int) -> bool {
    &&& key_width(a, t) <= i64::MAX
    &&& key_height(a, t) <= i64::MAX
    &&& key_count(a, t) <= i64::MAX
}

/// The key rectangle of a well-formed box is itself well formed: its corners
/// fit the machine range and its extents are non-negative.
pub proof fn lemma_key_geometry(a: Aabb, t: int)
    requires
        valid_tile(t),
        a.wf(),
    ensures
        i64::MIN < min_key_x(a, t) <= max_key_x(a, t) <= i64::MAX,
        i64::MIN < min_key_y(a, t) <= max_key_y(a, t) <= i64::MAX,
        0 <= key_width(a, t),
        0 <= key_height(a, t),
        0 <= key_count(a, t),
        aabb_keys(a, t).len() == key_count(a, t),
{
    lemma_floor_div_bounds(a.min.x as int, t);
    lemma_floor_div_bounds(a.min.y as int, t);
    lemma_ceil_div_bounds(a.max.x as int, t);
    lemma_ceil_div_bounds(a.max.y as int, t);
    lemma_floor_le_ceil(a.min.x as int, a.max.x as int, t);
    lemma_floor_le_ceil(a.min.y as int, a.max.y as int, t);
    assert(min_key_x(a, t) > i64::MIN);
    assert(min_key_y(a, t) > i64::MIN);
    assert(key_count(a, t) >= 0) by (nonlinear_arith)
        requires key_width(a, t) >= 0 && key_height(a, t) >= 0;
}

/// Every index below the key count lands strictly inside the key rectangle,
/// so the i-th key is computed without truncation.
pub proof fn lemma_aabb_key_at_in_range(a: Aabb, t: int, i: int)
    requires
        valid_tile(t),
        a.wf(),
        0 <= i < key_count(a, t),
    ensures
        0 < key_width(a, t),
        0 < key_height(a, t),
        0 <= i % key_width(a, t) < key_width(a, t),
        0 <= i / key_width(a, t) < key_height(a, t),
        aabb_key_at(a, t, i).x == min_key_x(a, t) + i % key_width(a, t),
        aabb_key_at(a, t, i).y == min_key_y(a, t) + i / key_width(a, t),
        min_key_x(a, t) <= aabb_key_at(a, t, i).x < max_key_x(a, t),
        min_key_y(a, t) <= aabb_key_at(a, t, i).y < max_key_y(a, t),
{
    lemma_key_geometry(a, t);
    let w = key_width(a, t);
    let h = key_height(a, t);
    assert(0 < w && 0 < h) by (nonlinear_arith)
        requires w >= 0 && h >= 0 && 0 < w * h;
    lemma_mod_division_less_than_divisor(i, w);
    lemma_div_pos_is_pos(i, w);
    assert(w * h == h * w) by (nonlinear_arith);
    lemma_multiply_divide_lt(i, w, h);
    assert(min_key_x(a, t) + i % w <= max_key_x(a, t) - 1);
    assert(min_key_y(a, t) + i / w <= max_key_y(a, t) - 1);
}

/// A key is enumerated for the box exactly when it lies in the half-open key
/// rectangle of the box.
pub proof fn lemma_aabb_keys_membership(a: Aabb, t: int, k: CellKey)
    requires
        valid_tile(t),
        a.wf(),
    ensures
        aabb_keys(a, t).contains(k) <==> {
            &&& min_key_x(a, t) <= k.x < max_key_x(a, t)
            &&& min_key_y(a, t) <= k.y < max_key_y(a, t)
        },
{
    lemma_key_geometry(a, t);
    let w = key_width(a, t);
    let h = key_height(a, t);
    if aabb_keys(a, t).contains(k) {
        let i = choose|i: int| 0 <= i < aabb_keys(a, t).len() && aabb_keys(a, t)[i] == k;
        lemma_aabb_key_at_in_range(a, t, i);
    }
    if min_key_x(a, t) <= k.x < max_key_x(a, t) && min_key_y(a, t) <= k.y < max_key_y(a, t) {
        let col = k.x - min_key_x(a, t);
        let row = k.y - min_key_y(a, t);
        assert(0 <= col < w && 0 <= row < h);
        let i = row * w + col;
        assert(0 <= row * w + col && row * w + col < w * h) by (nonlinear_arith)
            requires 0 <= col < w && 0 <= row < h;
        lemma_fundamental_div_mod_converse(i, w, row, col);
        lemma_aabb_key_at_in_range(a, t, i);
        assert(aabb_keys(a, t)[i] == k);
        assert(aabb_keys(a, t).contains(k));
    }
}

/// The enumeration never repeats a key.
pub proof fn lemma_aabb_keys_no_dup(a: Aabb, t: int)
    requires
        valid_tile(t),
        a.wf(),
    ensures
        aabb_keys(a, t).no_duplicates(),
{
    let s = aabb_keys(a, t);
    let w = key_width(a, t);
    assert forall|i: int, j: int|
        0 <= i < s.len() && 0 <= j < s.len() && i != j implies s[i] != s[j] by {
        lemma_aabb_key_at_in_range(a, t, i);
        lemma_aabb_key_at_in_range(a, t, j);
        if s[i] == s[j] {
            lemma_fundamental_div_mod(i, w);
            lemma_fundamental_div_mod(j, w);
            assert(w * (i / w) == w * (j / w)) by (nonlinear_arith)
                requires i / w == j / w;
        }
    }
}

/// Walks the cells overlapped by one bounding box, in row-major order.
pub struct KeyIter {
    pub width: i64,
    pub start: (i64, i64),
    pub current: i64,
    pub count: i64,
    pub src: Ghost<(Aabb, int)>,
}

impl KeyIter {
    /// The box this iterator was built from.
    pub open spec fn src_aabb(self) -> Aabb {
        self.src@.0
    }

    /// The tile size this iterator was built with.
    pub open spec fn tile(self) -> int {
        self.src@.1
    }

    /// The full sequence of keys the iterator yields over its lifetime.
    pub open spec fn all_keys(self) -> Seq<CellKey> {
        aabb_keys(self.src@.0, self.src@.1)
    }

    /// How many keys have been yielded so far.
    pub open spec fn pos(self) -> int {
        self.current as int
    }

    /// The iterator's fields agree with the key rectangle of its box.
    pub open spec fn wf(self) -> bool {
        &&& valid_tile(self.tile())
        &&& self.src_aabb().wf()
        &&& keys_fit(self.src_aabb(), self.tile())
        &&& self.start.0 == min_key_x(self.src_aabb(), self.tile())
        &&& self.start.1 == min_key_y(self.src_aabb(), self.tile())
        &&& self.width == key_width(self.src_aabb(), self.tile())
        &&& self.count == key_count(self.src_aabb(), self.tile())
        &&& 0 <= self.current <= self.count
    }

    /// Project the box to key space and start before the first key.
    pub fn new<const TILE_SIZE: usize>(aabb: Aabb) -> (it: KeyIter)
        requires
            valid_tile(TILE_SIZE as int),
            aabb.wf(),
            keys_fit(aabb, TILE_SIZE as int),
        ensures
            it.wf(),
            it.src_aabb() == aabb,
            it.tile() == TILE_SIZE as int,
            it.pos() == 0,
    {
        let t = TILE_SIZE as i64;
        proof {
            lemma_key_geometry(aabb, t as int);
        }
        let min_x = floor_div_i64(aabb.min.x, t);
        let min_y = floor_div_i64(aabb.min.y, t);
        let max_x = ceil_div_i64(aabb.max.x, t);
        let max_y = ceil_div_i64(aabb.max.y, t);
        let width = max_x - min_x;
        let height = max_y - min_y;
        let count = width * height;
        KeyIter {
            width,
            start: (min_x, min_y),
            current: 0,
            count,
            src: Ghost((aabb, TILE_SIZE as int)),
        }
    }

    /// Yield the next key of the rectangle, or nothing once exhausted.
    pub fn next(&mut self) -> (r: Option<CellKey>)
        requires
            old(self).wf(),
        ensures
            final(self).wf(),
            final(self).src_aabb() == old(self).src_aabb(),
            final(self).tile() == old(self).tile(),
            old(self).pos() < old(self).all_keys().len() ==> {
                &&& r == Some(old(self).all_keys()[old(self).pos()])
                &&& final(self).pos() == old(self).pos() + 1
            },
            old(self).pos() >= old(self).all_keys().len() ==> {
                &&& r == None::<CellKey>
                &&& final(self).pos() == old(self).pos()
            },
    {
        proof {
            lemma_key_geometry(self.src@.0, self.src@.1);
        }
        if self.current < self.count {
            let i = self.current;
            proof {
                lemma_aabb_key_at_in_range(self.src@.0, self.src@.1, i as int);
            }
            let kx = self.start.0 + i % self.width;
            let ky = self.start.1 + i / self.width;
            self.current = i + 1;
            Some(CellKey { x: kx, y: ky })
        } else {
            None
        }
    }
}

} // verus!
