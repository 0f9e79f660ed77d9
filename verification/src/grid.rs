//! The grid store: a sparse mapping from cell keys to buckets of identifiers,
//! with insertion by point or by bounding box and queries over both.

use vstd::prelude::*;
use crate::cell::{Aabb, CellKey, Point, floor_div_i64, lemma_floor_div_bounds, point_key, valid_tile};
use crate::keys::{KeyIter, aabb_keys, keys_fit, lemma_aabb_keys_no_dup};
use crate::bucket::{Bucket, bucket_clear, bucket_get, bucket_ids, bucket_len, bucket_new, bucket_push};

verus! {

/// The stored pairs never repeat a cell key.
pub open spec fn map_wf(s: Seq<(CellKey, Bucket)>) -> bool {
    forall|i: int, j: int| 0 <= i < j < s.len() ==> (#[trigger] s[i]).0 != (#[trigger] s[j]).0
}

/// Whether some pair stores the key.
pub open spec fn map_has_key(s: Seq<(CellKey, Bucket)>, k: CellKey) -> bool {
    exists|i: int| 0 <= i < s.len() && (#[trigger] s[i]).0 == k
}

/// The identifiers stored under a key: the key's bucket, or empty when no
/// pair stores the key.
pub open spec fn stored_ids(s: Seq<(CellKey, Bucket)>, k: CellKey) -> Seq<u64> {
    if map_has_key(s, k) {
        let i = choose|i: int| 0 <= i < s.len() && (#[trigger] s[i]).0 == k;
        bucket_ids(s[i].1)
    } else {
        Seq::empty()
    }
}

/// With distinct keys, at most one pair stores any key.
proof fn lemma_key_at_unique(s: Seq<(CellKey, Bucket)>, i: int, j: int)
    requires
        map_wf(s),
        0 <= i < s.len(),
        0 <= j < s.len(),
        s[i].0 == s[j].0,
    ensures
        i == j,
{
    if i < j {
        assert(s[i].0 != s[j].0);
    }
    if j < i {
        assert(s[j].0 != s[i].0);
    }
}

/// The identifiers stored under the key of pair i are that pair's bucket.
proof fn lemma_stored_ids_at(s: Seq<(CellKey, Bucket)>, i: int)
    requires
        map_wf(s),
        0 <= i < s.len(),
    ensures
        map_has_key(s, s[i].0),
        stored_ids(s, s[i].0) == bucket_ids(s[i].1),
{
    let k = s[i].0;
    assert(map_has_key(s, k));
    let j = choose|j: int| 0 <= j < s.len() && (#[trigger] s[j]).0 == k;
    lemma_key_at_unique(s, i, j);
}

/// Replacing the bucket of pair i changes only the identifiers stored under
/// that pair's key.
proof fn lemma_update_bucket(
    s: Seq<(CellKey, Bucket)>,
    s2: Seq<(CellKey, Bucket)>,
    i: int,
    b: Bucket,
    k: CellKey,
)
    requires
        map_wf(s),
        0 <= i < s.len(),
        s[i].0 == k,
        s2 == s.update(i, (k, b)),
    ensures
        map_wf(s2),
        stored_ids(s2, k) == bucket_ids(b),
        forall|k2: CellKey| k2 != k ==> stored_ids(s2, k2) == stored_ids(s, k2),
        forall|k2: CellKey| map_has_key(s2, k2) == map_has_key(s, k2),
{
    assert forall|i2: int, j2: int| 0 <= i2 < j2 < s2.len()
        implies (#[trigger] s2[i2]).0 != (#[trigger] s2[j2]).0 by {
        assert(s2[i2].0 == s[i2].0);
        assert(s2[j2].0 == s[j2].0);
    }
    assert forall|k2: CellKey| map_has_key(s2, k2) == map_has_key(s, k2) by {
        if map_has_key(s2, k2) {
            let j = choose|j: int| 0 <= j < s2.len() && (#[trigger] s2[j]).0 == k2;
            assert(s[j].0 == k2);
            assert(map_has_key(s, k2));
        }
        if map_has_key(s, k2) {
            let j = choose|j: int| 0 <= j < s.len() && (#[trigger] s[j]).0 == k2;
            assert(s2[j].0 == k2);
            assert(map_has_key(s2, k2));
        }
    }
    assert(map_has_key(s2, k)) by {
        assert(s2[i].0 == k);
    }
    let j = choose|j: int| 0 <= j < s2.len() && (#[trigger] s2[j]).0 == k;
    lemma_key_at_unique(s2, i, j);
    assert(stored_ids(s2, k) == bucket_ids(b));
    assert forall|k2: CellKey| k2 != k
        implies stored_ids(s2, k2) == stored_ids(s, k2) by {
        if map_has_key(s, k2) {
            let j2 = choose|j2: int| 0 <= j2 < s2.len() && (#[trigger] s2[j2]).0 == k2;
            let j3 = choose|j3: int| 0 <= j3 < s.len() && (#[trigger] s[j3]).0 == k2;
            assert(s[j2].0 == k2);
            lemma_key_at_unique(s, j2, j3);
            assert(s2[j2].1 == s[j2].1);
        }
    }
}

/// Appending a pair with a fresh key adds exactly that key's bucket.
proof fn lemma_push_pair(
    s: Seq<(CellKey, Bucket)>,
    s2: Seq<(CellKey, Bucket)>,
    k: CellKey,
    b: Bucket,
)
    requires
        map_wf(s),
        !map_has_key(s, k),
        s2 == s.push((k, b)),
    ensures
        map_wf(s2),
        stored_ids(s2, k) == bucket_ids(b),
        forall|k2: CellKey| k2 != k ==> stored_ids(s2, k2) == stored_ids(s, k2),
        forall|k2: CellKey| map_has_key(s2, k2) == (map_has_key(s, k2) || k2 == k),
{
    let n = s.len() as int;
    assert(s2[n].0 == k);
    assert forall|i2: int, j2: int| 0 <= i2 < j2 < s2.len()
        implies (#[trigger] s2[i2]).0 != (#[trigger] s2[j2]).0 by {
        if j2 < n {
            assert(s2[i2].0 == s[i2].0);
            assert(s2[j2].0 == s[j2].0);
        } else {
            assert(s2[j2].0 == k);
            assert(s2[i2].0 == s[i2].0);
            if s[i2].0 == k {
                assert(map_has_key(s, k));
            }
        }
    }
    assert(map_has_key(s2, k));
    let j = choose|j: int| 0 <= j < s2.len() && (#[trigger] s2[j]).0 == k;
    lemma_key_at_unique(s2, n, j);
    assert(stored_ids(s2, k) == bucket_ids(b));
    assert forall|k2: CellKey| map_has_key(s2, k2) == (map_has_key(s, k2) || k2 == k) by {
        if map_has_key(s2, k2) && k2 != k {
            let j2 = choose|j2: int| 0 <= j2 < s2.len() && (#[trigger] s2[j2]).0 == k2;
            assert(j2 < n);
            assert(s[j2].0 == k2);
        }
        if map_has_key(s, k2) {
            let j2 = choose|j2: int| 0 <= j2 < s.len() && (#[trigger] s[j2]).0 == k2;
            assert(s2[j2].0 == k2);
        }
    }
    assert forall|k2: CellKey| k2 != k
        implies stored_ids(s2, k2) == stored_ids(s, k2) by {
        if map_has_key(s, k2) {
            let j2 = choose|j2: int| 0 <= j2 < s2.len() && (#[trigger] s2[j2]).0 == k2;
            let j3 = choose|j3: int| 0 <= j3 < s.len() && (#[trigger] s[j3]).0 == k2;
            assert(j2 < n);
            assert(s[j2].0 == k2);
            lemma_key_at_unique(s, j2, j3);
            assert(s2[j2].1 == s[j2].1);
        }
    }
}

/// A spatial container that allows querying for the identifiers that share
/// one or more grid cells. `TILE_SIZE` is the edge length of a square cell,
/// in the same fixed-point subunits as the coordinates.
pub struct SparseGrid2d<const TILE_SIZE: usize> {
    map: Vec<(CellKey, Bucket)>,
}

impl<const TILE_SIZE: usize> SparseGrid2d<TILE_SIZE> {
    /// The stored cell keys are distinct.
    pub closed spec fn wf(self) -> bool {
        map_wf(self.map@)
    }

    /// The identifiers stored in the cell with this key, in insertion order.
    pub closed spec fn ids_at(self, k: CellKey) -> Seq<u64> {
        stored_ids(self.map@, k)
    }

    /// Whether a bucket was created for this key since the last full clear.
    pub closed spec fn has_bucket(self, k: CellKey) -> bool {
        map_has_key(self.map@, k)
    }

    /// The stored identifiers along a sequence of keys, concatenated in key
    /// order: the shape of an answer to a box query.
    pub open spec fn ids_along(self, ks: Seq<CellKey>) -> Seq<u64>
        decreases ks.len(),
    {
        if ks.len() == 0 {
            Seq::empty()
        } else {
            self.ids_at(ks[0]) + self.ids_along(ks.drop_first())
        }
    }

    /// Concatenation along keys grows bucket by bucket.
    pub proof fn lemma_ids_along_snoc(self, ks: Seq<CellKey>, k: CellKey)
        ensures
            self.ids_along(ks.push(k)) == self.ids_along(ks) + self.ids_at(k),
        decreases ks.len(),
    {
        let s2 = ks.push(k);
        if ks.len() == 0 {
            assert(s2.drop_first() =~= Seq::<CellKey>::empty());
            assert(s2[0] == k);
            assert(self.ids_along(Seq::<CellKey>::empty()) == Seq::<u64>::empty());
            assert(self.ids_along(s2) == self.ids_at(k) + Seq::<u64>::empty());
            assert(self.ids_along(ks) == Seq::<u64>::empty());
            assert(self.ids_at(k) + Seq::<u64>::empty() =~= Seq::<u64>::empty() + self.ids_at(k));
        } else {
            assert(s2.drop_first() =~= ks.drop_first().push(k));
            assert(s2[0] == ks[0]);
            self.lemma_ids_along_snoc(ks.drop_first(), k);
            assert(self.ids_along(s2) == self.ids_at(ks[0]) + self.ids_along(ks.drop_first().push(k)));
            assert(self.ids_along(ks) == self.ids_at(ks[0]) + self.ids_along(ks.drop_first()));
            assert(self.ids_at(ks[0]) + (self.ids_along(ks.drop_first()) + self.ids_at(k))
                =~= (self.ids_at(ks[0]) + self.ids_along(ks.drop_first())) + self.ids_at(k));
        }
    }

    /// The key of the cell containing a point, by floor division of both
    /// coordinates by the tile size.
    pub fn key_from_point(point: Point) -> (k: CellKey)
        requires
            valid_tile(TILE_SIZE as int),
        ensures
            k == point_key(point, TILE_SIZE as int),
    {
        let t = TILE_SIZE as i64;
        proof {
            lemma_floor_div_bounds(point.x as int, t as int);
            lemma_floor_div_bounds(point.y as int, t as int);
        }
        CellKey { x: floor_div_i64(point.x, t), y: floor_div_i64(point.y, t) }
    }

    /// Append the identifier to the bucket of this key, creating the bucket
    /// when the key is not stored yet.
    #[verifier::loop_isolation(false)]
    fn insert_at_key(&mut self, k: CellKey, id: u64)
        requires
            old(self).wf(),
        ensures
            final(self).wf(),
            final(self).ids_at(k) == old(self).ids_at(k).push(id),
            forall|k2: CellKey| k2 != k ==> final(self).ids_at(k2) == old(self).ids_at(k2),
            forall|k2: CellKey| final(self).has_bucket(k2)
                == (old(self).has_bucket(k2) || k2 == k),
    {
        let ghost s0 = self.map@;
        let n = self.map.len();
        let mut i: usize = 0;
        while i < n
            invariant
                self.map@ == s0,
                map_wf(s0),
                n == s0.len(),
                0 <= i <= n,
                forall|j: int| 0 <= j < i ==> (#[trigger] s0[j]).0 != k,
            decreases n - i,
        {
            if self.map[i].0 == k {
                proof {
                    lemma_stored_ids_at(s0, i as int);
                }
                bucket_push(&mut self.map[i].1, id);
                proof {
                    let s2 = self.map@;
                    let b = s2[i as int].1;
                    assert(bucket_ids(b) == bucket_ids(s0[i as int].1).push(id));
                    assert(s2 =~= s0.update(i as int, (k, b)));
                    lemma_update_bucket(s0, s2, i as int, b, k);
                }
                return;
            }
            i += 1;
        }
        proof {
            assert(!map_has_key(s0, k)) by {
                if map_has_key(s0, k) {
                    let j = choose|j: int| 0 <= j < s0.len() && (#[trigger] s0[j]).0 == k;
                    assert(s0[j].0 != k);
                }
            }
        }
        let mut b = bucket_new();
        bucket_push(&mut b, id);
        let ghost bval = b;
        self.map.push((k, b));
        proof {
            let s2 = self.map@;
            assert(s2 == s0.push((k, bval)));
            lemma_push_pair(s0, s2, k, bval);
            assert(bucket_ids(bval) == Seq::<u64>::empty().push(id));
            assert(Seq::<u64>::empty().push(id) =~= stored_ids(s0, k).push(id));
        }
    }

    /// Insert an identifier at the given point coordinate.
    pub fn insert_point(&mut self, point: Point, id: u64)
        requires
            old(self).wf(),
            valid_tile(TILE_SIZE as int),
        ensures
            final(self).wf(),
            final(self).ids_at(point_key(point, TILE_SIZE as int))
                == old(self).ids_at(point_key(point, TILE_SIZE as int)).push(id),
            forall|k2: CellKey| k2 != point_key(point, TILE_SIZE as int)
                ==> final(self).ids_at(k2) == old(self).ids_at(k2),
            forall|k2: CellKey| final(self).has_bucket(k2)
                == (old(self).has_bucket(k2) || k2 == point_key(point, TILE_SIZE as int)),
    {
        let k = Self::key_from_point(point);
        self.insert_at_key(k, id);
    }

    /// Insert an identifier in every cell overlapped by the box: once per
    /// overlapped cell.
    #[verifier::loop_isolation(false)]
    pub fn insert_aabb(&mut self, aabb: Aabb, id: u64)
        requires
            old(self).wf(),
            valid_tile(TILE_SIZE as int),
            aabb.wf(),
            keys_fit(aabb, TILE_SIZE as int),
        ensures
            final(self).wf(),
            forall|k: CellKey| aabb_keys(aabb, TILE_SIZE as int).contains(k)
                ==> final(self).ids_at(k) == old(self).ids_at(k).push(id),
            forall|k: CellKey| !aabb_keys(aabb, TILE_SIZE as int).contains(k)
                ==> final(self).ids_at(k) == old(self).ids_at(k),
            forall|k: CellKey| final(self).has_bucket(k)
                == (old(self).has_bucket(k) || aabb_keys(aabb, TILE_SIZE as int).contains(k)),
    {
        let ghost t = TILE_SIZE as int;
        let ghost ks = aabb_keys(aabb, t);
        let ghost g0 = *self;
        proof {
            lemma_aabb_keys_no_dup(aabb, t);
            assert(ks.take(0) =~= Seq::<CellKey>::empty());
        }
        let mut it = KeyIter::new::<TILE_SIZE>(aabb);
        proof {
            crate::keys::lemma_key_geometry(aabb, t);
        }
        while it.current < it.count
            invariant
                it.wf(),
                it.src_aabb() == aabb,
                it.tile() == t,
                ks == aabb_keys(aabb, t),
                ks.no_duplicates(),
                0 <= it.pos() <= ks.len(),
                self.wf(),
                forall|k: CellKey| ks.take(it.pos()).contains(k)
                    ==> self.ids_at(k) == g0.ids_at(k).push(id),
                forall|k: CellKey| !ks.take(it.pos()).contains(k)
                    ==> self.ids_at(k) == g0.ids_at(k),
                forall|k: CellKey| self.has_bucket(k)
                    == (g0.has_bucket(k) || ks.take(it.pos()).contains(k)),
            decreases ks.len() - it.pos(),
        {
            let ghost pos0 = it.pos();
            let next = it.next();
            match next {
                Some(k) => {
                    let ghost t0 = ks.take(pos0);
                    let ghost t1 = ks.take(pos0 + 1);
                    let ghost g1 = *self;
                    proof {
                        assert(k == ks[pos0]);
                        assert(t1 =~= t0.push(k));
                        assert(t1[pos0] == k);
                        assert(t1.contains(k));
                        assert forall|k2: CellKey| t1.contains(k2)
                            implies (t0.contains(k2) || k2 == k) by {
                            let j = choose|j: int| 0 <= j < t1.len() && (#[trigger] t1[j]) == k2;
                            if j < pos0 {
                                assert(t0[j] == k2);
                            }
                        }
                        assert forall|k2: CellKey| t0.contains(k2) implies t1.contains(k2) by {
                            let j = choose|j: int| 0 <= j < t0.len() && (#[trigger] t0[j]) == k2;
                            assert(t1[j] == k2);
                        }
                        assert(!t0.contains(k)) by {
                            if t0.contains(k) {
                                let j = choose|j: int| 0 <= j < t0.len() && (#[trigger] t0[j]) == k;
                                assert(ks[j] == ks[pos0]);
                            }
                        }
                        assert(g1.ids_at(k) == g0.ids_at(k));
                    }
                    self.insert_at_key(k, id);
                    proof {
                        assert forall|k2: CellKey| t1.contains(k2)
                            implies self.ids_at(k2) == g0.ids_at(k2).push(id) by {
                            if k2 == k {
                                assert(self.ids_at(k) == g1.ids_at(k).push(id));
                            } else {
                                assert(t0.contains(k2));
                                assert(self.ids_at(k2) == g1.ids_at(k2));
                            }
                        }
                        assert forall|k2: CellKey| !t1.contains(k2)
                            implies self.ids_at(k2) == g0.ids_at(k2) by {
                            assert(k2 != k);
                            assert(!t0.contains(k2));
                        }
                        assert forall|k2: CellKey| self.has_bucket(k2)
                            == (g0.has_bucket(k2) || t1.contains(k2)) by {
                            assert(self.has_bucket(k2) == (g1.has_bucket(k2) || k2 == k));
                        }
                        assert(it.pos() == pos0 + 1);
                    }
                }
                None => {
                    // Unreachable: the loop condition keeps the cursor below
                    // the count, so the iterator yields a key.
                    proof {
                        assert(false);
                    }
                }
            }
        }
        proof {
            assert(it.pos() == ks.len());
            assert(ks.take(ks.len() as int) =~= ks);
        }
    }

    /// The identifiers in the cell at the given point, in insertion order.
    pub fn point_iter(&self, point: Point) -> (r: Vec<u64>)
        requires
            self.wf(),
            valid_tile(TILE_SIZE as int),
        ensures
            r@ == self.ids_at(point_key(point, TILE_SIZE as int)),
    {
        let k = Self::key_from_point(point);
        let mut out: Vec<u64> = Vec::new();
        self.append_bucket(k, &mut out);
        proof {
            assert(Seq::<u64>::empty() + self.ids_at(k) =~= self.ids_at(k));
        }
        out
    }

    /// The identifiers in the cells overlapped by the box, bucket after
    /// bucket in enumeration order; an identifier stored in several
    /// overlapped cells appears once per such cell.
    #[verifier::loop_isolation(false)]
    pub fn aabb_iter(&self, aabb: Aabb) -> (r: Vec<u64>)
        requires
            self.wf(),
            valid_tile(TILE_SIZE as int),
            aabb.wf(),
            keys_fit(aabb, TILE_SIZE as int),
        ensures
            r@ == self.ids_along(aabb_keys(aabb, TILE_SIZE as int)),
    {
        let ghost t = TILE_SIZE as int;
        let ghost ks = aabb_keys(aabb, t);
        proof {
            assert(ks.take(0) =~= Seq::<CellKey>::empty());
        }
        let mut it = KeyIter::new::<TILE_SIZE>(aabb);
        let mut out: Vec<u64> = Vec::new();
        proof {
            crate::keys::lemma_key_geometry(aabb, t);
        }
        while it.current < it.count
            invariant
                it.wf(),
                it.src_aabb() == aabb,
                it.tile() == t,
                ks == aabb_keys(aabb, t),
                0 <= it.pos() <= ks.len(),
                self.wf(),
                out@ == self.ids_along(ks.take(it.pos())),
            decreases ks.len() - it.pos(),
        {
            let ghost pos0 = it.pos();
            let next = it.next();
            match next {
                Some(k) => {
                    self.append_bucket(k, &mut out);
                    proof {
                        assert(ks.take(pos0 + 1) =~= ks.take(pos0).push(k));
                        self.lemma_ids_along_snoc(ks.take(pos0), k);
                    }
                }
                None => {
                    // Unreachable: the loop condition keeps the cursor below
                    // the count, so the iterator yields a key.
                    proof {
                        assert(false);
                    }
                }
            }
        }
        proof {
            assert(it.pos() == ks.len());
            assert(ks.take(ks.len() as int) =~= ks);
        }
        out
    }

    /// The set of identifiers in the cells overlapped by the box: the same
    /// identifiers as `aabb_iter`, each exactly once.
    #[verifier::loop_isolation(false)]
    pub fn query_aabb(&self, aabb: Aabb) -> (r: Vec<u64>)
        requires
            self.wf(),
            valid_tile(TILE_SIZE as int),
            aabb.wf(),
            keys_fit(aabb, TILE_SIZE as int),
        ensures
            r@.no_duplicates(),
            forall|id: u64| r@.contains(id)
                <==> self.ids_along(aabb_keys(aabb, TILE_SIZE as int)).contains(id),
    {
        let all = self.aabb_iter(aabb);
        let mut out: Vec<u64> = Vec::new();
        let n = all.len();
        let mut i: usize = 0;
        proof {
            assert(all@.take(0) =~= Seq::<u64>::empty());
        }
        while i < n
            invariant
                n == all@.len(),
                0 <= i <= n,
                out@.no_duplicates(),
                forall|id: u64| out@.contains(id) <==> all@.take(i as int).contains(id),
            decreases n - i,
        {
            let x = all[i];
            let seen = contains_id(&out, x);
            let ghost out0 = out@;
            let ghost t0 = all@.take(i as int);
            let ghost t1 = all@.take(i as int + 1);
            proof {
                assert(t1 =~= t0.push(x));
                assert(t1[i as int] == x);
                assert(t1.contains(x));
                assert forall|id: u64| t1.contains(id) implies (t0.contains(id) || id == x) by {
                    let j = choose|j: int| 0 <= j < t1.len() && (#[trigger] t1[j]) == id;
                    if j < i {
                        assert(t0[j] == id);
                    }
                }
                assert forall|id: u64| t0.contains(id) implies t1.contains(id) by {
                    let j = choose|j: int| 0 <= j < t0.len() && (#[trigger] t0[j]) == id;
                    assert(t1[j] == id);
                }
            }
            if !seen {
                out.push(x);
                proof {
                    assert(out@ == out0.push(x));
                    assert(out@[out0.len() as int] == x);
                    assert(out@.contains(x));
                    assert forall|id: u64| out@.contains(id)
                        implies (out0.contains(id) || id == x) by {
                        let j = choose|j: int| 0 <= j < out@.len() && (#[trigger] out@[j]) == id;
                        if j < out0.len() {
                            assert(out0[j] == id);
                        }
                    }
                    assert forall|id: u64| out0.contains(id) implies out@.contains(id) by {
                        let j = choose|j: int| 0 <= j < out0.len() && (#[trigger] out0[j]) == id;
                        assert(out@[j] == id);
                    }
                    assert forall|p: int, q: int|
                        0 <= p < out@.len() && 0 <= q < out@.len() && p != q
                        implies out@[p] != out@[q] by {
                        if p < out0.len() && q < out0.len() {
                            assert(out@[p] == out0[p]);
                            assert(out@[q] == out0[q]);
                        } else if p == out0.len() {
                            assert(out@[q] == out0[q]);
                            if out0[q] == x {
                                assert(out0.contains(x));
                            }
                        } else {
                            assert(out@[p] == out0[p]);
                            if out0[p] == x {
                                assert(out0.contains(x));
                            }
                        }
                    }
                }
            }
            proof {
                assert forall|id: u64| out@.contains(id) implies t1.contains(id) by {
                    if seen {
                        assert(out0.contains(id));
                        assert(t0.contains(id));
                    } else {
                        assert(out0.contains(id) || id == x);
                        if id != x {
                            assert(t0.contains(id));
                        }
                    }
                }
                assert forall|id: u64| t1.contains(id) implies out@.contains(id) by {
                    assert(t0.contains(id) || id == x);
                    if id == x {
                        if seen {
                            assert(out0.contains(x));
                        }
                        assert(out@.contains(x));
                    } else {
                        assert(out0.contains(id));
                        assert(out@.contains(id));
                    }
                }
            }
            i += 1;
        }
        proof {
            assert(all@.take(n as int) =~= all@);
        }
        out
    }

    /// Remove every key and bucket; queries return nothing until the grid is
    /// repopulated.
    pub fn clear(&mut self)
        ensures
            final(self).wf(),
            forall|k: CellKey| final(self).ids_at(k) == Seq::<u64>::empty(),
            forall|k: CellKey| !final(self).has_bucket(k),
    {
        self.map.clear();
    }

    /// Empty every bucket but keep the allocated bucket structure: the same
    /// keys remain stored, each with no identifiers.
    #[verifier::loop_isolation(false)]
    pub fn soft_clear(&mut self)
        requires
            old(self).wf(),
        ensures
            final(self).wf(),
            forall|k: CellKey| final(self).ids_at(k) == Seq::<u64>::empty(),
            forall|k: CellKey| final(self).has_bucket(k) == old(self).has_bucket(k),
    {
        let ghost s0 = self.map@;
        let n = self.map.len();
        let mut i: usize = 0;
        while i < n
            invariant
                map_wf(s0),
                n == s0.len(),
                self.map@.len() == s0.len(),
                0 <= i <= n,
                forall|j: int| 0 <= j < s0.len() ==> (#[trigger] self.map@[j]).0 == s0[j].0,
                forall|j: int| 0 <= j < i ==> bucket_ids((#[trigger] self.map@[j]).1) == Seq::<u64>::empty(),
            decreases n - i,
        {
            bucket_clear(&mut self.map[i].1);
            i += 1;
        }
        proof {
            let s2 = self.map@;
            assert(map_wf(s2)) by {
                assert forall|i2: int, j2: int| 0 <= i2 < j2 < s2.len()
                    implies (#[trigger] s2[i2]).0 != (#[trigger] s2[j2]).0 by {
                    assert(s2[i2].0 == s0[i2].0);
                    assert(s2[j2].0 == s0[j2].0);
                }
            }
            assert forall|k: CellKey| map_has_key(s2, k) == map_has_key(s0, k) by {
                if map_has_key(s2, k) {
                    let j = choose|j: int| 0 <= j < s2.len() && (#[trigger] s2[j]).0 == k;
                    assert(s0[j].0 == k);
                }
                if map_has_key(s0, k) {
                    let j = choose|j: int| 0 <= j < s0.len() && (#[trigger] s0[j]).0 == k;
                    assert(s2[j].0 == k);
                }
            }
            assert forall|k: CellKey| stored_ids(s2, k) == Seq::<u64>::empty() by {
                if map_has_key(s2, k) {
                    let j = choose|j: int| 0 <= j < s2.len() && (#[trigger] s2[j]).0 == k;
                    assert(bucket_ids(s2[j].1) == Seq::<u64>::empty());
                }
            }
        }
    }

    /// Append the identifiers stored under a key to the output vector.
    #[verifier::loop_isolation(false)]
    fn append_bucket(&self, k: CellKey, out: &mut Vec<u64>)
        requires
            self.wf(),
        ensures
            final(out)@ == old(out)@ + self.ids_at(k),
    {
        let ghost s0 = self.map@;
        let ghost pre = old(out)@;
        let n = self.map.len();
        let mut i: usize = 0;
        proof {
            assert(pre + Seq::<u64>::empty() =~= pre);
        }
        while i < n
            invariant
                self.wf(),
                self.map@ == s0,
                n == s0.len(),
                0 <= i <= n,
                out@ == pre,
                forall|j: int| 0 <= j < i ==> (#[trigger] s0[j]).0 != k,
            decreases n - i,
        {
            if self.map[i].0 == k {
                let ghost ids = bucket_ids(s0[i as int].1);
                proof {
                    assert(ids.take(0) =~= Seq::<u64>::empty());
                    assert(pre + ids.take(0) =~= pre);
                }
                let m = bucket_len(&self.map[i].1);
                let mut j: usize = 0;
                while j < m
                    invariant
                        self.wf(),
                        self.map@ == s0,
                        0 <= i < s0.len(),
                        s0[i as int].0 == k,
                        ids == bucket_ids(s0[i as int].1),
                        m == ids.len(),
                        0 <= j <= m,
                        out@ == pre + ids.take(j as int),
                    decreases m - j,
                {
                    let v = bucket_get(&self.map[i].1, j);
                    out.push(v);
                    proof {
                        assert(ids.take(j as int + 1) =~= ids.take(j as int).push(v));
                        assert(pre + ids.take(j as int).push(v) =~= (pre + ids.take(j as int)).push(v));
                    }
                    j += 1;
                }
                proof {
                    lemma_stored_ids_at(s0, i as int);
                    assert(ids.take(m as int) =~= ids);
                    assert(stored_ids(s0, k) == ids);
                    assert(self.ids_at(k) == ids);
                    assert(out@ == pre + ids);
                }
                return;
            }
            i += 1;
        }
        proof {
            assert(!map_has_key(s0, k)) by {
                if map_has_key(s0, k) {
                    let j = choose|j: int| 0 <= j < s0.len() && (#[trigger] s0[j]).0 == k;
                    assert(s0[j].0 != k);
                }
            }
            assert(pre + Seq::<u64>::empty() =~= pre);
        }
    }
}

impl<const TILE_SIZE: usize> Default for SparseGrid2d<TILE_SIZE> {
    /// An empty grid: nothing is stored under any key.
    fn default() -> (g: Self)
        ensures
            g.wf(),
            forall|k: CellKey| g.ids_at(k) == Seq::<u64>::empty(),
            forall|k: CellKey| !g.has_bucket(k),
    {
        SparseGrid2d { map: Vec::new() }
    }
}

/// Whether the vector already holds this identifier.
#[verifier::loop_isolation(false)]
fn contains_id(v: &Vec<u64>, x: u64) -> (b: bool)
    ensures
        b == v@.contains(x),
{
    let n = v.len();
    let mut i: usize = 0;
    while i < n
        invariant
            n == v@.len(),
            0 <= i <= n,
            forall|j: int| 0 <= j < i ==> v@[j] != x,
        decreases n - i,
    {
        if v[i] == x {
            return true;
        }
        i += 1;
    }
    proof {
        assert(!v@.contains(x)) by {
            if v@.contains(x) {
                let j = choose|j: int| 0 <= j < v@.len() && v@[j] == x;
                assert(v@[j] != x);
            }
        }
    }
    false
}

} // verus!
