//! Laws of the grid, stated and proved against the public contracts: how the
//! cell enumeration relates to the point mapping, and how inserts, queries
//! and clears compose.

use vstd::prelude::*;
use crate::cell::{
    Aabb, CellKey, Point, lemma_floor_ceil_gap, lemma_floor_div_bounds, lemma_floor_div_mono,
    point_key, valid_tile,
};
use crate::keys::{
    aabb_keys, key_count, key_height, key_width, lemma_aabb_key_at_in_range,
    lemma_aabb_keys_membership, lemma_aabb_keys_no_dup, lemma_key_geometry,
};
use crate::grid::SparseGrid2d;

verus! {

/// How many times an identifier occurs in a sequence.
pub open spec fn id_count(s: Seq<u64>, id: u64) -> nat
    decreases s.len(),
{
    if s.len() == 0 {
        0
    } else {
        (if s[0] == id { 1nat } else { 0nat }) + id_count(s.drop_first(), id)
    }
}

/// Occurrences add up over concatenation.
proof fn lemma_id_count_concat(a: Seq<u64>, b: Seq<u64>, id: u64)
    ensures
        id_count(a + b, id) == id_count(a, id) + id_count(b, id),
    decreases a.len(),
{
    if a.len() == 0 {
        assert(a + b =~= b);
    } else {
        assert((a + b).drop_first() =~= a.drop_first() + b);
        assert((a + b)[0] == a[0]);
        lemma_id_count_concat(a.drop_first(), b, id);
    }
}

/// Appending one element adds one occurrence of it and none of anything else.
proof fn lemma_id_count_push(s: Seq<u64>, x: u64, id: u64)
    ensures
        id_count(s.push(x), id) == id_count(s, id) + (if x == id { 1nat } else { 0nat }),
{
    assert(s.push(x) =~= s + seq![x]);
    lemma_id_count_concat(s, seq![x], id);
    assert(seq![x].drop_first() =~= Seq::<u64>::empty());
    assert(id_count(Seq::<u64>::empty(), id) == 0);
    assert(seq![x][0] == x);
    assert(id_count(seq![x], id) == (if x == id { 1nat } else { 0nat }) + id_count(Seq::<u64>::empty(), id));
}

/// A sequence contains an identifier exactly when it occurs at least once.
proof fn lemma_id_count_contains(s: Seq<u64>, id: u64)
    ensures
        s.contains(id) <==> id_count(s, id) > 0,
    decreases s.len(),
{
    if s.len() == 0 {
    } else {
        lemma_id_count_contains(s.drop_first(), id);
        if s[0] == id {
            assert(s.contains(id));
        } else {
            if s.contains(id) {
                let j = choose|j: int| 0 <= j < s.len() && s[j] == id;
                assert(s.drop_first()[j - 1] == id);
                assert(s.drop_first().contains(id));
            }
            if s.drop_first().contains(id) {
                let j = choose|j: int| 0 <= j < s.drop_first().len() && s.drop_first()[j] == id;
                assert(s[j + 1] == id);
                assert(s.contains(id));
            }
        }
    }
}

/// Single-cell containment: the degenerate box at a point strictly inside a
/// cell's interior (neither coordinate a multiple of the tile size) is
/// enumerated as exactly one cell, the cell containing the point.
pub proof fn lemma_single_cell_containment(p: Point, t: int)
    requires
        valid_tile(t),
        (Aabb { min: p, max: p }).wf(),
        p.x as int % t != 0,
        p.y as int % t != 0,
    ensures
        aabb_keys(Aabb { min: p, max: p }, t).len() == 1,
        aabb_keys(Aabb { min: p, max: p }, t)[0] == point_key(p, t),
{
    let a = Aabb { min: p, max: p };
    lemma_floor_ceil_gap(p.x as int, t);
    lemma_floor_ceil_gap(p.y as int, t);
    lemma_key_geometry(a, t);
    assert(key_width(a, t) == 1);
    assert(key_height(a, t) == 1);
    assert(key_width(a, t) * key_height(a, t) == 1) by (nonlinear_arith)
        requires key_width(a, t) == 1 && key_height(a, t) == 1;
    assert(key_count(a, t) == 1);
    lemma_aabb_key_at_in_range(a, t, 0);
    lemma_floor_div_bounds(p.x as int, t);
    lemma_floor_div_bounds(p.y as int, t);
    assert(0int % 1int == 0 && 0int / 1int == 0);
    assert(aabb_keys(a, t)[0] == point_key(p, t));
}

/// Round trip by point: inserting an identifier at a point into a grid whose
/// cell for that point did not yet hold it, then querying that point, yields
/// the identifier exactly once. The hypotheses are the contract of
/// `insert_point`; `point_iter` returns `ids_at` of the point's cell.
pub proof fn lemma_point_round_trip<const TILE_SIZE: usize>(
    g0: SparseGrid2d<TILE_SIZE>,
    g1: SparseGrid2d<TILE_SIZE>,
    p: Point,
    id: u64,
)
    requires
        !g0.ids_at(point_key(p, TILE_SIZE as int)).contains(id),
        g1.ids_at(point_key(p, TILE_SIZE as int))
            == g0.ids_at(point_key(p, TILE_SIZE as int)).push(id),
    ensures
        id_count(g1.ids_at(point_key(p, TILE_SIZE as int)), id) == 1,
{
    let s = g0.ids_at(point_key(p, TILE_SIZE as int));
    lemma_id_count_push(s, id, id);
    lemma_id_count_contains(s, id);
}

/// Box insert covers point queries: after an insert over a box, a point
/// whose cell is among the box's enumerated cells sees the identifier in a
/// point query. The quantified hypothesis is the contract of `insert_aabb`.
pub proof fn lemma_aabb_insert_covers_point<const TILE_SIZE: usize>(
    g0: SparseGrid2d<TILE_SIZE>,
    g1: SparseGrid2d<TILE_SIZE>,
    aabb: Aabb,
    p: Point,
    id: u64,
)
    requires
        aabb_keys(aabb, TILE_SIZE as int).contains(point_key(p, TILE_SIZE as int)),
        forall|k: CellKey| aabb_keys(aabb, TILE_SIZE as int).contains(k)
            ==> g1.ids_at(k) == g0.ids_at(k).push(id),
    ensures
        g1.ids_at(point_key(p, TILE_SIZE as int)).contains(id),
{
    let k = point_key(p, TILE_SIZE as int);
    let s = g1.ids_at(k);
    assert(s == g0.ids_at(k).push(id));
    assert(s[s.len() - 1] == id);
    assert(s.contains(id));
}

/// A point inside a box has its cell enumerated for the box, provided the
/// box's upper corner does not lie exactly on a cell boundary on either axis
/// (on a boundary, floor and ceiling agree there and the box's key rectangle
/// stops short of the corner's cell).
pub proof fn lemma_point_in_box_is_enumerated(a: Aabb, p: Point, t: int)
    requires
        valid_tile(t),
        a.wf(),
        a.min.x <= p.x <= a.max.x,
        a.min.y <= p.y <= a.max.y,
        a.max.x as int % t != 0,
        a.max.y as int % t != 0,
    ensures
        aabb_keys(a, t).contains(point_key(p, t)),
{
    lemma_floor_div_bounds(p.x as int, t);
    lemma_floor_div_bounds(p.y as int, t);
    lemma_floor_div_mono(a.min.x as int, p.x as int, t);
    lemma_floor_div_mono(a.min.y as int, p.y as int, t);
    lemma_floor_div_mono(p.x as int, a.max.x as int, t);
    lemma_floor_div_mono(p.y as int, a.max.y as int, t);
    lemma_floor_ceil_gap(a.max.x as int, t);
    lemma_floor_ceil_gap(a.max.y as int, t);
    lemma_aabb_keys_membership(a, t, point_key(p, t));
}

/// Clear semantics: in a grid where every cell stores nothing (the contract
/// of `clear` and of `soft_clear`), a point query and a box query both
/// return nothing.
pub proof fn lemma_clear_semantics<const TILE_SIZE: usize>(
    g: SparseGrid2d<TILE_SIZE>,
    aabb: Aabb,
    p: Point,
)
    requires
        forall|k: CellKey| g.ids_at(k) == Seq::<u64>::empty(),
    ensures
        g.ids_at(point_key(p, TILE_SIZE as int)) == Seq::<u64>::empty(),
        g.ids_along(aabb_keys(aabb, TILE_SIZE as int)) == Seq::<u64>::empty(),
{
    lemma_ids_along_all_empty(g, aabb_keys(aabb, TILE_SIZE as int));
}

/// In a grid where every cell stores nothing, concatenation along any keys
/// is empty.
proof fn lemma_ids_along_all_empty<const TILE_SIZE: usize>(
    g: SparseGrid2d<TILE_SIZE>,
    ks: Seq<CellKey>,
)
    requires
        forall|k: CellKey| g.ids_at(k) == Seq::<u64>::empty(),
    ensures
        g.ids_along(ks) == Seq::<u64>::empty(),
    decreases ks.len(),
{
    if ks.len() == 0 {
    } else {
        lemma_ids_along_all_empty(g, ks.drop_first());
        assert(Seq::<u64>::empty() + Seq::<u64>::empty() =~= Seq::<u64>::empty());
    }
}

/// How many of the keys, in order, lie in the set.
spec fn seq_hits(ks: Seq<CellKey>, sa: Set<CellKey>) -> nat
    decreases ks.len(),
{
    if ks.len() == 0 {
        0
    } else {
        (if sa.contains(ks[0]) { 1nat } else { 0nat }) + seq_hits(ks.drop_first(), sa)
    }
}

/// The hit count only depends on membership of the keys themselves.
proof fn lemma_hits_same_on(ks: Seq<CellKey>, sa: Set<CellKey>, sb: Set<CellKey>)
    requires
        forall|k: CellKey| ks.contains(k) ==> (sa.contains(k) <==> sb.contains(k)),
    ensures
        seq_hits(ks, sa) == seq_hits(ks, sb),
    decreases ks.len(),
{
    if ks.len() > 0 {
        assert(ks.contains(ks[0]));
        assert forall|k: CellKey| ks.drop_first().contains(k)
            implies (sa.contains(k) <==> sb.contains(k)) by {
            let j = choose|j: int| 0 <= j < ks.drop_first().len() && ks.drop_first()[j] == k;
            assert(ks[j + 1] == k);
            assert(ks.contains(k));
        }
        lemma_hits_same_on(ks.drop_first(), sa, sb);
    }
}

/// Over duplicate-free keys that cover the set, the hit count is the set's
/// cardinality.
proof fn lemma_hits_card(ks: Seq<CellKey>, sa: Set<CellKey>)
    requires
        ks.no_duplicates(),
        sa.finite(),
        forall|k: CellKey| sa.contains(k) ==> ks.contains(k),
    ensures
        seq_hits(ks, sa) == sa.len(),
    decreases ks.len(),
{
    broadcast use vstd::set::group_set_axioms;

    if ks.len() == 0 {
        assert forall|k: CellKey| !sa.contains(k) by {
            if sa.contains(k) {
                let j = choose|j: int| 0 <= j < ks.len() && ks[j] == k;
            }
        }
        assert(sa =~= Set::<CellKey>::empty());
    } else {
        let k0 = ks[0];
        let rest = ks.drop_first();
        assert(rest.no_duplicates()) by {
            assert forall|i: int, j: int|
                0 <= i < rest.len() && 0 <= j < rest.len() && i != j
                implies rest[i] != rest[j] by {
                assert(rest[i] == ks[i + 1]);
                assert(rest[j] == ks[j + 1]);
            }
        }
        assert(!rest.contains(k0)) by {
            if rest.contains(k0) {
                let j = choose|j: int| 0 <= j < rest.len() && rest[j] == k0;
                assert(ks[j + 1] == ks[0]);
            }
        }
        if sa.contains(k0) {
            let sa2 = sa.remove(k0);
            assert forall|k: CellKey| sa2.contains(k) implies rest.contains(k) by {
                assert(sa.contains(k));
                assert(ks.contains(k));
                let j = choose|j: int| 0 <= j < ks.len() && ks[j] == k;
                assert(j != 0);
                assert(rest[j - 1] == k);
            }
            lemma_hits_card(rest, sa2);
            assert forall|k: CellKey| rest.contains(k)
                implies (sa.contains(k) <==> sa2.contains(k)) by {
                if k == k0 {
                    assert(!rest.contains(k0));
                }
            }
            lemma_hits_same_on(rest, sa, sa2);
            assert(sa2.len() == sa.len() - 1);
        } else {
            assert forall|k: CellKey| sa.contains(k) implies rest.contains(k) by {
                assert(ks.contains(k));
                let j = choose|j: int| 0 <= j < ks.len() && ks[j] == k;
                assert(j != 0);
                assert(rest[j - 1] == k);
            }
            lemma_hits_card(rest, sa);
        }
    }
}

/// With exactly one occurrence stored in each cell of the set and none
/// elsewhere, a query along some keys sees one occurrence per key in the set.
proof fn lemma_count_along<const TILE_SIZE: usize>(
    g: SparseGrid2d<TILE_SIZE>,
    ks: Seq<CellKey>,
    sa: Set<CellKey>,
    id: u64,
)
    requires
        forall|k: CellKey| sa.contains(k) ==> id_count(g.ids_at(k), id) == 1,
        forall|k: CellKey| !sa.contains(k) ==> id_count(g.ids_at(k), id) == 0,
    ensures
        id_count(g.ids_along(ks), id) == seq_hits(ks, sa),
    decreases ks.len(),
{
    if ks.len() == 0 {
    } else {
        lemma_id_count_concat(g.ids_at(ks[0]), g.ids_along(ks.drop_first()), id);
        lemma_count_along(g, ks.drop_first(), sa, id);
    }
}

/// Deduplication: insert one identifier, nowhere stored before, over a box
/// spanning some cells; query over a region covering all those cells. The
/// duplicate-keeping query (`aabb_iter`) yields the identifier exactly once
/// per cell of the box, and the deduplicating query (`query_aabb`) yields it
/// exactly once as soon as the box spans at least one cell. The quantified
/// hypotheses over `g1` are the contract of `insert_aabb`.
pub proof fn lemma_deduplication<const TILE_SIZE: usize>(
    g0: SparseGrid2d<TILE_SIZE>,
    g1: SparseGrid2d<TILE_SIZE>,
    a: Aabb,
    r: Aabb,
    id: u64,
)
    requires
        valid_tile(TILE_SIZE as int),
        a.wf(),
        r.wf(),
        forall|k: CellKey| !g0.ids_at(k).contains(id),
        forall|k: CellKey| aabb_keys(a, TILE_SIZE as int).contains(k)
            ==> g1.ids_at(k) == g0.ids_at(k).push(id),
        forall|k: CellKey| !aabb_keys(a, TILE_SIZE as int).contains(k)
            ==> g1.ids_at(k) == g0.ids_at(k),
        forall|k: CellKey| #[trigger] aabb_keys(a, TILE_SIZE as int).contains(k)
            ==> aabb_keys(r, TILE_SIZE as int).contains(k),
    ensures
        id_count(g1.ids_along(aabb_keys(r, TILE_SIZE as int)), id)
            == aabb_keys(a, TILE_SIZE as int).len(),
        aabb_keys(a, TILE_SIZE as int).len() > 0
            ==> g1.ids_along(aabb_keys(r, TILE_SIZE as int)).contains(id),
{
    broadcast use vstd::set::group_set_axioms, vstd::seq_lib::seq_to_set_is_finite;

    let t = TILE_SIZE as int;
    let ksa = aabb_keys(a, t);
    let ksr = aabb_keys(r, t);
    let sa = ksa.to_set();
    lemma_aabb_keys_no_dup(a, t);
    lemma_aabb_keys_no_dup(r, t);
    assert forall|k: CellKey| sa.contains(k) implies id_count(g1.ids_at(k), id) == 1 by {
        assert(ksa.contains(k));
        lemma_id_count_push(g0.ids_at(k), id, id);
        lemma_id_count_contains(g0.ids_at(k), id);
    }
    assert forall|k: CellKey| !sa.contains(k) implies id_count(g1.ids_at(k), id) == 0 by {
        assert(!ksa.contains(k));
        lemma_id_count_contains(g0.ids_at(k), id);
    }
    lemma_count_along(g1, ksr, sa, id);
    assert forall|k: CellKey| sa.contains(k) implies ksr.contains(k) by {
        assert(ksa.contains(k));
    }
    lemma_hits_card(ksr, sa);
    ksa.unique_seq_to_set();
    lemma_id_count_contains(g1.ids_along(ksr), id);
}

} // verus!
