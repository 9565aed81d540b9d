//! The exact judgement of whether a lattice point lies along a path.
//!
//! On the lattice no tolerance is needed: a vertex lies along the path
//! from its predecessor to its successor exactly when the step towards it
//! and the step away from it point in one direction.

use crate::shape::{twice_area, Point};
use crate::simplify::{
    around, closed, decisions, judged_around, kept_indices, lemma_around, lemma_gap,
    lemma_kept_indices, lemma_run, lemma_simplified_idempotent, lies_along, rejoined, retained,
    simplified, stable,
};
use vstd::prelude::*;

verus! {

/// The cross product of the vectors `(ux, uy)` and `(vx, vy)`.
pub open spec fn cross(ux: int, uy: int, vx: int, vy: int) -> int {
    ux * vy - uy * vx
}

/// The dot product of the vectors `(ux, uy)` and `(vx, vy)`.
pub open spec fn dot(ux: int, uy: int, vx: int, vy: int) -> int {
    ux * vx + uy * vy
}

/// `b` lies along the path from `a` to `c`: the steps from `a` to `b` and
/// from `b` to `c` are parallel and point in one direction.  Neither step
/// is then of length zero.
pub open spec fn aligned(a: Point, b: Point, c: Point) -> bool {
    &&& cross(b.x - a.x, b.y - a.y, c.x - b.x, c.y - b.y) == 0
    &&& dot(b.x - a.x, b.y - a.y, c.x - b.x, c.y - b.y) > 0
}

/// The exact judgement, to simplify a lattice ring by.
pub open spec fn judgement() -> spec_fn(Point, Point, Point) -> bool {
    |a: Point, b: Point, c: Point| aligned(a, b, c)
}

/// The coordinates of `p` are small enough for products of differences
/// of such coordinates to be computed.
pub open spec fn in_reach(p: Point) -> bool {
    &&& -0x2000_0000_0000_0000 <= p.x <= 0x2000_0000_0000_0000
    &&& -0x2000_0000_0000_0000 <= p.y <= 0x2000_0000_0000_0000
}

/// Whether `b` lies along the path from `a` to `c`.
pub fn is_aligned(a: Point, b: Point, c: Point) -> (r: bool)
    requires
        in_reach(a),
        in_reach(b),
        in_reach(c),
    ensures
        r == aligned(a, b, c),
{
    let ux = b.x - a.x;
    let uy = b.y - a.y;
    let vx = c.x - b.x;
    let vy = c.y - b.y;
    assert(-0x1000_0000_0000_0000_0000_0000_0000_0000 <= ux * vy
        <= 0x1000_0000_0000_0000_0000_0000_0000_0000
        && -0x1000_0000_0000_0000_0000_0000_0000_0000 <= uy * vx
        <= 0x1000_0000_0000_0000_0000_0000_0000_0000
        && -0x1000_0000_0000_0000_0000_0000_0000_0000 <= ux * vx
        <= 0x1000_0000_0000_0000_0000_0000_0000_0000
        && -0x1000_0000_0000_0000_0000_0000_0000_0000 <= uy * vy
        <= 0x1000_0000_0000_0000_0000_0000_0000_0000) by (nonlinear_arith)
        requires
            -0x4000_0000_0000_0000 <= ux <= 0x4000_0000_0000_0000,
            -0x4000_0000_0000_0000 <= uy <= 0x4000_0000_0000_0000,
            -0x4000_0000_0000_0000 <= vx <= 0x4000_0000_0000_0000,
            -0x4000_0000_0000_0000 <= vy <= 0x4000_0000_0000_0000,
    ;
    ux * vy - uy * vx == 0 && ux * vx + uy * vy > 0
}

/// Of three vectors `u`, `v`, `w` with `u` and `v` parallel and pointing
/// in one direction, `w` stands to `u` as it stands to `v`: its cross and
/// dot products with the two have the same signs.
proof fn lemma_same_direction(ux: int, uy: int, vx: int, vy: int, wx: int, wy: int)
    requires
        cross(ux, uy, vx, vy) == 0,
        dot(ux, uy, vx, vy) > 0,
    ensures
        cross(ux, uy, wx, wy) == 0 <==> cross(vx, vy, wx, wy) == 0,
        cross(ux, uy, wx, wy) > 0 <==> cross(vx, vy, wx, wy) > 0,
        dot(ux, uy, wx, wy) == 0 <==> dot(vx, vy, wx, wy) == 0,
        dot(ux, uy, wx, wy) > 0 <==> dot(vx, vy, wx, wy) > 0,
{
    let uv = dot(ux, uy, vx, vy);
    let vv = dot(vx, vy, vx, vy);
    let c = cross(ux, uy, vx, vy);
    let cu = cross(ux, uy, wx, wy);
    let cv = cross(vx, vy, wx, wy);
    let du = dot(ux, uy, wx, wy);
    let dv = dot(vx, vy, wx, wy);
    assert(uy * (-wx) == -(uy * wx) && vy * (-wx) == -(vy * wx)) by (nonlinear_arith);
    lemma_scaled(ux, uy, vx, vy, cu, cv, wy, -wx);
    lemma_scaled(ux, uy, vx, vy, du, dv, wx, wy);
    assert(vv > 0) by (nonlinear_arith)
        requires
            ux * vx + uy * vy > 0,
            vv == vx * vx + vy * vy,
    ;
    lemma_same_sign(cu, vv, cv, uv);
    lemma_same_sign(du, vv, dv, uv);
}

/// For parallel vectors `u` and `v`, and `pu` and `pv` their products with
/// one vector `(mx, my)`: `pu` stands to `pv` as `u` stands to `v`.
proof fn lemma_scaled(ux: int, uy: int, vx: int, vy: int, pu: int, pv: int, mx: int, my: int)
    requires
        ux * vy == uy * vx,
        pu == ux * mx + uy * my,
        pv == vx * mx + vy * my,
    ensures
        pu * (vx * vx + vy * vy) == pv * (ux * vx + uy * vy),
{
    assert(vx * pu == ux * pv) by (nonlinear_arith)
        requires
            ux * vy == uy * vx,
            pu == ux * mx + uy * my,
            pv == vx * mx + vy * my,
    {
        assert(vx * (uy * my) == (uy * vx) * my);
        assert((ux * vy) * my == ux * (vy * my));
    }
    assert(vy * pu == uy * pv) by (nonlinear_arith)
        requires
            ux * vy == uy * vx,
            pu == ux * mx + uy * my,
            pv == vx * mx + vy * my,
    {
        assert(vy * (ux * mx) == (ux * vy) * mx);
        assert((uy * vx) * mx == uy * (vx * mx));
    }
    assert(pu * (vx * vx + vy * vy) == vx * (vx * pu) + vy * (vy * pu)) by (nonlinear_arith);
    assert(pv * (ux * vx + uy * vy) == vx * (ux * pv) + vy * (uy * pv)) by (nonlinear_arith);
}

/// Two numbers whose positive multiples are equal have the same sign.
proof fn lemma_same_sign(x: int, p: int, y: int, q: int)
    by (nonlinear_arith)
    requires
        p > 0,
        q > 0,
        x * p == y * q,
    ensures
        x == 0 <==> y == 0,
        x > 0 <==> y > 0,
{
}

/// Where `d` lies along the path from `a` to `c`, the vertex `c` is
/// judged alike after `d` and after `a`.
proof fn lemma_aligned_after(a: Point, d: Point, c: Point, e: Point)
    requires
        aligned(a, d, c),
    ensures
        aligned(d, c, e) == aligned(a, c, e),
{
    let (ux, uy) = (d.x - a.x, d.y - a.y);
    let (vx, vy) = (c.x - d.x, c.y - d.y);
    let (wx, wy) = (e.x - c.x, e.y - c.y);
    lemma_same_direction(ux, uy, vx, vy, wx, wy);
    assert(cross(c.x - a.x, c.y - a.y, wx, wy) == cross(ux, uy, wx, wy) + cross(vx, vy, wx, wy))
        by (nonlinear_arith)
        requires
            c.x - a.x == ux + vx,
            c.y - a.y == uy + vy,
    ;
    assert(dot(c.x - a.x, c.y - a.y, wx, wy) == dot(ux, uy, wx, wy) + dot(vx, vy, wx, wy))
        by (nonlinear_arith)
        requires
            c.x - a.x == ux + vx,
            c.y - a.y == uy + vy,
    ;
}

/// Where `d` lies along the path from `a` to `c`, the vertex `a` is
/// judged alike before `d` and before `c`.
proof fn lemma_aligned_before(z: Point, a: Point, d: Point, c: Point)
    requires
        aligned(a, d, c),
    ensures
        aligned(z, a, d) == aligned(z, a, c),
{
    let (tx, ty) = (a.x - z.x, a.y - z.y);
    let (ux, uy) = (d.x - a.x, d.y - a.y);
    let (vx, vy) = (c.x - d.x, c.y - d.y);
    lemma_same_direction(ux, uy, vx, vy, tx, ty);
    assert(cross(tx, ty, c.x - a.x, c.y - a.y) == -cross(ux, uy, tx, ty) - cross(vx, vy, tx, ty)
        && cross(tx, ty, ux, uy) == -cross(ux, uy, tx, ty)) by (nonlinear_arith)
        requires
            c.x - a.x == ux + vx,
            c.y - a.y == uy + vy,
    ;
    assert(dot(tx, ty, c.x - a.x, c.y - a.y) == dot(ux, uy, tx, ty) + dot(vx, vy, tx, ty) && dot(
        tx,
        ty,
        ux,
        uy,
    ) == dot(ux, uy, tx, ty)) by (nonlinear_arith)
        requires
            c.x - a.x == ux + vx,
            c.y - a.y == uy + vy,
    ;
}

/// The exact judgement is stable: to remove a vertex that lies along the
/// path changes no judgement on its neighbours.  So simplifying a lattice
/// ring with it is idempotent.
pub proof fn lemma_aligned_is_stable()
    ensures
        stable(judgement()),
{
    reveal(stable);
    let along = judgement();
    assert forall|a: Point, d: Point, c: Point, e: Point|
        #![trigger along(a, d, c), along(d, c, e)]
        along(a, d, c) implies along(d, c, e) == along(a, c, e) by {
        lemma_aligned_after(a, d, c, e);
    }
    assert forall|z: Point, a: Point, d: Point, c: Point|
        #![trigger along(a, d, c), along(z, a, d)]
        along(a, d, c) implies along(z, a, d) == along(z, a, c) by {
        lemma_aligned_before(z, a, d, c);
    }
}

/// The vertices `verts` walked round and round.
spec fn walk(verts: Seq<Point>) -> spec_fn(int) -> Point {
    |i: int| around(verts, i)
}

/// A run of aligned vertices does not end where it began: its steps all
/// point in one direction.
proof fn lemma_run_apart(at: spec_fn(int) -> Point, s: int, e: int)
    requires
        s + 2 <= e,
        forall|i: int| s < i < e ==> #[trigger] lies_along(judgement(), at, i),
    ensures
        at(e) != at(s),
{
    lemma_aligned_is_stable();
    assert forall|i: int| s < i < e - 1 implies #[trigger] lies_along(judgement(), at, i) by {}
    lemma_run(judgement(), at, at(s), s, e - 1);
    assert(lies_along(judgement(), at, e - 1));
    let p = at(s);
    let d = at(e - 1);
    let c = at(e);
    assert(aligned(p, d, c));
    if c == p {
        let (ux, uy) = (d.x - p.x, d.y - p.y);
        let (vx, vy) = (c.x - d.x, c.y - d.y);
        assert(dot(ux, uy, vx, vy) <= 0) by (nonlinear_arith)
            requires
                vx == -ux,
                vy == -uy,
        ;
    }
}

/// An open lattice ring stays open when it is simplified by the exact
/// judgement: its first and its last kept vertex are apart.
proof fn lemma_open_stays_open(ring: Seq<Point>)
    requires
        ring.len() >= 3,
        ring.first() != ring.last(),
        retained(ring, decisions(judgement(), ring)).len() >= 2,
    ensures
        retained(ring, decisions(judgement(), ring)).first() != retained(
            ring,
            decisions(judgement(), ring),
        ).last(),
{
    let m = ring.len() as int;
    let dropped = decisions(judgement(), ring);
    let kept = retained(ring, dropped);
    let idx = kept_indices(dropped);
    let k = kept.len() as int;
    let at = walk(ring);
    lemma_kept_indices(ring, dropped);
    let s = idx[k - 1];
    let e = idx[0] + m;
    assert(idx[0] < idx[k - 1]);
    assert(0 <= idx[0] && idx[k - 1] < m);
    lemma_around(judgement(), ring, s);
    lemma_around(judgement(), ring, e);
    assert(at(s) == kept[k - 1]);
    assert(at(e) == kept[0]);
    if s + 2 <= e {
        assert forall|i: int| s < i < e implies #[trigger] lies_along(judgement(), at, i) by {
            lemma_around(judgement(), ring, i);
            assert(judged_around(judgement(), ring, i) == dropped[i % m]);
            if i < m {
                lemma_gap(dropped, k - 1, i);
            } else {
                lemma_gap(dropped, -1, i - m);
            }
        }
        lemma_run_apart(at, s, e);
    } else {
        assert(idx[0] == 0 && idx[k - 1] == m - 1);
    }
}

/// Simplifying a lattice ring by the exact judgement is idempotent: to
/// simplify the simplified ring once more changes nothing, whatever the
/// ring.
pub proof fn lemma_aligned_idempotent(ring: Seq<Point>)
    ensures
        simplified(judgement(), simplified(judgement(), ring)) == simplified(judgement(), ring),
{
    lemma_aligned_is_stable();
    if ring.len() >= 3 && ring.first() != ring.last() && simplified(judgement(), ring).len() >= 3 {
        lemma_open_stays_open(ring);
    }
    lemma_simplified_idempotent(judgement(), ring);
}

/// What the step from `a` to `b` adds to twice the enclosed area.
spec fn wedge(a: Point, b: Point) -> int {
    a.x * b.y - b.x * a.y
}

/// What the steps from `at(lo)` to `at(hi)` add to twice the enclosed
/// area.
spec fn swept(at: spec_fn(int) -> Point, lo: int, hi: int) -> int
    decreases hi - lo,
{
    if hi <= lo {
        0
    } else {
        swept(at, lo, hi - 1) + wedge(at(hi - 1), at(hi))
    }
}

/// The coordinates of `line`, and its first coordinate beyond them.
spec fn looped(line: Seq<Point>) -> spec_fn(int) -> Point {
    |i: int|
        if 0 <= i < line.len() {
            line[i]
        } else {
            line[0]
        }
}

/// The place `by` steps after place `i` of the walk `at`.
spec fn later(at: spec_fn(int) -> Point, by: int, i: int) -> Point {
    at(i + by)
}

/// What is swept from `lo` to `hi` is what is swept from `lo` to `mid`
/// and from there to `hi`.
proof fn lemma_swept_split(at: spec_fn(int) -> Point, lo: int, mid: int, hi: int)
    requires
        lo <= mid <= hi,
    ensures
        swept(at, lo, hi) == swept(at, lo, mid) + swept(at, mid, hi),
    decreases hi - mid,
{
    if mid < hi {
        lemma_swept_split(at, lo, mid, hi - 1);
    }
}

/// A walk that repeats itself after `by` steps sweeps the same `by`
/// steps later.
proof fn lemma_swept_shift(at: spec_fn(int) -> Point, lo: int, hi: int, by: int)
    requires
        forall|i: int| #[trigger] later(at, by, i) == at(i),
    ensures
        swept(at, lo + by, hi + by) == swept(at, lo, hi),
    decreases hi - lo,
{
    if lo < hi {
        let first = at(hi - 1);
        let second = at(hi);
        assert(later(at, by, hi - 1) == first);
        assert(later(at, by, hi) == second);
        assert(at(hi - 1 + by) == first);
        assert(at(hi + by) == second);
        assert(swept(at, lo + by, hi + by) == swept(at, lo + by, hi + by - 1) + wedge(
            at(hi + by - 1),
            at(hi + by),
        ));
        assert(swept(at, lo, hi) == swept(at, lo, hi - 1) + wedge(first, second));
        lemma_swept_shift(at, lo, hi - 1, by);
        assert(swept(at, lo + by, hi - 1 + by) == swept(at, lo, hi - 1));
    } else {
        assert(swept(at, lo + by, hi + by) == 0);
        assert(swept(at, lo, hi) == 0);
    }
}

/// Twice the area of the first `upto + 1` coordinates of `line` is what
/// their steps add up to.
proof fn lemma_area_swept(line: Seq<Point>, at: spec_fn(int) -> Point, upto: int)
    requires
        0 <= upto < line.len(),
        forall|i: int| 0 <= i <= upto ==> #[trigger] at(i) == line[i],
    ensures
        twice_area(line.take(upto + 1)) == swept(at, 0, upto),
    decreases upto,
{
    if upto > 0 {
        lemma_area_swept(line, at, upto - 1);
        assert(line.take(upto + 1).drop_last() =~= line.take(upto));
        assert(at(upto - 1) == line[upto - 1]);
        assert(at(upto) == line[upto]);
    }
}

/// Along a run of aligned vertices the steps add to the area what the
/// one step from the start of the run to its end adds.
proof fn lemma_swept_run(at: spec_fn(int) -> Point, s: int, e: int)
    requires
        s < e,
        forall|i: int| s < i < e ==> #[trigger] lies_along(judgement(), at, i),
    ensures
        swept(at, s, e) == wedge(at(s), at(e)),
    decreases e - s,
{
    if s + 1 < e {
        lemma_swept_run(at, s, e - 1);
        lemma_aligned_is_stable();
        lemma_run(judgement(), at, at(s), s, e - 1);
        let a = at(s);
        let d = at(e - 1);
        let c = at(e);
        assert(lies_along(judgement(), at, e - 1));
        assert(aligned(at(e - 2), d, c));
        assert(aligned(a, d, c));
        assert(wedge(a, d) + wedge(d, c) == wedge(a, c) + ((d.x - a.x) * (c.y - d.y) - (d.y - a.y)
            * (c.x - d.x))) by (nonlinear_arith)
            requires
                wedge(a, d) == a.x * d.y - d.x * a.y,
                wedge(d, c) == d.x * c.y - c.x * d.y,
                wedge(a, c) == a.x * c.y - c.x * a.y,
        ;
    } else {
        assert(swept(at, s, s) == 0);
    }
}

/// The steps between the kept vertices add to the area what the steps of
/// all vertices between them add.
proof fn lemma_swept_kept(verts: Seq<Point>, j: int)
    requires
        verts.len() >= 2,
        0 <= j <= retained(verts, decisions(judgement(), verts)).len(),
        retained(verts, decisions(judgement(), verts)).len() >= 1,
    ensures
        ({
            let kept = retained(verts, decisions(judgement(), verts));
            let idx = kept_indices(decisions(judgement(), verts));
            let to = if j < kept.len() {
                idx[j]
            } else {
                idx[0] + verts.len()
            };
            swept(walk(verts), idx[0], to) == swept(looped(kept), 0, j)
        }),
    decreases j,
{
    let m = verts.len() as int;
    let dropped = decisions(judgement(), verts);
    let kept = retained(verts, dropped);
    let idx = kept_indices(dropped);
    let k = kept.len() as int;
    let at = walk(verts);
    lemma_kept_indices(verts, dropped);
    if j > 0 {
        lemma_swept_kept(verts, j - 1);
        let from = idx[j - 1];
        let to = if j < k {
            idx[j]
        } else {
            idx[0] + m
        };
        assert(0 <= idx[0] < m && 0 <= from < m);
        if 0 < j - 1 {
            assert(idx[0] < idx[j - 1]);
        }
        if j < k {
            assert(idx[j - 1] < idx[j]);
        }
        assert(idx[0] <= from < to);
        assert forall|i: int| from < i < to implies #[trigger] lies_along(judgement(), at, i) by {
            lemma_around(judgement(), verts, i);
            assert(judged_around(judgement(), verts, i) == dropped[i % m]);
            if j < k {
                lemma_gap(dropped, j - 1, i);
            } else if i < m {
                lemma_gap(dropped, k - 1, i);
            } else {
                lemma_gap(dropped, -1, i - m);
            }
        }
        lemma_swept_run(at, from, to);
        lemma_swept_split(at, idx[0], from, to);
        lemma_around(judgement(), verts, from);
        lemma_around(judgement(), verts, to);
        lemma_around(judgement(), verts, idx[0]);
        assert(at(from) == kept[j - 1]);
        assert(at(to) == (looped(kept))(j));
        assert((looped(kept))(j - 1) == kept[j - 1]);
    } else {
        assert(swept(at, idx[0], idx[0]) == 0);
    }
}

/// The vertices `verts`, with the first repeated at the end, enclose
/// what a walk once round them sweeps.
proof fn lemma_ring_area(verts: Seq<Point>)
    requires
        verts.len() >= 2,
    ensures
        twice_area(verts.push(verts[0])) == swept(walk(verts), 0, verts.len() as int),
        walk(verts)(0) == walk(verts)(verts.len() as int),
{
    let m = verts.len() as int;
    let at = walk(verts);
    let ring = verts.push(verts[0]);
    assert forall|i: int| 0 <= i <= m implies #[trigger] at(i) == ring[i] by {
        lemma_around(judgement(), verts, i);
        lemma_around(judgement(), verts, 0);
    }
    lemma_area_swept(ring, at, m);
    assert(ring.take(m + 1) =~= ring);
}

/// A walk once round the vertices sweeps the same wherever it starts.
proof fn lemma_walk_from(verts: Seq<Point>, first: int)
    requires
        verts.len() >= 2,
        0 <= first < verts.len(),
    ensures
        swept(walk(verts), first, first + verts.len()) == swept(
            walk(verts),
            0,
            verts.len() as int,
        ),
{
    let m = verts.len() as int;
    let at = walk(verts);
    assert forall|i: int| #[trigger] later(at, m, i) == at(i) by {
        vstd::arithmetic::div_mod::lemma_mod_add_multiples_vanish(i, m);
        assert((i + m) % m == i % m);
    }
    lemma_swept_split(at, 0, first, m);
    lemma_swept_split(at, first, m, first + m);
    lemma_swept_shift(at, 0, first, m);
}

/// The kept vertices enclose what the steps from each to the next and
/// from the last to the first sweep, whether their first is repeated at
/// the end or the ring is closed where it is open.
proof fn lemma_kept_area(kept: Seq<Point>)
    requires
        kept.len() >= 1,
    ensures
        twice_area(closed(kept)) == swept(looped(kept), 0, kept.len() as int),
        twice_area(rejoined(kept)) == swept(looped(kept), 0, kept.len() as int),
{
    let k = kept.len() as int;
    let again = kept.push(kept[0]);
    assert forall|i: int| 0 <= i <= k implies #[trigger] (looped(kept))(i) == again[i] by {}
    lemma_area_swept(again, looped(kept), k);
    assert(again.take(k + 1) =~= again);
    if kept.first() == kept.last() {
        assert(closed(kept) == kept);
        assert forall|i: int| 0 <= i <= k - 1 implies #[trigger] (looped(kept))(i) == kept[i] by {}
        lemma_area_swept(kept, looped(kept), k - 1);
        assert(kept.take(k) =~= kept);
        assert((looped(kept))(k) == kept[0]);
        assert((looped(kept))(k - 1) == kept[k - 1]);
        assert(wedge(kept[k - 1], kept[0]) == 0) by (nonlinear_arith)
            requires
                kept[k - 1] == kept[0],
                wedge(kept[k - 1], kept[0]) == kept[k - 1].x * kept[0].y - kept[0].x * kept[k
                    - 1].y,
        ;
    }
}

/// Vertices of which none is kept enclose nothing.
proof fn lemma_nothing_kept(verts: Seq<Point>)
    requires
        verts.len() >= 2,
        retained(verts, decisions(judgement(), verts)).len() == 0,
    ensures
        swept(walk(verts), 0, verts.len() as int) == 0,
{
    let m = verts.len() as int;
    let dropped = decisions(judgement(), verts);
    let at = walk(verts);
    lemma_kept_indices(verts, dropped);
    lemma_ring_area(verts);
    assert forall|i: int| 0 < i < m implies #[trigger] lies_along(judgement(), at, i) by {
        lemma_around(judgement(), verts, i);
        assert(judged_around(judgement(), verts, i) == dropped[i % m]);
        lemma_gap(dropped, -1, i);
    }
    lemma_swept_run(at, 0, m);
    assert(wedge(at(0), at(m)) == 0) by (nonlinear_arith)
        requires
            at(0) == at(m),
            wedge(at(0), at(m)) == at(0).x * at(m).y - at(m).x * at(0).y,
    ;
}

/// The kept vertices sweep what all vertices sweep.
proof fn lemma_kept_sweep(verts: Seq<Point>)
    requires
        verts.len() >= 2,
    ensures
        ({
            let kept = retained(verts, decisions(judgement(), verts));
            &&& twice_area(closed(kept)) == swept(walk(verts), 0, verts.len() as int)
            &&& twice_area(rejoined(kept)) == swept(walk(verts), 0, verts.len() as int)
        }),
{
    let dropped = decisions(judgement(), verts);
    let kept = retained(verts, dropped);
    if kept.len() == 0 {
        lemma_nothing_kept(verts);
        assert(closed(kept) == kept);
        assert(twice_area(kept) == 0);
    } else {
        lemma_kept_indices(verts, dropped);
        lemma_walk_from(verts, kept_indices(dropped)[0]);
        lemma_swept_kept(verts, kept.len() as int);
        lemma_kept_area(kept);
    }
}

/// Simplifying a lattice ring by the exact judgement keeps the area that
/// the ring encloses.  For a closed ring this is the area of the ring as
/// it is given and as it comes back; an open ring is closed for it by its
/// first vertex.
pub proof fn lemma_aligned_keeps_area(ring: Seq<Point>)
    ensures
        twice_area(closed(simplified(judgement(), ring))) == twice_area(closed(ring)),
        ring.len() >= 3 && ring.first() == ring.last() ==> twice_area(
            simplified(judgement(), ring),
        ) == twice_area(ring),
{
    if ring.len() >= 3 {
        if ring.first() == ring.last() {
            let verts = ring.drop_last();
            assert(ring =~= verts.push(verts[0]));
            lemma_ring_area(verts);
            lemma_kept_sweep(verts);
            let once = simplified(judgement(), ring);
            assert(closed(once) == once);
        } else {
            lemma_ring_area(ring);
            lemma_kept_sweep(ring);
        }
    }
}

} // verus!
