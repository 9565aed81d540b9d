//! Removal of the vertices of a ring that lie along its path.
//!
//! A ring is given as a line of coordinates.  It is closed where its last
//! coordinate repeats the first; the vertices are then the coordinates but
//! the last.  It is open otherwise, and every coordinate is a vertex.  In
//! both forms the neighbours of a vertex are taken around the ring: the
//! vertex before the first one is the last vertex.
//!
//! Whether a vertex lies along the path from its predecessor to its
//! successor is decided by a judgement that the caller supplies, and so is
//! whether two coordinates are the same.  Which triples are put to the
//! judgement, which vertices are kept, and that the ring comes back in
//! the form in which it was given, is decided here.

use vstd::arithmetic::div_mod::{
    lemma_add_mod_noop, lemma_mod_add_multiples_vanish, lemma_mod_bound,
    lemma_mod_sub_multiples_vanish, lemma_small_mod, lemma_sub_mod_noop,
};
use vstd::prelude::*;

verus! {

/// The index of the vertex before vertex `i` among `m` vertices, around
/// the ring.
pub open spec fn before(m: int, i: int) -> int {
    if i == 0 {
        m - 1
    } else {
        i - 1
    }
}

/// The index of the vertex after vertex `i` among `m` vertices, around
/// the ring.
pub open spec fn after(m: int, i: int) -> int {
    if i == m - 1 {
        0
    } else {
        i + 1
    }
}

/// The coordinates `line[i]`, for `i` below `dropped.len()`, that are not
/// marked in `dropped`, in their order.
pub open spec fn retained<P>(line: Seq<P>, dropped: Seq<bool>) -> Seq<P>
    decreases dropped.len(),
{
    if dropped.len() == 0 {
        Seq::empty()
    } else {
        let rest = retained(line, dropped.drop_last());
        if dropped.last() {
            rest
        } else {
            rest.push(line[dropped.len() - 1])
        }
    }
}

/// Vertex `i` of `verts` between its predecessor and its successor around
/// the ring.
pub open spec fn triple<P>(verts: Seq<P>, i: int) -> (P, P, P) {
    (verts[before(verts.len() as int, i)], verts[i], verts[after(verts.len() as int, i)])
}

/// For each of the vertices `verts`, whether `along` holds of its
/// predecessor, itself and its successor around the ring.
pub open spec fn decisions<P>(along: spec_fn(P, P, P) -> bool, verts: Seq<P>) -> Seq<bool> {
    Seq::new(
        verts.len(),
        |i: int| along(triple(verts, i).0, triple(verts, i).1, triple(verts, i).2),
    )
}

/// The kept vertices `kept` as a closed ring: the first of them is
/// repeated at the end.
pub open spec fn rejoined<P>(kept: Seq<P>) -> Seq<P> {
    if kept.len() > 0 {
        kept.push(kept[0])
    } else {
        kept
    }
}

/// The ring `line`, judged as closed or as open, with its vertices
/// retained as `dropped` marks them, in the form in which it was judged.
pub open spec fn outcome<P>(line: Seq<P>, is_closed: bool, dropped: Seq<bool>) -> Seq<P> {
    if is_closed {
        rejoined(retained(line.drop_last(), dropped))
    } else {
        retained(line, dropped)
    }
}

/// The ring `line` without the vertices that lie along its path according
/// to `along`.  A closed ring comes back closed, an open ring open.  A
/// line of fewer than three coordinates is left as it is.
pub open spec fn simplified<P>(along: spec_fn(P, P, P) -> bool, line: Seq<P>) -> Seq<P> {
    if line.len() < 3 {
        line
    } else if line.first() == line.last() {
        outcome(line, true, decisions(along, line.drop_last()))
    } else {
        outcome(line, false, decisions(along, line))
    }
}

/// `along_path` answers as `along` does.
pub open spec fn decides<P, F: Fn(P, P, P) -> bool>(
    along_path: F,
    along: spec_fn(P, P, P) -> bool,
) -> bool {
    forall|a: P, b: P, c: P, d: bool| #[trigger]
        along_path.ensures((a, b, c), d) ==> d == along(a, b, c)
}

/// `same` says of two coordinates whether they are equal.
pub open spec fn tells_equal<P, E: Fn(P, P) -> bool>(same: E) -> bool {
    forall|a: P, b: P, c: bool| #[trigger] same.ensures((a, b), c) ==> c == (a == b)
}

/// `along_path` admits every vertex of `verts` with its neighbours around
/// the ring.
pub open spec fn judges<P, F: Fn(P, P, P) -> bool>(along_path: F, verts: Seq<P>) -> bool {
    forall|i: int| 0 <= i < verts.len() ==> along_path.requires(#[trigger] triple(verts, i))
}

/// `dropped` holds an answer of `along_path` for every vertex of `verts`
/// with its neighbours around the ring.
pub open spec fn judged<P, F: Fn(P, P, P) -> bool>(
    along_path: F,
    verts: Seq<P>,
    dropped: Seq<bool>,
) -> bool {
    &&& dropped.len() == verts.len()
    &&& forall|i: int|
        0 <= i < dropped.len() ==> along_path.ensures(triple(verts, i), #[trigger] dropped[i])
}

/// Two markings that agree give the same retained coordinates.
proof fn lemma_retained_ext<P>(line: Seq<P>, d1: Seq<bool>, d2: Seq<bool>)
    requires
        d1.len() == d2.len(),
        forall|i: int| 0 <= i < d1.len() ==> d1[i] == d2[i],
    ensures
        retained(line, d1) == retained(line, d2),
{
    assert(d1 =~= d2);
}

/// Retaining from a line only looks at the coordinates that are marked
/// or not.
proof fn lemma_retained_prefix<P>(line: Seq<P>, other: Seq<P>, dropped: Seq<bool>)
    requires
        dropped.len() <= line.len(),
        dropped.len() <= other.len(),
        forall|i: int| 0 <= i < dropped.len() ==> line[i] == other[i],
    ensures
        retained(line, dropped) == retained(other, dropped),
    decreases dropped.len(),
{
    if dropped.len() > 0 {
        lemma_retained_prefix(line, other, dropped.drop_last());
    }
}

/// Removes from the ring `line` every vertex that lies along the path from
/// its predecessor to its successor, as `along_path` judges it.
///
/// Where `same` finds the last coordinate to repeat the first, the ring is
/// closed: its vertices are the coordinates but the last, and the result
/// is closed again by repeating its first vertex.  Otherwise the ring is
/// open, every coordinate is a vertex, and the result is open.  Each
/// vertex is judged once, with its neighbours around the ring as it was
/// given.  A line of fewer than three coordinates is returned unchanged.
pub fn removed_in_line<P: Copy, F: Fn(P, P, P) -> bool, E: Fn(P, P) -> bool>(
    line: &Vec<P>,
    along_path: F,
    same: E,
) -> (kept: Vec<P>)
    requires
        line@.len() >= 3 ==> same.requires((line@.first(), line@.last())),
        line@.len() >= 3 ==> forall|is_closed: bool| #[trigger]
            same.ensures((line@.first(), line@.last()), is_closed) ==> judges(
                along_path,
                if is_closed {
                    line@.drop_last()
                } else {
                    line@
                },
            ),
    ensures
        line@.len() < 3 ==> kept@ == line@,
        line@.len() >= 3 ==> exists|is_closed: bool, dropped: Seq<bool>|
            {
                &&& same.ensures((line@.first(), line@.last()), is_closed)
                &&& judged(
                    along_path,
                    if is_closed {
                        line@.drop_last()
                    } else {
                        line@
                    },
                    dropped,
                )
                &&& kept@ == #[trigger] outcome(line@, is_closed, dropped)
            },
        forall|along: spec_fn(P, P, P) -> bool|
            decides(along_path, along) && tells_equal(same) ==> kept@ == #[trigger] simplified(
                along,
                line@,
            ),
        kept@.len() <= line@.len(),
        forall|k: int| 0 <= k < kept@.len() ==> line@.contains(#[trigger] kept@[k]),
{
    let n = line.len();
    let mut kept: Vec<P> = Vec::new();
    if n < 3 {
        let mut i: usize = 0;
        while i < n
            invariant
                n == line@.len(),
                i <= n,
                kept@ == line@.take(i as int),
            decreases n - i,
        {
            kept.push(line[i]);
            i += 1;
        }
        assert(line@.take(n as int) =~= line@);
        return kept;
    }
    let is_closed = same(line[0], line[n - 1]);
    let m = if is_closed {
        n - 1
    } else {
        n
    };
    let ghost verts = if is_closed {
        line@.drop_last()
    } else {
        line@
    };
    let ghost mut dropped: Seq<bool> = Seq::empty();
    let mut i: usize = 0;
    while i < m
        invariant
            n == line@.len(),
            n >= 3,
            2 <= m <= n,
            verts.len() == m,
            forall|j: int| 0 <= j < m ==> verts[j] == line@[j],
            judges(along_path, verts),
            i <= m,
            dropped.len() == i,
            forall|j: int|
                0 <= j < i ==> along_path.ensures(triple(verts, j), #[trigger] dropped[j]),
            kept@ == retained(verts, dropped),
        decreases m - i,
    {
        let a = if i == 0 {
            line[m - 1]
        } else {
            line[i - 1]
        };
        let b = line[i];
        let c = if i == m - 1 {
            line[0]
        } else {
            line[i + 1]
        };
        assert((a, b, c) == triple(verts, i as int));
        let along = along_path(a, b, c);
        proof {
            let next = dropped.push(along);
            assert(next.drop_last() =~= dropped);
            dropped = next;
        }
        if !along {
            kept.push(b);
        }
        i += 1;
    }
    let ghost inner = kept@;
    proof {
        lemma_kept_indices(verts, dropped);
        assert forall|k: int| 0 <= k < inner.len() implies line@.contains(#[trigger] inner[k]) by {
            assert(line@[kept_indices(dropped)[k]] == inner[k]);
        }
    }
    if is_closed && kept.len() > 0 {
        let first = kept[0];
        kept.push(first);
    }
    proof {
        if is_closed {
            lemma_retained_prefix(verts, line@.drop_last(), dropped);
        }
        assert(kept@ == outcome(line@, is_closed, dropped));
        assert(judged(along_path, verts, dropped));
        assert forall|along: spec_fn(P, P, P) -> bool|
            decides(along_path, along) && tells_equal(same) implies kept@ == #[trigger] simplified(
            along,
            line@,
        ) by {
            lemma_retained_ext(verts, dropped, decisions(along, verts));
        }
        assert forall|k: int| 0 <= k < kept@.len() implies line@.contains(#[trigger] kept@[k]) by {
            if k < inner.len() {
                assert(kept@[k] == inner[k]);
            } else {
                assert(kept@[k] == inner[0]);
            }
        }
    }
    kept
}

/// The ring `ring` closed: its first coordinate is appended, unless the
/// ring is empty or ends with that coordinate already.
pub open spec fn closed<P>(ring: Seq<P>) -> Seq<P> {
    if ring.len() > 0 && ring.first() != ring.last() {
        ring.push(ring.first())
    } else {
        ring
    }
}

/// To remove a vertex that lies along the path changes no judgement on a
/// neighbour of it: where `d` lies along the path from `a` to `c`, the
/// vertex `c` is judged alike after `d` and after `a`, and the vertex `a`
/// is judged alike before `d` and before `c`.
#[verifier::opaque]
pub open spec fn stable<P>(along: spec_fn(P, P, P) -> bool) -> bool {
    &&& forall|a: P, d: P, c: P, e: P|
        #![trigger along(a, d, c), along(d, c, e)]
        along(a, d, c) ==> along(d, c, e) == along(a, c, e)
    &&& forall|z: P, a: P, d: P, c: P|
        #![trigger along(a, d, c), along(z, a, d)]
        along(a, d, c) ==> along(z, a, d) == along(z, a, c)
}

/// The indices below `dropped.len()` that are not marked, in their order.
pub(crate) closed spec fn kept_indices(dropped: Seq<bool>) -> Seq<int>
    decreases dropped.len(),
{
    if dropped.len() == 0 {
        Seq::empty()
    } else {
        let rest = kept_indices(dropped.drop_last());
        if dropped.last() {
            rest
        } else {
            rest.push(dropped.len() - 1)
        }
    }
}

/// The retained coordinates are those at the kept indices, which are
/// all the indices that are not marked, in rising order.
pub(crate) proof fn lemma_kept_indices<P>(line: Seq<P>, dropped: Seq<bool>)
    ensures
        kept_indices(dropped).len() == retained(line, dropped).len(),
        retained(line, dropped).len() <= dropped.len(),
        forall|j: int|
            0 <= j < kept_indices(dropped).len() ==> {
                &&& 0 <= (#[trigger] kept_indices(dropped)[j]) < dropped.len()
                &&& !dropped[kept_indices(dropped)[j]]
                &&& retained(line, dropped)[j] == line[kept_indices(dropped)[j]]
            },
        forall|j: int, k: int|
            0 <= j < k < kept_indices(dropped).len() ==> (#[trigger] kept_indices(dropped)[j]) < (
            #[trigger] kept_indices(dropped)[k]),
        forall|i: int|
            0 <= i < dropped.len() && !(#[trigger] dropped[i]) ==> exists|j: int|
                0 <= j < kept_indices(dropped).len() && #[trigger] kept_indices(dropped)[j] == i,
    decreases dropped.len(),
{
    if dropped.len() > 0 {
        let front = dropped.drop_last();
        lemma_kept_indices(line, front);
        let idx = kept_indices(dropped);
        assert forall|i: int| 0 <= i < dropped.len() && !(#[trigger] dropped[i]) implies exists|
            j: int,
        |
            0 <= j < idx.len() && #[trigger] idx[j] == i by {
            if i < front.len() {
                assert(!front[i]);
                let j = choose|j: int|
                    0 <= j < kept_indices(front).len() && #[trigger] kept_indices(front)[j] == i;
                assert(idx[j] == i);
            } else {
                assert(idx[idx.len() - 1] == i);
            }
        }
    }
}

/// With no coordinate marked, the first `dropped.len()` coordinates are
/// retained.
proof fn lemma_retained_all<P>(line: Seq<P>, dropped: Seq<bool>)
    requires
        dropped.len() <= line.len(),
        forall|i: int| 0 <= i < dropped.len() ==> !dropped[i],
    ensures
        retained(line, dropped) == line.take(dropped.len() as int),
    decreases dropped.len(),
{
    if dropped.len() > 0 {
        lemma_retained_all(line, dropped.drop_last());
        assert(line.take(dropped.len() as int) =~= line.take(dropped.len() - 1).push(
            line[dropped.len() - 1],
        ));
    } else {
        assert(line.take(0) =~= Seq::<P>::empty());
    }
}

/// The vertex at place `i` of the walk `at` lies along the path from the
/// place before it to the place after it.
pub(crate) open spec fn lies_along<P>(
    along: spec_fn(P, P, P) -> bool,
    at: spec_fn(int) -> P,
    i: int,
) -> bool {
    along(at(i - 1), at(i), at(i + 1))
}

/// Along a run of vertices `at(s + 1)`, ..., `at(e - 1)` that all lie
/// along the path, the vertices `at(s)` and `at(e)` at its ends are
/// judged as if the run were not there.
pub(crate) proof fn lemma_run<P>(
    along: spec_fn(P, P, P) -> bool,
    at: spec_fn(int) -> P,
    z: P,
    s: int,
    e: int,
)
    requires
        stable(along),
        s < e,
        forall|i: int| s < i < e ==> #[trigger] lies_along(along, at, i),
    ensures
        along(z, at(s), at(s + 1)) == along(z, at(s), at(e)),
        along(at(s), at(e), at(e + 1)) == along(at(e - 1), at(e), at(e + 1)),
    decreases e - s,
{
    reveal(stable);
    if s + 1 < e {
        lemma_run(along, at, z, s, e - 1);
        let a = at(s);
        let d = at(e - 1);
        let c = at(e);
        assert(lies_along(along, at, e - 1));
        assert(along(at(e - 2), d, c));
        assert(along(a, d, c));
        assert(along(d, c, at(e + 1)) == along(a, c, at(e + 1)));
        assert(along(z, a, d) == along(z, a, c));
    }
}

/// Every index strictly between two neighbouring kept indices is marked.
/// `j` is the place of the kept index before `i`, or `-1` where there is
/// none.
pub(crate) proof fn lemma_gap(dropped: Seq<bool>, j: int, i: int)
    requires
        -1 <= j < kept_indices(dropped).len(),
        0 <= i < dropped.len(),
        j >= 0 ==> kept_indices(dropped)[j] < i,
        j + 1 < kept_indices(dropped).len() ==> i < kept_indices(dropped)[j + 1],
    ensures
        dropped[i],
{
    let idx = kept_indices(dropped);
    lemma_kept_indices(Seq::<int>::empty(), dropped);
    if !dropped[i] {
        let j2 = choose|j2: int| 0 <= j2 < idx.len() && #[trigger] idx[j2] == i;
        if j2 <= j {
            if j2 < j {
                assert(idx[j2] < idx[j]);
            }
        } else {
            if j + 1 < j2 {
                assert(idx[j + 1] < idx[j2]);
            }
        }
    }
}

/// The vertex at place `i` of the vertices `verts` walked round and
/// round.
pub(crate) open spec fn around<P>(verts: Seq<P>, i: int) -> P {
    verts[i % (verts.len() as int)]
}

/// How the vertex at place `i` of the vertices walked round and round is
/// judged.
pub(crate) open spec fn judged_around<P>(
    along: spec_fn(P, P, P) -> bool,
    verts: Seq<P>,
    i: int,
) -> bool {
    along(around(verts, i - 1), around(verts, i), around(verts, i + 1))
}

/// Place `i` of the walk is the vertex `i` modulo the number of vertices,
/// and is judged as that vertex is.
pub(crate) proof fn lemma_around<P>(along: spec_fn(P, P, P) -> bool, verts: Seq<P>, i: int)
    requires
        verts.len() >= 2,
    ensures
        0 <= i % (verts.len() as int) < verts.len(),
        0 <= i < verts.len() ==> i % (verts.len() as int) == i,
        -verts.len() <= i < 0 ==> i % (verts.len() as int) == i + verts.len(),
        verts.len() <= i < 2 * verts.len() ==> i % (verts.len() as int) == i - verts.len(),
        around(verts, i) == verts[i % (verts.len() as int)],
        judged_around(along, verts, i) == decisions(along, verts)[i % (verts.len() as int)],
{
    let m = verts.len() as int;
    let i0 = i % m;
    lemma_mod_bound(i, m);
    lemma_small_mod(i0 as nat, m as nat);
    lemma_small_mod(1, m as nat);
    lemma_add_mod_noop(i, 1, m);
    lemma_sub_mod_noop(i, 1, m);
    if 0 <= i < m {
        lemma_small_mod(i as nat, m as nat);
    }
    if -m <= i < 0 {
        lemma_mod_add_multiples_vanish(i, m);
        lemma_small_mod((i + m) as nat, m as nat);
    }
    if m <= i < 2 * m {
        lemma_mod_sub_multiples_vanish(i, m);
        lemma_small_mod((i - m) as nat, m as nat);
    }
    // the neighbours of place `i` are the neighbours of vertex `i0`
    assert((i + 1) % m == (i0 + 1) % m);
    assert((i - 1) % m == (i0 - 1) % m);
    if i0 + 1 < m {
        lemma_small_mod((i0 + 1) as nat, m as nat);
    } else {
        lemma_mod_sub_multiples_vanish(m, m);
        lemma_small_mod(0, m as nat);
        assert((i0 + 1) % m == 0);
    }
    if i0 > 0 {
        lemma_small_mod((i0 - 1) as nat, m as nat);
    } else {
        lemma_mod_add_multiples_vanish(-1, m);
        lemma_small_mod((m - 1) as nat, m as nat);
        assert((i0 - 1) % m == m - 1);
    }
    assert((i + 1) % m == after(m, i0));
    assert((i - 1) % m == before(m, i0));
}

/// A vertex that is kept is kept again when the kept vertices are judged
/// once more: among them it is judged as it was among all vertices.
proof fn lemma_kept_stays<P>(along: spec_fn(P, P, P) -> bool, verts: Seq<P>, j: int)
    requires
        stable(along),
        verts.len() >= 2,
        retained(verts, decisions(along, verts)).len() >= 2,
        0 <= j < retained(verts, decisions(along, verts)).len(),
    ensures
        !decisions(along, retained(verts, decisions(along, verts)))[j],
{
    let m = verts.len() as int;
    let dropped = decisions(along, verts);
    let kept = retained(verts, dropped);
    let idx = kept_indices(dropped);
    let k = kept.len() as int;
    lemma_kept_indices(verts, dropped);
    let c = idx[j];
    let s = if j > 0 {
        idx[j - 1]
    } else {
        idx[k - 1] - m
    };
    let e = if j < k - 1 {
        idx[j + 1]
    } else {
        idx[0] + m
    };
    assert(0 <= idx[0] < m && 0 <= idx[k - 1] < m && 0 <= c < m);
    if j > 0 {
        assert(idx[j - 1] < idx[j]);
    }
    if j < k - 1 {
        assert(idx[j] < idx[j + 1]);
    }
    if 0 < k - 1 {
        assert(idx[0] < idx[k - 1]);
    }
    if 0 < j {
        assert(idx[0] < idx[j]);
    }
    if j < k - 1 {
        assert(idx[j] < idx[k - 1]);
    }
    assert(s < c < e);
    let at = |i: int| around(verts, i);
    lemma_around(along, verts, c);
    lemma_around(along, verts, s);
    lemma_around(along, verts, e);
    assert(at(c) == kept[j]);
    assert(at(s) == kept[before(k, j)]);
    assert(at(e) == kept[after(k, j)]);
    assert forall|i: int| s < i < c implies #[trigger] lies_along(along, at, i) by {
        lemma_around(along, verts, i);
        assert(judged_around(along, verts, i) == dropped[i % m]);
        if j > 0 {
            lemma_gap(dropped, j - 1, i);
        } else if i >= 0 {
            lemma_gap(dropped, -1, i);
        } else {
            lemma_gap(dropped, k - 1, i + m);
        }
    }
    assert forall|i: int| c < i < e implies #[trigger] lies_along(along, at, i) by {
        lemma_around(along, verts, i);
        assert(judged_around(along, verts, i) == dropped[i % m]);
        if j < k - 1 {
            lemma_gap(dropped, j, i);
        } else if i < m {
            lemma_gap(dropped, k - 1, i);
        } else {
            lemma_gap(dropped, -1, i - m);
        }
    }
    lemma_run(along, at, at(s), c, e);
    lemma_run(along, at, at(s), s, c);
    assert(judged_around(along, verts, c) == dropped[c]);
    assert(!dropped[c]);
    assert(along(at(s), at(c), at(e)) == along(at(c - 1), at(c), at(c + 1)));
    assert(decisions(along, kept)[j] == along(at(s), at(c), at(e)));
}

/// The vertices that are kept are all kept when they are judged once
/// more.
proof fn lemma_kept_again<P>(along: spec_fn(P, P, P) -> bool, verts: Seq<P>)
    requires
        stable(along),
        verts.len() >= 2,
        retained(verts, decisions(along, verts)).len() >= 2,
    ensures
        ({
            let kept = retained(verts, decisions(along, verts));
            retained(kept, decisions(along, kept)) == kept
        }),
{
    let kept = retained(verts, decisions(along, verts));
    let again = decisions(along, kept);
    assert forall|j: int| 0 <= j < again.len() implies !(#[trigger] again[j]) by {
        lemma_kept_stays(along, verts, j);
    }
    lemma_retained_all(kept, again);
    assert(kept.take(kept.len() as int) =~= kept);
}

/// Simplifying is idempotent: to simplify a simplified ring once more
/// changes nothing.
///
/// This holds of every closed ring, and of every open ring whose
/// simplified ring does not begin and end with one point, as is so where
/// the ring visits no point twice.  The judgement is to be [`stable`].
pub proof fn lemma_simplified_idempotent<P>(along: spec_fn(P, P, P) -> bool, ring: Seq<P>)
    requires
        stable(along),
        ring.len() >= 3 && ring.first() != ring.last() && simplified(along, ring).len() >= 3
            ==> simplified(along, ring).first() != simplified(along, ring).last(),
    ensures
        simplified(along, simplified(along, ring)) == simplified(along, ring),
{
    if ring.len() >= 3 {
        if ring.first() == ring.last() {
            let verts = ring.drop_last();
            let kept = retained(verts, decisions(along, verts));
            if kept.len() >= 2 {
                let once = kept.push(kept[0]);
                assert(once.drop_last() =~= kept);
                lemma_kept_again(along, verts);
            }
        } else {
            let kept = retained(ring, decisions(along, ring));
            if kept.len() >= 3 {
                lemma_kept_again(along, ring);
            }
        }
    }
}

} // verus!
