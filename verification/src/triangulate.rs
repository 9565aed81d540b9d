//! Gathering the triangles of all polygons of a level.
//!
//! The triangulation of one polygon is the caller's; it may fail.  A level
//! has either the triangles of all its polygons or none: the first failure
//! ends the work.

use vstd::prelude::*;

verus! {

/// The items of all `parts`, one part after the other.
pub open spec fn joined<Tri>(parts: Seq<Vec<Tri>>) -> Seq<Tri>
    decreases parts.len(),
{
    if parts.len() == 0 {
        Seq::empty()
    } else {
        joined(parts.drop_last()) + parts.last()@
    }
}

/// Triangulates the polygons one after the other and gathers their
/// triangles in that order.  The first polygon that `triangulate` fails on
/// ends the work with its error.  No polygon gives no triangle.
pub fn triangulate_all<P, Tri, E, F: Fn(&P) -> Result<Vec<Tri>, E>>(
    polygons: &Vec<P>,
    triangulate: F,
) -> (r: Result<Vec<Tri>, E>)
    requires
        forall|i: int|
            0 <= i < polygons@.len() ==> triangulate.requires((&#[trigger] polygons@[i],)),
    ensures
        match r {
            Ok(triangles) => exists|parts: Seq<Vec<Tri>>|
                {
                    &&& parts.len() == polygons@.len()
                    &&& forall|i: int|
                        0 <= i < parts.len() ==> triangulate.ensures(
                            (&polygons@[i],),
                            Ok::<Vec<Tri>, E>(#[trigger] parts[i]),
                        )
                    &&& triangles@ == joined(parts)
                },
            Err(e) => exists|parts: Seq<Vec<Tri>>|
                {
                    &&& parts.len() < polygons@.len()
                    &&& forall|i: int|
                        0 <= i < parts.len() ==> triangulate.ensures(
                            (&polygons@[i],),
                            Ok::<Vec<Tri>, E>(#[trigger] parts[i]),
                        )
                    &&& triangulate.ensures(
                        (&polygons@[parts.len() as int],),
                        Err::<Vec<Tri>, E>(e),
                    )
                },
        },
        polygons@.len() == 0 ==> (r matches Ok(triangles) && triangles@.len() == 0),
{
    let mut triangles: Vec<Tri> = Vec::new();
    let ghost mut parts: Seq<Vec<Tri>> = Seq::empty();
    let mut i: usize = 0;
    while i < polygons.len()
        invariant
            i <= polygons@.len(),
            forall|i: int|
                0 <= i < polygons@.len() ==> triangulate.requires((&#[trigger] polygons@[i],)),
            parts.len() == i,
            forall|j: int|
                0 <= j < parts.len() ==> triangulate.ensures(
                    (&polygons@[j],),
                    Ok::<Vec<Tri>, E>(#[trigger] parts[j]),
                ),
            triangles@ == joined(parts),
        decreases polygons@.len() - i,
    {
        match triangulate(&polygons[i]) {
            Ok(mut part) => {
                proof {
                    let next = parts.push(part);
                    assert(next.drop_last() =~= parts);
                    parts = next;
                }
                triangles.append(&mut part);
            },
            Err(e) => {
                return Err(e);
            },
        }
        i += 1;
    }
    Ok(triangles)
}

} // verus!
