//! Stateless axis-aligned bounding-box overlap tests.

use vstd::prelude::*;
use crate::errors::CoreError;
use crate::fixed::{Fixed, fits_raw};

verus! {

/// Axis-aligned bounding box in fixed-point world units.
#[derive(Clone, Copy, Debug, PartialEq, Eq, Structural)]
pub struct Aabb {
    pub x: Fixed,
    pub y: Fixed,
    pub w: Fixed,
    pub h: Fixed,
}

/// Strict-inequality overlap: boxes that merely touch at an edge do not
/// overlap.
pub open spec fn spec_overlaps(a: Aabb, b: Aabb) -> bool {
    &&& a.x.v() < b.x.v() + b.w.v()
    &&& a.x.v() + a.w.v() > b.x.v()
    &&& a.y.v() < b.y.v() + b.h.v()
    &&& a.y.v() + a.h.v() > b.y.v()
}

/// The entity's box carried to a proposed position, extent unchanged.
pub open spec fn moved_box(entity: Aabb, nx: Fixed, ny: Fixed) -> Aabb {
    Aabb { x: nx, y: ny, w: entity.w, h: entity.h }
}

impl Aabb {
    /// Positive extent, with the far edges representable.
    pub open spec fn wf(self) -> bool {
        &&& self.w.v() > 0
        &&& self.h.v() > 0
        &&& fits_raw(self.x.v() + self.w.v())
        &&& fits_raw(self.y.v() + self.h.v())
    }

    /// Builds a box, rejecting non-positive extents.
    pub fn new(x: Fixed, y: Fixed, w: Fixed, h: Fixed) -> (r: Result<Aabb, CoreError>)
        requires
            fits_raw(x.v() + w.v()),
            fits_raw(y.v() + h.v()),
        ensures
            w.v() > 0 && h.v() > 0 ==> r == Ok::<Aabb, CoreError>(Aabb { x, y, w, h }),
            !(w.v() > 0 && h.v() > 0) ==> r == Err::<Aabb, CoreError>(CoreError::InvalidParameter),
            r matches Ok(b) ==> b.wf(),
    {
        if w.raw > 0 && h.raw > 0 {
            Ok(Aabb { x, y, w, h })
        } else {
            Err(CoreError::InvalidParameter)
        }
    }
}

/// Overlap test between two well-formed boxes.
pub fn collision_detection(a: &Aabb, b: &Aabb) -> (r: bool)
    requires
        a.wf(),
        b.wf(),
    ensures
        r == spec_overlaps(*a, *b),
{
    a.x.raw < b.x.raw + b.w.raw && a.x.raw + a.w.raw > b.x.raw && a.y.raw < b.y.raw + b.h.raw
        && a.y.raw + a.h.raw > b.y.raw
}

/// Whether the entity's box, placed at the proposed position, is clear of
/// every obstacle.
pub open spec fn spec_can_move_to(entity: Aabb, nx: Fixed, ny: Fixed, obstacles: Seq<Aabb>) -> bool {
    forall|i: int|
        0 <= i < obstacles.len() ==> !spec_overlaps(moved_box(entity, nx, ny), obstacles[i])
}

/// Moves the entity's box to the proposed position and reports whether it is
/// free of every obstacle.
pub fn can_move_to(entity: &Aabb, nx: Fixed, ny: Fixed, obstacles: &Vec<Aabb>) -> (r: bool)
    requires
        entity.wf(),
        moved_box(*entity, nx, ny).wf(),
        forall|i: int| 0 <= i < obstacles@.len() ==> #[trigger] obstacles@[i].wf(),
    ensures
        r == spec_can_move_to(*entity, nx, ny, obstacles@),
{
    let proposed = Aabb { x: nx, y: ny, w: entity.w, h: entity.h };
    let mut i: usize = 0;
    while i < obstacles.len()
        invariant
            0 <= i <= obstacles@.len(),
            proposed == moved_box(*entity, nx, ny),
            proposed.wf(),
            forall|i: int| 0 <= i < obstacles@.len() ==> #[trigger] obstacles@[i].wf(),
            forall|j: int| 0 <= j < i ==> !spec_overlaps(proposed, obstacles@[j]),
        decreases obstacles@.len() - i,
    {
        if collision_detection(&proposed, &obstacles[i]) {
            return false;
        }
        i = i + 1;
    }
    true
}

/// Overlap testing is symmetric in its two boxes.
pub proof fn lemma_overlaps_symmetric(a: Aabb, b: Aabb)
    ensures
        spec_overlaps(a, b) == spec_overlaps(b, a),
{
}

/// A box of positive area overlaps itself.
pub proof fn lemma_overlaps_reflexive(a: Aabb)
    requires
        a.w.v() > 0,
        a.h.v() > 0,
    ensures
        spec_overlaps(a, a),
{
}

/// Boxes that only touch at an edge (the far edge of one lies exactly on the
/// near edge of the other on some axis) do not overlap.
pub proof fn lemma_touching_boxes_do_not_overlap(a: Aabb, b: Aabb)
    requires
        a.x.v() + a.w.v() == b.x.v() || b.x.v() + b.w.v() == a.x.v() || a.y.v() + a.h.v()
            == b.y.v() || b.y.v() + b.h.v() == a.y.v(),
    ensures
        !spec_overlaps(a, b),
{
}

} // verus!
