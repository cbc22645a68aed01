//! Point entities: identities, curve roles, and the points themselves.

use vstd::prelude::*;
use crate::design_space::DPoint;

verus! {

/// An identity for a point or contour. Identities are opaque handles: an
/// element of an ordered sequence is addressed by its identity rather than
/// by its position, so references never dangle across mutation.
///
/// A point's identity is scoped to the contour that owns it: `parent` holds
/// the raw id of the owning contour.
#[derive(Clone, Copy, Debug, PartialEq, Eq, Structural, Hash)]
pub struct EntityId {
    pub parent: u64,
    pub raw: u64,
}

impl EntityId {
    pub fn new(parent: u64, raw: u64) -> (r: EntityId)
        ensures
            r == (EntityId { parent, raw }),
    {
        EntityId { parent, raw }
    }

    /// Whether this identity is scoped to the entity `other`.
    pub open spec fn spec_is_child_of(self, other: EntityId) -> bool {
        self.parent == other.raw
    }

    pub fn is_child_of(self, other: EntityId) -> (r: bool)
        ensures
            r == self.spec_is_child_of(other),
    {
        self.parent == other.raw
    }

    pub fn parent(self) -> (r: u64)
        ensures
            r == self.parent,
    {
        self.parent
    }
}

/// The curve role of a point: a real path vertex (corner or smooth), or a
/// Bezier control point.
///
/// A smooth vertex carries the invariant that its two neighboring off-curve
/// handles, when both exist, stay collinear through it.
#[derive(Clone, Copy, Debug, PartialEq, Eq, Structural)]
pub enum PointType {
    OnCurveCorner,
    OnCurveSmooth,
    OffCurve,
}

impl PointType {
    pub open spec fn spec_is_on_curve(self) -> bool {
        self != PointType::OffCurve
    }

    pub fn is_on_curve(self) -> (r: bool)
        ensures
            r == self.spec_is_on_curve(),
    {
        !matches!(self, PointType::OffCurve)
    }
}

/// The atomic unit of a contour: an identity, a location in design space,
/// and a curve role.
#[derive(Clone, Copy, Debug, PartialEq, Eq, Structural)]
pub struct PathPoint {
    pub id: EntityId,
    pub point: DPoint,
    pub typ: PointType,
}

impl PathPoint {
    /// A new on-curve corner point with the given identity.
    pub fn on_curve(id: EntityId, point: DPoint) -> (r: PathPoint)
        ensures
            r == (PathPoint { id, point, typ: PointType::OnCurveCorner }),
    {
        PathPoint { id, point, typ: PointType::OnCurveCorner }
    }

    /// A new off-curve (control) point with the given identity.
    pub fn off_curve(id: EntityId, point: DPoint) -> (r: PathPoint)
        ensures
            r == (PathPoint { id, point, typ: PointType::OffCurve }),
    {
        PathPoint { id, point, typ: PointType::OffCurve }
    }

    pub open spec fn spec_is_on_curve(self) -> bool {
        self.typ.spec_is_on_curve()
    }

    pub fn is_on_curve(&self) -> (r: bool)
        ensures
            r == self.spec_is_on_curve(),
    {
        self.typ.is_on_curve()
    }

    pub open spec fn spec_is_off_curve(self) -> bool {
        self.typ == PointType::OffCurve
    }

    pub fn is_off_curve(&self) -> (r: bool)
        ensures
            r == self.spec_is_off_curve(),
    {
        matches!(self.typ, PointType::OffCurve)
    }

    pub open spec fn spec_is_smooth(self) -> bool {
        self.typ == PointType::OnCurveSmooth
    }

    pub fn is_smooth(&self) -> (r: bool)
        ensures
            r == self.spec_is_smooth(),
    {
        matches!(self.typ, PointType::OnCurveSmooth)
    }

    /// The role after switching an on-curve point between smooth and corner.
    /// Off-curve points are unchanged.
    pub open spec fn spec_toggled(self) -> PathPoint {
        match self.typ {
            PointType::OnCurveCorner => PathPoint { typ: PointType::OnCurveSmooth, ..self },
            PointType::OnCurveSmooth => PathPoint { typ: PointType::OnCurveCorner, ..self },
            PointType::OffCurve => self,
        }
    }

    /// Switch an on-curve point between smooth and corner.
    pub fn toggle_type(&mut self)
        ensures
            *final(self) == old(self).spec_toggled(),
    {
        match self.typ {
            PointType::OnCurveCorner => self.typ = PointType::OnCurveSmooth,
            PointType::OnCurveSmooth => self.typ = PointType::OnCurveCorner,
            PointType::OffCurve => {}
        }
    }

    /// The same point re-scoped to the contour `parent`.
    pub open spec fn spec_reparented(self, parent: EntityId) -> PathPoint {
        PathPoint { id: EntityId { parent: parent.raw, raw: self.id.raw }, ..self }
    }

    /// Re-scope this point's identity to the contour `parent`.
    pub fn reparent(&mut self, parent: EntityId)
        ensures
            *final(self) == old(self).spec_reparented(parent),
    {
        self.id.parent = parent.raw;
    }
}

} // verus!
