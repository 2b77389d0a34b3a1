//! The plain data model of pointer input: pointer identifiers, buttons,
//! 2D positions on a fixed-point grid, locations, hit payloads, target
//! entities, and the raw action stream one dispatch cycle consumes.

use vstd::prelude::*;

verus! {

/// Positions live on a signed fixed-point grid. Keeping every coordinate
/// within this bound guarantees that the difference of any two positions
/// fits in an `i64`.
pub const COORD_LIMIT: i64 = 0x2000_0000_0000_0000;

/// A 2D coordinate (or coordinate difference) on the fixed-point grid.
#[derive(Clone, Copy, PartialEq, Eq, Structural, Debug)]
pub struct Vec2 {
    pub x: i64,
    pub y: i64,
}

/// Both coordinates are within `COORD_LIMIT`, so subtraction cannot overflow.
pub open spec fn vec2_ok(v: Vec2) -> bool {
    &&& -COORD_LIMIT <= v.x <= COORD_LIMIT
    &&& -COORD_LIMIT <= v.y <= COORD_LIMIT
}

/// Componentwise difference `a - b`, truncated into `i64`; no truncation
/// happens when both arguments satisfy `vec2_ok`.
pub open spec fn vec2_sub_spec(a: Vec2, b: Vec2) -> Vec2 {
    Vec2 { x: (a.x - b.x) as i64, y: (a.y - b.y) as i64 }
}

pub open spec fn vec2_is_zero(v: Vec2) -> bool {
    v.x == 0 && v.y == 0
}

impl Vec2 {
    /// Componentwise difference of two bounded coordinates.
    pub fn sub(self, other: Vec2) -> (r: Vec2)
        requires
            vec2_ok(self),
            vec2_ok(other),
        ensures
            r == vec2_sub_spec(self, other),
    {
        Vec2 { x: self.x - other.x, y: self.y - other.y }
    }

    pub fn is_zero(self) -> (r: bool)
        ensures
            r == vec2_is_zero(self),
    {
        self.x == 0 && self.y == 0
    }
}

/// Identifies one concurrent pointing device (a mouse, a touch, a pen).
#[derive(Clone, Copy, PartialEq, Eq, Structural, Debug, Hash)]
pub struct PointerId {
    pub id: u64,
}

/// The finite set of pointer buttons processed exhaustively per action.
#[derive(Clone, Copy, PartialEq, Eq, Structural, Debug, Hash)]
pub enum PointerButton {
    Primary,
    Secondary,
    Middle,
}

/// The order in which per-button processing walks the buttons.
pub open spec fn all_buttons() -> Seq<PointerButton> {
    seq![PointerButton::Primary, PointerButton::Secondary, PointerButton::Middle]
}

impl PointerButton {
    /// Every button, in processing order.
    pub fn all() -> (r: Vec<PointerButton>)
        ensures
            r@ == all_buttons(),
    {
        let mut r: Vec<PointerButton> = Vec::new();
        r.push(PointerButton::Primary);
        r.push(PointerButton::Secondary);
        r.push(PointerButton::Middle);
        proof {
            assert(r@ =~= all_buttons());
        }
        r
    }
}

/// An interactable object: an opaque identifier with equality.
#[derive(Clone, Copy, PartialEq, Eq, Structural, Debug, Hash)]
pub struct Entity {
    pub id: u64,
}

/// Opaque payload describing one hit-test intersection; the dispatcher
/// only carries it into the events it emits.
#[derive(Clone, Copy, PartialEq, Eq, Structural, Debug)]
pub struct HitData {
    pub data: u64,
}

/// A pointer position plus the render target (viewport or surface) it is on.
#[derive(Clone, Copy, PartialEq, Eq, Structural, Debug)]
pub struct Location {
    pub target: u64,
    pub position: Vec2,
}

/// Whether a button action is a press or a release.
#[derive(Clone, Copy, PartialEq, Eq, Structural, Debug)]
pub enum PressDirection {
    Down,
    Up,
}

/// One discrete pointer action.
#[derive(Clone, Copy, PartialEq, Eq, Structural, Debug)]
pub enum PointerAction {
    Pressed { direction: PressDirection, button: PointerButton },
    Moved { delta: Vec2 },
    Canceled,
}

/// One element of the ordered per-cycle input stream.
#[derive(Clone, Copy, PartialEq, Eq, Structural, Debug)]
pub struct PointerInput {
    pub pointer_id: PointerId,
    pub location: Location,
    pub action: PointerAction,
}

} // verus!
