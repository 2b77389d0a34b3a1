//! The event envelope and the fourteen interaction event payloads a
//! dispatch cycle can emit.

use vstd::prelude::*;
use crate::pointer::{Entity, HitData, Location, PointerButton, PointerId, Vec2};

verus! {

/// Fires when a pointer is canceled and its interaction state is dropped.
#[derive(Clone, Copy, PartialEq, Eq, Structural, Debug)]
pub struct Cancel {
    pub hit: HitData,
}

/// Fires when the pointer crosses into the bounds of the target entity.
#[derive(Clone, Copy, PartialEq, Eq, Structural, Debug)]
pub struct Over {
    pub hit: HitData,
}

/// Fires when the pointer crosses out of the bounds of the target entity;
/// carries the latest prior intersection.
#[derive(Clone, Copy, PartialEq, Eq, Structural, Debug)]
pub struct Out {
    pub hit: HitData,
}

/// Fires when a pointer button is pressed over the target entity.
#[derive(Clone, Copy, PartialEq, Eq, Structural, Debug)]
pub struct Down {
    pub button: PointerButton,
    pub hit: HitData,
}

/// Fires when a pointer button is released over the target entity.
#[derive(Clone, Copy, PartialEq, Eq, Structural, Debug)]
pub struct Up {
    pub button: PointerButton,
    pub hit: HitData,
}

/// Fires when a press and a release hit the same target entity; `duration`
/// is the time between the two in clock ticks.
#[derive(Clone, Copy, PartialEq, Eq, Structural, Debug)]
pub struct Click {
    pub button: PointerButton,
    pub hit: HitData,
    pub duration: u64,
}

/// Fires while a pointer moves over the target entity.
#[derive(Clone, Copy, PartialEq, Eq, Structural, Debug)]
pub struct Move {
    pub hit: HitData,
    pub delta: Vec2,
}

/// Fires when the target entity receives a press followed by a move.
#[derive(Clone, Copy, PartialEq, Eq, Structural, Debug)]
pub struct DragStart {
    pub button: PointerButton,
    pub hit: HitData,
}

/// Fires while the target entity is being dragged; `distance` is measured
/// from the drag start, `delta` from the previous drag event.
#[derive(Clone, Copy, PartialEq, Eq, Structural, Debug)]
pub struct Drag {
    pub button: PointerButton,
    pub distance: Vec2,
    pub delta: Vec2,
}

/// Fires when a pointer dragging the target entity is released.
#[derive(Clone, Copy, PartialEq, Eq, Structural, Debug)]
pub struct DragEnd {
    pub button: PointerButton,
    pub distance: Vec2,
}

/// Fires when a pointer dragging `dragged` enters the target entity.
#[derive(Clone, Copy, PartialEq, Eq, Structural, Debug)]
pub struct DragEnter {
    pub button: PointerButton,
    pub dragged: Entity,
    pub hit: HitData,
}

/// Fires while `dragged` is dragged over the target entity.
#[derive(Clone, Copy, PartialEq, Eq, Structural, Debug)]
pub struct DragOver {
    pub button: PointerButton,
    pub dragged: Entity,
    pub hit: HitData,
}

/// Fires when a pointer dragging `dragged` leaves the target entity.
#[derive(Clone, Copy, PartialEq, Eq, Structural, Debug)]
pub struct DragLeave {
    pub button: PointerButton,
    pub dragged: Entity,
    pub hit: HitData,
}

/// Fires when a pointer drops `dropped` onto the target entity.
#[derive(Clone, Copy, PartialEq, Eq, Structural, Debug)]
pub struct DragDrop {
    pub button: PointerButton,
    pub dropped: Entity,
    pub hit: HitData,
}

/// The sum of the fourteen payload kinds; the dispatcher emits one strictly
/// ordered sequence of envelopes over this type, and external delivery
/// demultiplexes it onto per-kind channels.
#[derive(Clone, Copy, PartialEq, Eq, Structural, Debug)]
pub enum PointerEvent {
    Cancel(Cancel),
    Over(Over),
    Out(Out),
    Down(Down),
    Up(Up),
    Click(Click),
    Move(Move),
    DragStart(DragStart),
    Drag(Drag),
    DragEnd(DragEnd),
    DragEnter(DragEnter),
    DragOver(DragOver),
    DragLeave(DragLeave),
    DragDrop(DragDrop),
}

/// The common metadata wrapped around every emitted payload. `target` is
/// the original target of the event, before any ancestor bubbling.
#[derive(Clone, Copy, PartialEq, Eq, Debug)]
pub struct Pointer<E> {
    pub target: Entity,
    pub pointer_id: PointerId,
    pub pointer_location: Location,
    pub event: E,
}

/// An envelope value, written out for use in contracts.
pub open spec fn envelope(target: Entity, pid: PointerId, loc: Location, ev: PointerEvent) -> Pointer<
    PointerEvent,
> {
    Pointer { target, pointer_id: pid, pointer_location: loc, event: ev }
}

impl<E> Pointer<E> {
    /// Construct a new envelope.
    pub fn new(target: Entity, id: PointerId, location: Location, event: E) -> (r: Pointer<E>)
        ensures
            r == (Pointer { target, pointer_id: id, pointer_location: location, event }),
    {
        Pointer { target, pointer_id: id, pointer_location: location, event }
    }
}

} // verus!
