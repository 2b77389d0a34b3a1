//! The mathematical model of one dispatch cycle.
//!
//! A cycle runs three strictly ordered phases: hover loss (`Out`, then
//! `DragLeave` per active drag), hover gain (`DragEnter` per active drag,
//! then `Over`), and input replay (presses, releases, moves, cancels, in
//! arrival order). Each phase is a fold that threads the state store and
//! appends to the event sequence; the executable dispatcher is proved to
//! compute exactly these folds.

use vstd::prelude::*;
use crate::alist::{al_contains, al_get, al_insert, al_remove};
use crate::events::{
    Cancel, Click, Down, Drag, DragDrop, DragEnd, DragEnter, DragLeave, DragOver, DragStart, Move,
    Out, Over, Pointer, PointerEvent, Up, envelope,
};
use crate::hover::{hover_has, hover_of};
use crate::pointer::{
    all_buttons, Entity, HitData, Location, PointerAction, PointerButton, PointerId, PointerInput,
    PressDirection, Vec2, vec2_is_zero, vec2_sub_spec,
};
use crate::state::{
    BState, DragEntry, PressEntry, SModel, clear_pointer, empty_bstate,
};

verus! {

/// First-match lookup in the pointer location table.
pub open spec fn lookup_loc(locs: Seq<(PointerId, Location)>, pid: PointerId) -> Option<Location>
    decreases locs.len(),
{
    if locs.len() == 0 {
        None
    } else if locs[0].0 == pid {
        Some(locs[0].1)
    } else {
        lookup_loc(locs.drop_first(), pid)
    }
}

// ---------------------------------------------------------------------------
// Phase 1: hover loss.
// ---------------------------------------------------------------------------

/// `DragLeave` to the entity losing hover, one per entity dragged by this
/// button, in drag insertion order.
pub open spec fn out_drag_leaves(
    lost: Entity,
    pid: PointerId,
    loc: Location,
    hit: HitData,
    b: PointerButton,
    dragging: Seq<(Entity, DragEntry)>,
) -> Seq<Pointer<PointerEvent>>
    decreases dragging.len(),
{
    if dragging.len() == 0 {
        Seq::empty()
    } else {
        out_drag_leaves(lost, pid, loc, hit, b, dragging.drop_last()).push(
            envelope(
                lost,
                pid,
                loc,
                PointerEvent::DragLeave(DragLeave { button: b, dragged: dragging.last().0, hit }),
            ),
        )
    }
}

/// One button's part of hover loss: forget that the lost entity was
/// dragged over, and tell it about every active drag it leaves.
pub open spec fn out_button(
    lost: Entity,
    pid: PointerId,
    loc: Location,
    hit: HitData,
    b: PointerButton,
    st: SModel,
) -> (Seq<Pointer<PointerEvent>>, SModel) {
    let bs = st.at(pid, b);
    let bs2 = BState { dragging_over: al_remove(bs.dragging_over, lost), ..bs };
    (out_drag_leaves(lost, pid, loc, hit, b, bs.dragging), st.upd(pid, b, bs2))
}

pub open spec fn out_buttons(
    lost: Entity,
    pid: PointerId,
    loc: Location,
    hit: HitData,
    btns: Seq<PointerButton>,
    st: SModel,
) -> (Seq<Pointer<PointerEvent>>, SModel)
    decreases btns.len(),
{
    if btns.len() == 0 {
        (Seq::empty(), st)
    } else {
        let pre = out_buttons(lost, pid, loc, hit, btns.drop_last(), st);
        let lastr = out_button(lost, pid, loc, hit, btns.last(), pre.1);
        (pre.0 + lastr.0, lastr.1)
    }
}

/// Hover loss for one entity of the previous snapshot: nothing if it is
/// still hovered, nothing (a logged soft failure) if the pointer's location
/// cannot be resolved; otherwise `Out` first, then the `DragLeave`s.
pub open spec fn out_entity(
    pid: PointerId,
    e: Entity,
    hit: HitData,
    cur: Seq<(PointerId, Vec<(Entity, HitData)>)>,
    locs: Seq<(PointerId, Location)>,
    st: SModel,
) -> (Seq<Pointer<PointerEvent>>, SModel) {
    if hover_has(cur, pid, e) {
        (Seq::empty(), st)
    } else {
        match lookup_loc(locs, pid) {
            Option::None => (Seq::empty(), st),
            Option::Some(loc) => {
                let drags = out_buttons(e, pid, loc, hit, all_buttons(), st);
                (
                    seq![envelope(e, pid, loc, PointerEvent::Out(Out { hit }))] + drags.0,
                    drags.1,
                )
            },
        }
    }
}

pub open spec fn out_hits(
    pid: PointerId,
    hits: Seq<(Entity, HitData)>,
    cur: Seq<(PointerId, Vec<(Entity, HitData)>)>,
    locs: Seq<(PointerId, Location)>,
    st: SModel,
) -> (Seq<Pointer<PointerEvent>>, SModel)
    decreases hits.len(),
{
    if hits.len() == 0 {
        (Seq::empty(), st)
    } else {
        let pre = out_hits(pid, hits.drop_last(), cur, locs, st);
        let lastr = out_entity(pid, hits.last().0, hits.last().1, cur, locs, pre.1);
        (pre.0 + lastr.0, lastr.1)
    }
}

/// Phase 1 over the whole previous snapshot.
pub open spec fn phase_out(
    prev: Seq<(PointerId, Vec<(Entity, HitData)>)>,
    cur: Seq<(PointerId, Vec<(Entity, HitData)>)>,
    locs: Seq<(PointerId, Location)>,
    st: SModel,
) -> (Seq<Pointer<PointerEvent>>, SModel)
    decreases prev.len(),
{
    if prev.len() == 0 {
        (Seq::empty(), st)
    } else {
        let pre = phase_out(prev.drop_last(), cur, locs, st);
        let lastr = out_hits(prev.last().0, prev.last().1@, cur, locs, pre.1);
        (pre.0 + lastr.0, lastr.1)
    }
}

// ---------------------------------------------------------------------------
// Phase 2: hover gain.
// ---------------------------------------------------------------------------

/// `DragEnter` to the newly hovered entity, one per entity dragged by this
/// button other than itself; each also records the new entity as dragged
/// over.
pub open spec fn enter_drags(
    gained: Entity,
    pid: PointerId,
    loc: Location,
    hit: HitData,
    b: PointerButton,
    dragging: Seq<(Entity, DragEntry)>,
    over: Seq<(Entity, HitData)>,
) -> (Seq<Pointer<PointerEvent>>, Seq<(Entity, HitData)>)
    decreases dragging.len(),
{
    if dragging.len() == 0 {
        (Seq::empty(), over)
    } else {
        let pre = enter_drags(gained, pid, loc, hit, b, dragging.drop_last(), over);
        if dragging.last().0 == gained {
            pre
        } else {
            (
                pre.0.push(
                    envelope(
                        gained,
                        pid,
                        loc,
                        PointerEvent::DragEnter(
                            DragEnter { button: b, dragged: dragging.last().0, hit },
                        ),
                    ),
                ),
                al_insert(pre.1, gained, hit),
            )
        }
    }
}

pub open spec fn over_button(
    gained: Entity,
    pid: PointerId,
    loc: Location,
    hit: HitData,
    b: PointerButton,
    st: SModel,
) -> (Seq<Pointer<PointerEvent>>, SModel) {
    let bs = st.at(pid, b);
    let enters = enter_drags(gained, pid, loc, hit, b, bs.dragging, bs.dragging_over);
    (enters.0, st.upd(pid, b, BState { dragging_over: enters.1, ..bs }))
}

pub open spec fn over_buttons(
    gained: Entity,
    pid: PointerId,
    loc: Location,
    hit: HitData,
    btns: Seq<PointerButton>,
    st: SModel,
) -> (Seq<Pointer<PointerEvent>>, SModel)
    decreases btns.len(),
{
    if btns.len() == 0 {
        (Seq::empty(), st)
    } else {
        let pre = over_buttons(gained, pid, loc, hit, btns.drop_last(), st);
        let lastr = over_button(gained, pid, loc, hit, btns.last(), pre.1);
        (pre.0 + lastr.0, lastr.1)
    }
}

/// Hover gain for one entity of the current snapshot: nothing if it was
/// already hovered, nothing if the pointer's location cannot be resolved;
/// otherwise all `DragEnter`s, then `Over`.
pub open spec fn over_entity(
    pid: PointerId,
    e: Entity,
    hit: HitData,
    prev: Seq<(PointerId, Vec<(Entity, HitData)>)>,
    locs: Seq<(PointerId, Location)>,
    st: SModel,
) -> (Seq<Pointer<PointerEvent>>, SModel) {
    if hover_has(prev, pid, e) {
        (Seq::empty(), st)
    } else {
        match lookup_loc(locs, pid) {
            Option::None => (Seq::empty(), st),
            Option::Some(loc) => {
                let enters = over_buttons(e, pid, loc, hit, all_buttons(), st);
                (
                    enters.0.push(envelope(e, pid, loc, PointerEvent::Over(Over { hit }))),
                    enters.1,
                )
            },
        }
    }
}

pub open spec fn over_hits(
    pid: PointerId,
    hits: Seq<(Entity, HitData)>,
    prev: Seq<(PointerId, Vec<(Entity, HitData)>)>,
    locs: Seq<(PointerId, Location)>,
    st: SModel,
) -> (Seq<Pointer<PointerEvent>>, SModel)
    decreases hits.len(),
{
    if hits.len() == 0 {
        (Seq::empty(), st)
    } else {
        let pre = over_hits(pid, hits.drop_last(), prev, locs, st);
        let lastr = over_entity(pid, hits.last().0, hits.last().1, prev, locs, pre.1);
        (pre.0 + lastr.0, lastr.1)
    }
}

/// Phase 2 over the whole current snapshot.
pub open spec fn phase_over(
    cur: Seq<(PointerId, Vec<(Entity, HitData)>)>,
    prev: Seq<(PointerId, Vec<(Entity, HitData)>)>,
    locs: Seq<(PointerId, Location)>,
    st: SModel,
) -> (Seq<Pointer<PointerEvent>>, SModel)
    decreases cur.len(),
{
    if cur.len() == 0 {
        (Seq::empty(), st)
    } else {
        let pre = phase_over(cur.drop_last(), prev, locs, st);
        let lastr = over_hits(cur.last().0, cur.last().1@, prev, locs, pre.1);
        (pre.0 + lastr.0, lastr.1)
    }
}

// ---------------------------------------------------------------------------
// Phase 3: input replay.
// ---------------------------------------------------------------------------

/// A press: `Down` to every currently hovered entity, each recorded into
/// `pressing` with the action's location and the cycle's clock reading.
pub open spec fn down_hits(
    pid: PointerId,
    loc: Location,
    b: PointerButton,
    hits: Seq<(Entity, HitData)>,
    pressing: Seq<(Entity, PressEntry)>,
    now: u64,
) -> (Seq<Pointer<PointerEvent>>, Seq<(Entity, PressEntry)>)
    decreases hits.len(),
{
    if hits.len() == 0 {
        (Seq::empty(), pressing)
    } else {
        let pre = down_hits(pid, loc, b, hits.drop_last(), pressing, now);
        let e = hits.last().0;
        let hit = hits.last().1;
        (
            pre.0.push(envelope(e, pid, loc, PointerEvent::Down(Down { button: b, hit }))),
            al_insert(pre.1, e, PressEntry { location: loc, time: now, hit }),
        )
    }
}

pub open spec fn down_step(
    pid: PointerId,
    loc: Location,
    b: PointerButton,
    hits: Seq<(Entity, HitData)>,
    st: SModel,
    now: u64,
) -> (Seq<Pointer<PointerEvent>>, SModel) {
    let bs = st.at(pid, b);
    let r = down_hits(pid, loc, b, hits, bs.pressing, now);
    (r.0, st.upd(pid, b, BState { pressing: r.1, ..bs }))
}

/// A release, part one: to every entity hovered in the previous frame,
/// `Click` if it was pressed by this pointer and button (with the exact
/// press-to-release duration), then always `Up`.
pub open spec fn up_clicks(
    pid: PointerId,
    loc: Location,
    b: PointerButton,
    hits: Seq<(Entity, HitData)>,
    pressing: Seq<(Entity, PressEntry)>,
    now: u64,
) -> Seq<Pointer<PointerEvent>>
    decreases hits.len(),
{
    if hits.len() == 0 {
        Seq::empty()
    } else {
        let pre = up_clicks(pid, loc, b, hits.drop_last(), pressing, now);
        let e = hits.last().0;
        let hit = hits.last().1;
        let click: Seq<Pointer<PointerEvent>> = match al_get(pressing, e) {
            Option::Some(en) => seq![
                envelope(
                    e,
                    pid,
                    loc,
                    PointerEvent::Click(
                        Click { button: b, hit, duration: (now - en.time) as u64 },
                    ),
                ),
            ],
            Option::None => Seq::empty(),
        };
        pre + click + seq![envelope(e, pid, loc, PointerEvent::Up(Up { button: b, hit }))]
    }
}

/// `DragDrop` to every entity currently dragged over, for one dropped drag.
pub open spec fn drop_drops(
    pid: PointerId,
    loc: Location,
    b: PointerButton,
    dropped: Entity,
    over: Seq<(Entity, HitData)>,
) -> Seq<Pointer<PointerEvent>>
    decreases over.len(),
{
    if over.len() == 0 {
        Seq::empty()
    } else {
        drop_drops(pid, loc, b, dropped, over.drop_last()).push(
            envelope(
                over.last().0,
                pid,
                loc,
                PointerEvent::DragDrop(DragDrop { button: b, dropped, hit: over.last().1 }),
            ),
        )
    }
}

/// `DragLeave` to every entity currently dragged over, for one ending drag.
pub open spec fn drop_leaves(
    pid: PointerId,
    loc: Location,
    b: PointerButton,
    dragged: Entity,
    over: Seq<(Entity, HitData)>,
) -> Seq<Pointer<PointerEvent>>
    decreases over.len(),
{
    if over.len() == 0 {
        Seq::empty()
    } else {
        drop_leaves(pid, loc, b, dragged, over.drop_last()).push(
            envelope(
                over.last().0,
                pid,
                loc,
                PointerEvent::DragLeave(DragLeave { button: b, dragged, hit: over.last().1 }),
            ),
        )
    }
}

/// A release, part two: for each ending drag, `DragDrop` to each
/// drag-hovered entity, `DragEnd` to the dragged entity with the drag's
/// total distance, then `DragLeave` to each drag-hovered entity.
pub open spec fn up_drops(
    pid: PointerId,
    loc: Location,
    b: PointerButton,
    dragging: Seq<(Entity, DragEntry)>,
    over: Seq<(Entity, HitData)>,
) -> Seq<Pointer<PointerEvent>>
    decreases dragging.len(),
{
    if dragging.len() == 0 {
        Seq::empty()
    } else {
        let d = dragging.last().0;
        let en = dragging.last().1;
        up_drops(pid, loc, b, dragging.drop_last(), over) + drop_drops(pid, loc, b, d, over)
            + seq![
            envelope(
                d,
                pid,
                loc,
                PointerEvent::DragEnd(
                    DragEnd { button: b, distance: vec2_sub_spec(en.latest_pos, en.start_pos) },
                ),
            ),
        ] + drop_leaves(pid, loc, b, d, over)
    }
}

/// A release: clicks and ups over last frame's hover, then the drop
/// sequence, then everything pressed or dragged by this button is
/// forgotten.
pub open spec fn up_step(
    pid: PointerId,
    loc: Location,
    b: PointerButton,
    prev_hits: Seq<(Entity, HitData)>,
    st: SModel,
    now: u64,
) -> (Seq<Pointer<PointerEvent>>, SModel) {
    let bs = st.at(pid, b);
    (
        up_clicks(pid, loc, b, prev_hits, bs.pressing, now) + up_drops(
            pid,
            loc,
            b,
            bs.dragging,
            bs.dragging_over,
        ),
        st.upd(pid, b, empty_bstate()),
    )
}

/// The first move while pressed begins a drag: each pressed entity not yet
/// dragged gets a drag entry (distance measured from its press position,
/// deltas from the current position) and a `DragStart` carrying its press
/// location.
pub open spec fn move_starts(
    pid: PointerId,
    b: PointerButton,
    pressing: Seq<(Entity, PressEntry)>,
    dragging: Seq<(Entity, DragEntry)>,
    act_pos: Vec2,
) -> (Seq<Pointer<PointerEvent>>, Seq<(Entity, DragEntry)>)
    decreases pressing.len(),
{
    if pressing.len() == 0 {
        (Seq::empty(), dragging)
    } else {
        let pre = move_starts(pid, b, pressing.drop_last(), dragging, act_pos);
        let e = pressing.last().0;
        let en = pressing.last().1;
        if al_contains(pre.1, e) {
            pre
        } else {
            (
                pre.0.push(
                    envelope(
                        e,
                        pid,
                        en.location,
                        PointerEvent::DragStart(DragStart { button: b, hit: en.hit }),
                    ),
                ),
                al_insert(
                    pre.1,
                    e,
                    DragEntry { start_pos: en.location.position, latest_pos: act_pos },
                ),
            )
        }
    }
}

/// `DragOver` to every hovered entity other than the dragged one.
pub open spec fn drag_overs(
    pid: PointerId,
    loc: Location,
    b: PointerButton,
    dragged: Entity,
    hits: Seq<(Entity, HitData)>,
) -> Seq<Pointer<PointerEvent>>
    decreases hits.len(),
{
    if hits.len() == 0 {
        Seq::empty()
    } else {
        let pre = drag_overs(pid, loc, b, dragged, hits.drop_last());
        if hits.last().0 == dragged {
            pre
        } else {
            pre.push(
                envelope(
                    hits.last().0,
                    pid,
                    loc,
                    PointerEvent::DragOver(DragOver { button: b, dragged, hit: hits.last().1 }),
                ),
            )
        }
    }
}

/// The drag bookkeeping of one move: every dragged entity whose latest
/// recorded position differs from the action's position gets `Drag` (total
/// distance and step delta) and `DragOver` to the other hovered entities,
/// and its latest position is brought up to date; a zero delta is
/// suppressed entirely.
pub open spec fn move_drags(
    pid: PointerId,
    loc: Location,
    b: PointerButton,
    dragging: Seq<(Entity, DragEntry)>,
    hits: Seq<(Entity, HitData)>,
) -> (Seq<Pointer<PointerEvent>>, Seq<(Entity, DragEntry)>)
    decreases dragging.len(),
{
    if dragging.len() == 0 {
        (Seq::empty(), dragging)
    } else {
        let pre = move_drags(pid, loc, b, dragging.drop_last(), hits);
        let d = dragging.last().0;
        let en = dragging.last().1;
        let delta = vec2_sub_spec(loc.position, en.latest_pos);
        if vec2_is_zero(delta) {
            (pre.0, pre.1.push(dragging.last()))
        } else {
            (
                pre.0.push(
                    envelope(
                        d,
                        pid,
                        loc,
                        PointerEvent::Drag(
                            Drag {
                                button: b,
                                distance: vec2_sub_spec(loc.position, en.start_pos),
                                delta,
                            },
                        ),
                    ),
                ) + drag_overs(pid, loc, b, d, hits),
                pre.1.push((d, DragEntry { start_pos: en.start_pos, latest_pos: loc.position })),
            )
        }
    }
}

/// One button's part of a move: drag starts, then drags.
pub open spec fn moved_button(
    pid: PointerId,
    loc: Location,
    b: PointerButton,
    hits: Seq<(Entity, HitData)>,
    st: SModel,
) -> (Seq<Pointer<PointerEvent>>, SModel) {
    let bs = st.at(pid, b);
    let starts = move_starts(pid, b, bs.pressing, bs.dragging, loc.position);
    let drags = move_drags(pid, loc, b, starts.1, hits);
    (starts.0 + drags.0, st.upd(pid, b, BState { dragging: drags.1, ..bs }))
}

pub open spec fn moved_buttons(
    pid: PointerId,
    loc: Location,
    btns: Seq<PointerButton>,
    hits: Seq<(Entity, HitData)>,
    st: SModel,
) -> (Seq<Pointer<PointerEvent>>, SModel)
    decreases btns.len(),
{
    if btns.len() == 0 {
        (Seq::empty(), st)
    } else {
        let pre = moved_buttons(pid, loc, btns.drop_last(), hits, st);
        let lastr = moved_button(pid, loc, btns.last(), hits, pre.1);
        (pre.0 + lastr.0, lastr.1)
    }
}

/// `Move` to every hovered entity, carrying the action's own delta; fires
/// once per hovered entity per move action, independent of drag state.
pub open spec fn move_moves(
    pid: PointerId,
    loc: Location,
    delta: Vec2,
    hits: Seq<(Entity, HitData)>,
) -> Seq<Pointer<PointerEvent>>
    decreases hits.len(),
{
    if hits.len() == 0 {
        Seq::empty()
    } else {
        move_moves(pid, loc, delta, hits.drop_last()).push(
            envelope(
                hits.last().0,
                pid,
                loc,
                PointerEvent::Move(Move { hit: hits.last().1, delta }),
            ),
        )
    }
}

/// A move action: per-button drag processing, then the `Move` events.
pub open spec fn moved_step(
    pid: PointerId,
    loc: Location,
    delta: Vec2,
    hits: Seq<(Entity, HitData)>,
    st: SModel,
) -> (Seq<Pointer<PointerEvent>>, SModel) {
    let btns = moved_buttons(pid, loc, all_buttons(), hits, st);
    (btns.0 + move_moves(pid, loc, delta, hits), btns.1)
}

/// `Cancel` to every hovered entity.
pub open spec fn cancel_events(
    pid: PointerId,
    loc: Location,
    hits: Seq<(Entity, HitData)>,
) -> Seq<Pointer<PointerEvent>>
    decreases hits.len(),
{
    if hits.len() == 0 {
        Seq::empty()
    } else {
        cancel_events(pid, loc, hits.drop_last()).push(
            envelope(
                hits.last().0,
                pid,
                loc,
                PointerEvent::Cancel(Cancel { hit: hits.last().1 }),
            ),
        )
    }
}

/// A cancellation: `Cancel` to every hovered entity, then the pointer's
/// whole store is cleared.
pub open spec fn cancel_step(
    pid: PointerId,
    loc: Location,
    hits: Seq<(Entity, HitData)>,
    st: SModel,
) -> (Seq<Pointer<PointerEvent>>, SModel) {
    (cancel_events(pid, loc, hits), clear_pointer(st, pid))
}

/// One input action. The hover snapshots are the per-frame final ones,
/// shared by every action of the cycle; a release addresses last frame's
/// hover, everything else this frame's.
pub open spec fn step(
    inp: PointerInput,
    cur: Seq<(PointerId, Vec<(Entity, HitData)>)>,
    prev: Seq<(PointerId, Vec<(Entity, HitData)>)>,
    st: SModel,
    now: u64,
) -> (Seq<Pointer<PointerEvent>>, SModel) {
    match inp.action {
        PointerAction::Pressed { direction, button } => match direction {
            PressDirection::Down => down_step(
                inp.pointer_id,
                inp.location,
                button,
                hover_of(cur, inp.pointer_id),
                st,
                now,
            ),
            PressDirection::Up => up_step(
                inp.pointer_id,
                inp.location,
                button,
                hover_of(prev, inp.pointer_id),
                st,
                now,
            ),
        },
        PointerAction::Moved { delta } => moved_step(
            inp.pointer_id,
            inp.location,
            delta,
            hover_of(cur, inp.pointer_id),
            st,
        ),
        PointerAction::Canceled => cancel_step(
            inp.pointer_id,
            inp.location,
            hover_of(cur, inp.pointer_id),
            st,
        ),
    }
}

/// Whether a pointer is listed as canceled.
pub open spec fn canceled_has(canceled: Seq<PointerId>, pid: PointerId) -> bool {
    exists|i: int| 0 <= i < canceled.len() && canceled[i] == pid
}

/// Phase 3: the input stream, drained in arrival order, threading the set
/// of pointers canceled so far. Once a pointer's cancellation is replayed,
/// its remaining actions of the cycle are dropped: no further event for
/// that pointer is emitted this cycle after `Cancel`.
pub open spec fn replay_from(
    inputs: Seq<PointerInput>,
    cur: Seq<(PointerId, Vec<(Entity, HitData)>)>,
    prev: Seq<(PointerId, Vec<(Entity, HitData)>)>,
    st: SModel,
    canceled: Seq<PointerId>,
    now: u64,
) -> (Seq<Pointer<PointerEvent>>, SModel, Seq<PointerId>)
    decreases inputs.len(),
{
    if inputs.len() == 0 {
        (Seq::empty(), st, canceled)
    } else {
        let pre = replay_from(inputs.drop_last(), cur, prev, st, canceled, now);
        let inp = inputs.last();
        if canceled_has(pre.2, inp.pointer_id) {
            pre
        } else {
            let lastr = step(inp, cur, prev, pre.1, now);
            (
                pre.0 + lastr.0,
                lastr.1,
                if inp.action is Canceled {
                    pre.2.push(inp.pointer_id)
                } else {
                    pre.2
                },
            )
        }
    }
}

/// Phase 3 as one cycle runs it: no pointer canceled yet.
pub open spec fn replay(
    inputs: Seq<PointerInput>,
    cur: Seq<(PointerId, Vec<(Entity, HitData)>)>,
    prev: Seq<(PointerId, Vec<(Entity, HitData)>)>,
    st: SModel,
    now: u64,
) -> (Seq<Pointer<PointerEvent>>, SModel) {
    let r = replay_from(inputs, cur, prev, st, Seq::empty(), now);
    (r.0, r.1)
}

/// One whole dispatch cycle: hover loss, hover gain, input replay.
pub open spec fn cycle(
    prev: Seq<(PointerId, Vec<(Entity, HitData)>)>,
    cur: Seq<(PointerId, Vec<(Entity, HitData)>)>,
    locs: Seq<(PointerId, Location)>,
    inputs: Seq<PointerInput>,
    st: SModel,
    now: u64,
) -> (Seq<Pointer<PointerEvent>>, SModel) {
    let p1 = phase_out(prev, cur, locs, st);
    let p2 = phase_over(cur, prev, locs, p1.1);
    let p3 = replay(inputs, cur, prev, p2.1, now);
    (p1.0 + p2.0 + p3.0, p3.1)
}

// ---------------------------------------------------------------------------
// The folds keep the store's positions bounded and its press times current.
// ---------------------------------------------------------------------------

pub proof fn lemma_down_hits_ok(
    pid: PointerId,
    loc: Location,
    b: PointerButton,
    hits: Seq<(Entity, HitData)>,
    pressing: Seq<(Entity, PressEntry)>,
    now: u64,
)
    requires
        crate::state::pressing_ok(pressing, now),
        crate::pointer::vec2_ok(loc.position),
    ensures
        crate::state::pressing_ok(down_hits(pid, loc, b, hits, pressing, now).1, now),
    decreases hits.len(),
{
    if hits.len() > 0 {
        lemma_down_hits_ok(pid, loc, b, hits.drop_last(), pressing, now);
        let pre = down_hits(pid, loc, b, hits.drop_last(), pressing, now).1;
        let e = hits.last().0;
        let en = PressEntry { location: loc, time: now, hit: hits.last().1 };
        let r = al_insert(pre, e, en);
        crate::alist::lemma_al_insert_entries(pre, e, en);
        assert forall|j: int|
            0 <= j < r.len() implies crate::pointer::vec2_ok(
            (#[trigger] r[j]).1.location.position,
        ) && r[j].1.time <= now by {
            if r[j] != (e, en) {
                let i = choose|i: int| 0 <= i < pre.len() && pre[i] == r[j];
                assert(crate::pointer::vec2_ok(pre[i].1.location.position));
            }
        }
    }
}

pub proof fn lemma_move_starts_ok(
    pid: PointerId,
    b: PointerButton,
    pressing: Seq<(Entity, PressEntry)>,
    dragging: Seq<(Entity, DragEntry)>,
    act_pos: Vec2,
    now: u64,
)
    requires
        crate::state::pressing_ok(pressing, now),
        crate::state::dragging_ok(dragging),
        crate::pointer::vec2_ok(act_pos),
    ensures
        crate::state::dragging_ok(move_starts(pid, b, pressing, dragging, act_pos).1),
    decreases pressing.len(),
{
    if pressing.len() > 0 {
        lemma_move_starts_ok(pid, b, pressing.drop_last(), dragging, act_pos, now);
        let pre = move_starts(pid, b, pressing.drop_last(), dragging, act_pos).1;
        let e = pressing.last().0;
        let pen = pressing.last().1;
        if !al_contains(pre, e) {
            let den = DragEntry { start_pos: pen.location.position, latest_pos: act_pos };
            let r = al_insert(pre, e, den);
            crate::alist::lemma_al_insert_entries(pre, e, den);
            assert(crate::pointer::vec2_ok(pen.location.position));
            assert forall|j: int|
                0 <= j < r.len() implies crate::pointer::vec2_ok((#[trigger] r[j]).1.start_pos)
                && crate::pointer::vec2_ok(r[j].1.latest_pos) by {
                if r[j] != (e, den) {
                    let i = choose|i: int| 0 <= i < pre.len() && pre[i] == r[j];
                    assert(crate::pointer::vec2_ok(pre[i].1.start_pos));
                }
            }
        }
    }
}

pub proof fn lemma_move_drags_ok(
    pid: PointerId,
    loc: Location,
    b: PointerButton,
    dragging: Seq<(Entity, DragEntry)>,
    hits: Seq<(Entity, HitData)>,
)
    requires
        crate::state::dragging_ok(dragging),
        crate::pointer::vec2_ok(loc.position),
    ensures
        crate::state::dragging_ok(move_drags(pid, loc, b, dragging, hits).1),
    decreases dragging.len(),
{
    if dragging.len() > 0 {
        assert(crate::state::dragging_ok(dragging.drop_last()));
        lemma_move_drags_ok(pid, loc, b, dragging.drop_last(), hits);
        assert(crate::pointer::vec2_ok(dragging.last().1.start_pos) && crate::pointer::vec2_ok(
            dragging.last().1.latest_pos,
        ));
    }
}

/// Every input location of a cycle is on the bounded grid.
pub open spec fn inputs_ok(inputs: Seq<PointerInput>) -> bool {
    forall|i: int|
        0 <= i < inputs.len() ==> crate::pointer::vec2_ok(
            (#[trigger] inputs[i]).location.position,
        )
}

} // verus!
