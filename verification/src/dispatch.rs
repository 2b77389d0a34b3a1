//! The executable event dispatcher: one call runs one dispatch cycle and
//! is proved to emit exactly the event sequence and state transition of
//! the model in `crate::model`.

use vstd::prelude::*;
use crate::alist::{al_delete, al_has, al_lookup, al_remove, al_set, lemma_al_get_entry};
use crate::events::{
    Cancel, Click, Down, Drag, DragDrop, DragEnd, DragEnter, DragLeave, DragOver, DragStart, Move,
    Out, Over, Pointer, PointerEvent, Up, envelope,
};
use crate::hover::HoverMap;
use crate::model::{
    cancel_events, cancel_step, cycle, down_hits, down_step, drag_overs, drop_drops, drop_leaves,
    enter_drags, inputs_ok, lookup_loc, move_drags, move_moves, move_starts, moved_button,
    moved_buttons, moved_step, out_button, out_buttons, out_drag_leaves, out_entity, out_hits,
    over_button, over_buttons, over_entity, over_hits, phase_out, phase_over, replay, replay_from,
    step,
    up_clicks, up_drops, up_step,
};
use crate::pointer::{
    all_buttons, Entity, HitData, Location, PointerAction, PointerButton, PointerId, PointerInput,
    PressDirection, Vec2, vec2_ok,
};
use crate::state::{
    BState, DragEntry, PointerButtonState, PointerState, PressEntry, SModel, bstate_ok,
    empty_bstate, lemma_state_ok_clear, lemma_state_ok_upd, state_ok,
};

verus! {

/// Resolve a pointer's current location from the location table.
pub fn resolve_location(locs: &Vec<(PointerId, Location)>, pid: PointerId) -> (r: Option<Location>)
    ensures
        r == lookup_loc(locs@, pid),
{
    let n = locs.len();
    proof {
        assert(locs@.skip(0) =~= locs@);
    }
    for i in 0..n
        invariant
            n == locs@.len(),
            lookup_loc(locs@, pid) == lookup_loc(locs@.skip(i as int), pid),
    {
        proof {
            assert(locs@.skip(i as int)[0] == locs@[i as int]);
        }
        if locs[i].0 == pid {
            return Some(locs[i].1);
        }
        proof {
            assert(locs@.skip(i as int).drop_first() =~= locs@.skip(i as int + 1));
        }
    }
    proof {
        assert(locs@.skip(n as int) =~= Seq::<(PointerId, Location)>::empty());
    }
    None
}

/// Hover loss, one button: drop the lost entity from `dragging_over` and
/// tell it about every drag it leaves.
fn do_out_button(
    lost: Entity,
    pid: PointerId,
    loc: Location,
    hit: HitData,
    b: PointerButton,
    state: &mut PointerState,
    out: &mut Vec<Pointer<PointerEvent>>,
    now: u64,
)
    requires
        state_ok(old(state)@, now),
    ensures
        final(out)@ == old(out)@ + out_button(lost, pid, loc, hit, b, old(state)@).0,
        final(state)@ == out_button(lost, pid, loc, hit, b, old(state)@).1,
        state_ok(final(state)@, now),
{
    let ghost st0 = state@;
    let ghost out0 = out@;
    let mut bs = state.get_state(pid, b);
    let ghost bs0 = bs@;
    proof {
        assert(bstate_ok(st0.at(pid, b), now));
    }
    let n = bs.dragging.len();
    for i in 0..n
        invariant
            n == bs.dragging@.len(),
            bs@ == bs0,
            out@ == out0 + out_drag_leaves(lost, pid, loc, hit, b, bs.dragging@.take(i as int)),
    {
        let d = bs.dragging[i].0;
        out.push(
            Pointer::new(
                lost,
                pid,
                loc,
                PointerEvent::DragLeave(DragLeave { button: b, dragged: d, hit }),
            ),
        );
        proof {
            assert(bs.dragging@.take(i as int + 1).drop_last() =~= bs.dragging@.take(i as int));
            assert(bs.dragging@.take(i as int + 1).last() == bs.dragging@[i as int]);
        }
    }
    proof {
        assert(bs.dragging@.take(n as int) =~= bs.dragging@);
    }
    al_delete(&mut bs.dragging_over, lost);
    proof {
        assert(bs@ =~= (BState { dragging_over: al_remove(bs0.dragging_over, lost), ..bs0 }));
        assert(bstate_ok(bs@, now));
        lemma_state_ok_upd(st0, pid, b, bs@, now);
    }
    state.set_state(pid, b, bs);
}

/// Hover loss, one entity of the previous snapshot.
fn do_out_entity(
    pid: PointerId,
    e: Entity,
    hit: HitData,
    cur: &HoverMap,
    locs: &Vec<(PointerId, Location)>,
    state: &mut PointerState,
    out: &mut Vec<Pointer<PointerEvent>>,
    now: u64,
)
    requires
        state_ok(old(state)@, now),
    ensures
        final(out)@ == old(out)@ + out_entity(pid, e, hit, cur@, locs@, old(state)@).0,
        final(state)@ == out_entity(pid, e, hit, cur@, locs@, old(state)@).1,
        state_ok(final(state)@, now),
{
    let ghost st0 = state@;
    let ghost out0 = out@;
    if cur.contains(pid, e) {
        return ;
    }
    let loc = match resolve_location(locs, pid) {
        Some(loc) => loc,
        None => {
            return ;
        },
    };
    out.push(Pointer::new(e, pid, loc, PointerEvent::Out(Out { hit })));
    let ghost out1 = out@;
    let btns = PointerButton::all();
    let nb = btns.len();
    for i in 0..nb
        invariant
            nb == btns@.len(),
            btns@ == all_buttons(),
            out@ == out1 + out_buttons(e, pid, loc, hit, btns@.take(i as int), st0).0,
            state@ == out_buttons(e, pid, loc, hit, btns@.take(i as int), st0).1,
            state_ok(state@, now),
    {
        do_out_button(e, pid, loc, hit, btns[i], state, out, now);
        proof {
            assert(btns@.take(i as int + 1).drop_last() =~= btns@.take(i as int));
            assert(btns@.take(i as int + 1).last() == btns@[i as int]);
        }
    }
    proof {
        assert(btns@.take(nb as int) =~= all_buttons());
        assert(out@ =~= out0 + (seq![envelope(e, pid, loc, PointerEvent::Out(Out { hit }))]
            + out_buttons(e, pid, loc, hit, all_buttons(), st0).0));
    }
}

/// Hover loss for one pointer's previous hit list.
fn do_out_hits(
    pid: PointerId,
    hits: &Vec<(Entity, HitData)>,
    cur: &HoverMap,
    locs: &Vec<(PointerId, Location)>,
    state: &mut PointerState,
    out: &mut Vec<Pointer<PointerEvent>>,
    now: u64,
)
    requires
        state_ok(old(state)@, now),
    ensures
        final(out)@ == old(out)@ + out_hits(pid, hits@, cur@, locs@, old(state)@).0,
        final(state)@ == out_hits(pid, hits@, cur@, locs@, old(state)@).1,
        state_ok(final(state)@, now),
{
    let ghost st0 = state@;
    let ghost out0 = out@;
    let n = hits.len();
    for i in 0..n
        invariant
            n == hits@.len(),
            out@ == out0 + out_hits(pid, hits@.take(i as int), cur@, locs@, st0).0,
            state@ == out_hits(pid, hits@.take(i as int), cur@, locs@, st0).1,
            state_ok(state@, now),
    {
        do_out_entity(pid, hits[i].0, hits[i].1, cur, locs, state, out, now);
        proof {
            assert(hits@.take(i as int + 1).drop_last() =~= hits@.take(i as int));
            assert(hits@.take(i as int + 1).last() == hits@[i as int]);
        }
    }
    proof {
        assert(hits@.take(n as int) =~= hits@);
    }
}

/// Phase 1: hover loss over the whole previous snapshot.
fn do_phase_out(
    prev: &HoverMap,
    cur: &HoverMap,
    locs: &Vec<(PointerId, Location)>,
    state: &mut PointerState,
    out: &mut Vec<Pointer<PointerEvent>>,
    now: u64,
)
    requires
        state_ok(old(state)@, now),
    ensures
        final(out)@ == old(out)@ + phase_out(prev@, cur@, locs@, old(state)@).0,
        final(state)@ == phase_out(prev@, cur@, locs@, old(state)@).1,
        state_ok(final(state)@, now),
{
    let ghost st0 = state@;
    let ghost out0 = out@;
    let n = prev.entries.len();
    for i in 0..n
        invariant
            n == prev@.len(),
            out@ == out0 + phase_out(prev@.take(i as int), cur@, locs@, st0).0,
            state@ == phase_out(prev@.take(i as int), cur@, locs@, st0).1,
            state_ok(state@, now),
    {
        let pid = prev.entries[i].0;
        do_out_hits(pid, &prev.entries[i].1, cur, locs, state, out, now);
        proof {
            assert(prev@.take(i as int + 1).drop_last() =~= prev@.take(i as int));
            assert(prev@.take(i as int + 1).last() == prev@[i as int]);
        }
    }
    proof {
        assert(prev@.take(n as int) =~= prev@);
    }
}

/// Hover gain, one button: record the gained entity as dragged over and
/// tell it about every other active drag.
fn do_over_button(
    gained: Entity,
    pid: PointerId,
    loc: Location,
    hit: HitData,
    b: PointerButton,
    state: &mut PointerState,
    out: &mut Vec<Pointer<PointerEvent>>,
    now: u64,
)
    requires
        state_ok(old(state)@, now),
    ensures
        final(out)@ == old(out)@ + over_button(gained, pid, loc, hit, b, old(state)@).0,
        final(state)@ == over_button(gained, pid, loc, hit, b, old(state)@).1,
        state_ok(final(state)@, now),
{
    let ghost st0 = state@;
    let ghost out0 = out@;
    let mut bs = state.get_state(pid, b);
    let ghost bs0 = bs@;
    proof {
        assert(bstate_ok(st0.at(pid, b), now));
    }
    let n = bs.dragging.len();
    for i in 0..n
        invariant
            n == bs.dragging@.len(),
            bs.dragging@ == bs0.dragging,
            bs.pressing@ == bs0.pressing,
            out@ == out0 + enter_drags(
                gained,
                pid,
                loc,
                hit,
                b,
                bs0.dragging.take(i as int),
                bs0.dragging_over,
            ).0,
            bs.dragging_over@ == enter_drags(
                gained,
                pid,
                loc,
                hit,
                b,
                bs0.dragging.take(i as int),
                bs0.dragging_over,
            ).1,
    {
        let d = bs.dragging[i].0;
        if d != gained {
            al_set(&mut bs.dragging_over, gained, hit);
            out.push(
                Pointer::new(
                    gained,
                    pid,
                    loc,
                    PointerEvent::DragEnter(DragEnter { button: b, dragged: d, hit }),
                ),
            );
        }
        proof {
            assert(bs0.dragging.take(i as int + 1).drop_last() =~= bs0.dragging.take(i as int));
            assert(bs0.dragging.take(i as int + 1).last() == bs0.dragging[i as int]);
        }
    }
    proof {
        assert(bs0.dragging.take(n as int) =~= bs0.dragging);
        assert(bs@ =~= (BState {
            dragging_over: enter_drags(gained, pid, loc, hit, b, bs0.dragging, bs0.dragging_over).1,
            ..bs0
        }));
        assert(bstate_ok(bs@, now));
        lemma_state_ok_upd(st0, pid, b, bs@, now);
    }
    state.set_state(pid, b, bs);
}

/// Hover gain, one entity of the current snapshot.
fn do_over_entity(
    pid: PointerId,
    e: Entity,
    hit: HitData,
    prev: &HoverMap,
    locs: &Vec<(PointerId, Location)>,
    state: &mut PointerState,
    out: &mut Vec<Pointer<PointerEvent>>,
    now: u64,
)
    requires
        state_ok(old(state)@, now),
    ensures
        final(out)@ == old(out)@ + over_entity(pid, e, hit, prev@, locs@, old(state)@).0,
        final(state)@ == over_entity(pid, e, hit, prev@, locs@, old(state)@).1,
        state_ok(final(state)@, now),
{
    let ghost st0 = state@;
    let ghost out0 = out@;
    if prev.contains(pid, e) {
        return ;
    }
    let loc = match resolve_location(locs, pid) {
        Some(loc) => loc,
        None => {
            return ;
        },
    };
    let btns = PointerButton::all();
    let nb = btns.len();
    for i in 0..nb
        invariant
            nb == btns@.len(),
            btns@ == all_buttons(),
            out@ == out0 + over_buttons(e, pid, loc, hit, btns@.take(i as int), st0).0,
            state@ == over_buttons(e, pid, loc, hit, btns@.take(i as int), st0).1,
            state_ok(state@, now),
    {
        do_over_button(e, pid, loc, hit, btns[i], state, out, now);
        proof {
            assert(btns@.take(i as int + 1).drop_last() =~= btns@.take(i as int));
            assert(btns@.take(i as int + 1).last() == btns@[i as int]);
        }
    }
    out.push(Pointer::new(e, pid, loc, PointerEvent::Over(Over { hit })));
    proof {
        assert(btns@.take(nb as int) =~= all_buttons());
        assert(out@ =~= out0 + over_buttons(e, pid, loc, hit, all_buttons(), st0).0.push(
            envelope(e, pid, loc, PointerEvent::Over(Over { hit })),
        ));
    }
}

/// Hover gain for one pointer's current hit list.
fn do_over_hits(
    pid: PointerId,
    hits: &Vec<(Entity, HitData)>,
    prev: &HoverMap,
    locs: &Vec<(PointerId, Location)>,
    state: &mut PointerState,
    out: &mut Vec<Pointer<PointerEvent>>,
    now: u64,
)
    requires
        state_ok(old(state)@, now),
    ensures
        final(out)@ == old(out)@ + over_hits(pid, hits@, prev@, locs@, old(state)@).0,
        final(state)@ == over_hits(pid, hits@, prev@, locs@, old(state)@).1,
        state_ok(final(state)@, now),
{
    let ghost st0 = state@;
    let ghost out0 = out@;
    let n = hits.len();
    for i in 0..n
        invariant
            n == hits@.len(),
            out@ == out0 + over_hits(pid, hits@.take(i as int), prev@, locs@, st0).0,
            state@ == over_hits(pid, hits@.take(i as int), prev@, locs@, st0).1,
            state_ok(state@, now),
    {
        do_over_entity(pid, hits[i].0, hits[i].1, prev, locs, state, out, now);
        proof {
            assert(hits@.take(i as int + 1).drop_last() =~= hits@.take(i as int));
            assert(hits@.take(i as int + 1).last() == hits@[i as int]);
        }
    }
    proof {
        assert(hits@.take(n as int) =~= hits@);
    }
}

/// Phase 2: hover gain over the whole current snapshot.
fn do_phase_over(
    cur: &HoverMap,
    prev: &HoverMap,
    locs: &Vec<(PointerId, Location)>,
    state: &mut PointerState,
    out: &mut Vec<Pointer<PointerEvent>>,
    now: u64,
)
    requires
        state_ok(old(state)@, now),
    ensures
        final(out)@ == old(out)@ + phase_over(cur@, prev@, locs@, old(state)@).0,
        final(state)@ == phase_over(cur@, prev@, locs@, old(state)@).1,
        state_ok(final(state)@, now),
{
    let ghost st0 = state@;
    let ghost out0 = out@;
    let n = cur.entries.len();
    for i in 0..n
        invariant
            n == cur@.len(),
            out@ == out0 + phase_over(cur@.take(i as int), prev@, locs@, st0).0,
            state@ == phase_over(cur@.take(i as int), prev@, locs@, st0).1,
            state_ok(state@, now),
    {
        let pid = cur.entries[i].0;
        do_over_hits(pid, &cur.entries[i].1, prev, locs, state, out, now);
        proof {
            assert(cur@.take(i as int + 1).drop_last() =~= cur@.take(i as int));
            assert(cur@.take(i as int + 1).last() == cur@[i as int]);
        }
    }
    proof {
        assert(cur@.take(n as int) =~= cur@);
    }
}

/// A press: `Down` to every hovered entity, each recorded as pressing.
fn do_down_step(
    pid: PointerId,
    loc: Location,
    b: PointerButton,
    hits: &Vec<(Entity, HitData)>,
    state: &mut PointerState,
    out: &mut Vec<Pointer<PointerEvent>>,
    now: u64,
)
    requires
        state_ok(old(state)@, now),
        vec2_ok(loc.position),
    ensures
        final(out)@ == old(out)@ + down_step(pid, loc, b, hits@, old(state)@, now).0,
        final(state)@ == down_step(pid, loc, b, hits@, old(state)@, now).1,
        state_ok(final(state)@, now),
{
    let ghost st0 = state@;
    let ghost out0 = out@;
    let mut bs = state.get_state(pid, b);
    let ghost bs0 = bs@;
    proof {
        assert(bstate_ok(st0.at(pid, b), now));
    }
    let n = hits.len();
    for i in 0..n
        invariant
            n == hits@.len(),
            bs.dragging@ == bs0.dragging,
            bs.dragging_over@ == bs0.dragging_over,
            out@ == out0 + down_hits(pid, loc, b, hits@.take(i as int), bs0.pressing, now).0,
            bs.pressing@ == down_hits(pid, loc, b, hits@.take(i as int), bs0.pressing, now).1,
    {
        let e = hits[i].0;
        let hit = hits[i].1;
        out.push(Pointer::new(e, pid, loc, PointerEvent::Down(Down { button: b, hit })));
        al_set(&mut bs.pressing, e, PressEntry { location: loc, time: now, hit });
        proof {
            assert(hits@.take(i as int + 1).drop_last() =~= hits@.take(i as int));
            assert(hits@.take(i as int + 1).last() == hits@[i as int]);
        }
    }
    proof {
        assert(hits@.take(n as int) =~= hits@);
        crate::model::lemma_down_hits_ok(pid, loc, b, hits@, bs0.pressing, now);
        assert(bs@ =~= (BState {
            pressing: down_hits(pid, loc, b, hits@, bs0.pressing, now).1,
            ..bs0
        }));
        assert(bstate_ok(bs@, now));
        lemma_state_ok_upd(st0, pid, b, bs@, now);
    }
    state.set_state(pid, b, bs);
}

/// `DragDrop` to every drag-hovered entity, for one dropped drag.
fn do_drop_drops(
    pid: PointerId,
    loc: Location,
    b: PointerButton,
    dropped: Entity,
    over: &Vec<(Entity, HitData)>,
    out: &mut Vec<Pointer<PointerEvent>>,
)
    ensures
        final(out)@ == old(out)@ + drop_drops(pid, loc, b, dropped, over@),
{
    let ghost out0 = out@;
    let n = over.len();
    for i in 0..n
        invariant
            n == over@.len(),
            out@ == out0 + drop_drops(pid, loc, b, dropped, over@.take(i as int)),
    {
        out.push(
            Pointer::new(
                over[i].0,
                pid,
                loc,
                PointerEvent::DragDrop(DragDrop { button: b, dropped, hit: over[i].1 }),
            ),
        );
        proof {
            assert(over@.take(i as int + 1).drop_last() =~= over@.take(i as int));
            assert(over@.take(i as int + 1).last() == over@[i as int]);
        }
    }
    proof {
        assert(over@.take(n as int) =~= over@);
    }
}

/// `DragLeave` to every drag-hovered entity, for one ending drag.
fn do_drop_leaves(
    pid: PointerId,
    loc: Location,
    b: PointerButton,
    dragged: Entity,
    over: &Vec<(Entity, HitData)>,
    out: &mut Vec<Pointer<PointerEvent>>,
)
    ensures
        final(out)@ == old(out)@ + drop_leaves(pid, loc, b, dragged, over@),
{
    let ghost out0 = out@;
    let n = over.len();
    for i in 0..n
        invariant
            n == over@.len(),
            out@ == out0 + drop_leaves(pid, loc, b, dragged, over@.take(i as int)),
    {
        out.push(
            Pointer::new(
                over[i].0,
                pid,
                loc,
                PointerEvent::DragLeave(DragLeave { button: b, dragged, hit: over[i].1 }),
            ),
        );
        proof {
            assert(over@.take(i as int + 1).drop_last() =~= over@.take(i as int));
            assert(over@.take(i as int + 1).last() == over@[i as int]);
        }
    }
    proof {
        assert(over@.take(n as int) =~= over@);
    }
}

/// A release: clicks and ups over last frame's hover, the drop sequence,
/// then this button's record is emptied.
fn do_up_step(
    pid: PointerId,
    loc: Location,
    b: PointerButton,
    hits: &Vec<(Entity, HitData)>,
    state: &mut PointerState,
    out: &mut Vec<Pointer<PointerEvent>>,
    now: u64,
)
    requires
        state_ok(old(state)@, now),
    ensures
        final(out)@ == old(out)@ + up_step(pid, loc, b, hits@, old(state)@, now).0,
        final(state)@ == up_step(pid, loc, b, hits@, old(state)@, now).1,
        state_ok(final(state)@, now),
{
    let ghost st0 = state@;
    let ghost out0 = out@;
    let bs = state.get_state(pid, b);
    let ghost bs0 = bs@;
    proof {
        assert(bstate_ok(st0.at(pid, b), now));
    }
    let n = hits.len();
    for i in 0..n
        invariant
            n == hits@.len(),
            out@ == out0 + up_clicks(pid, loc, b, hits@.take(i as int), bs0.pressing, now),
    {
        let e = hits[i].0;
        let hit = hits[i].1;
        match al_lookup(&bs.pressing, e) {
            Some(en) => {
                proof {
                    lemma_al_get_entry(bs0.pressing, e);
                    let j = choose|j: int|
                        0 <= j < bs0.pressing.len() && #[trigger] bs0.pressing[j] == (e, en);
                    assert(bs0.pressing[j].1.time <= now);
                }
                out.push(
                    Pointer::new(
                        e,
                        pid,
                        loc,
                        PointerEvent::Click(
                            Click { button: b, hit, duration: now - en.time },
                        ),
                    ),
                );
            },
            None => {},
        }
        out.push(Pointer::new(e, pid, loc, PointerEvent::Up(Up { button: b, hit })));
        proof {
            assert(hits@.take(i as int + 1).drop_last() =~= hits@.take(i as int));
            assert(hits@.take(i as int + 1).last() == hits@[i as int]);
            assert(out@ =~= out0 + up_clicks(pid, loc, b, hits@.take(i as int + 1), bs0.pressing, now));
        }
    }
    proof {
        assert(hits@.take(n as int) =~= hits@);
    }
    let ghost out1 = out@;
    let nd = bs.dragging.len();
    for i in 0..nd
        invariant
            nd == bs.dragging@.len(),
            bs@ == bs0,
            out@ == out1 + up_drops(pid, loc, b, bs0.dragging.take(i as int), bs0.dragging_over),
    {
        let d = bs.dragging[i].0;
        let en = bs.dragging[i].1;
        do_drop_drops(pid, loc, b, d, &bs.dragging_over, out);
        proof {
            assert(vec2_ok(en.start_pos) && vec2_ok(en.latest_pos));
        }
        let dist = en.latest_pos.sub(en.start_pos);
        out.push(
            Pointer::new(d, pid, loc, PointerEvent::DragEnd(DragEnd { button: b, distance: dist })),
        );
        do_drop_leaves(pid, loc, b, d, &bs.dragging_over, out);
        proof {
            assert(bs0.dragging.take(i as int + 1).drop_last() =~= bs0.dragging.take(i as int));
            assert(bs0.dragging.take(i as int + 1).last() == bs0.dragging[i as int]);
            assert(out@ =~= out1 + up_drops(
                pid,
                loc,
                b,
                bs0.dragging.take(i as int + 1),
                bs0.dragging_over,
            ));
        }
    }
    proof {
        assert(bs0.dragging.take(nd as int) =~= bs0.dragging);
        assert(bstate_ok(empty_bstate(), now));
        lemma_state_ok_upd(st0, pid, b, empty_bstate(), now);
        assert(out@ =~= out0 + (up_clicks(pid, loc, b, hits@, bs0.pressing, now) + up_drops(
            pid,
            loc,
            b,
            bs0.dragging,
            bs0.dragging_over,
        )));
    }
    state.set_state(pid, b, PointerButtonState::new());
}

/// `DragOver` to every hovered entity other than the dragged one.
fn do_drag_overs(
    pid: PointerId,
    loc: Location,
    b: PointerButton,
    dragged: Entity,
    hits: &Vec<(Entity, HitData)>,
    out: &mut Vec<Pointer<PointerEvent>>,
)
    ensures
        final(out)@ == old(out)@ + drag_overs(pid, loc, b, dragged, hits@),
{
    let ghost out0 = out@;
    let n = hits.len();
    for i in 0..n
        invariant
            n == hits@.len(),
            out@ == out0 + drag_overs(pid, loc, b, dragged, hits@.take(i as int)),
    {
        if hits[i].0 != dragged {
            out.push(
                Pointer::new(
                    hits[i].0,
                    pid,
                    loc,
                    PointerEvent::DragOver(DragOver { button: b, dragged, hit: hits[i].1 }),
                ),
            );
        }
        proof {
            assert(hits@.take(i as int + 1).drop_last() =~= hits@.take(i as int));
            assert(hits@.take(i as int + 1).last() == hits@[i as int]);
        }
    }
    proof {
        assert(hits@.take(n as int) =~= hits@);
    }
}

/// One button's part of a move: drag starts, then drags.
fn do_moved_button(
    pid: PointerId,
    loc: Location,
    b: PointerButton,
    hits: &Vec<(Entity, HitData)>,
    state: &mut PointerState,
    out: &mut Vec<Pointer<PointerEvent>>,
    now: u64,
)
    requires
        state_ok(old(state)@, now),
        vec2_ok(loc.position),
    ensures
        final(out)@ == old(out)@ + moved_button(pid, loc, b, hits@, old(state)@).0,
        final(state)@ == moved_button(pid, loc, b, hits@, old(state)@).1,
        state_ok(final(state)@, now),
{
    let ghost st0 = state@;
    let ghost out0 = out@;
    let mut bs = state.get_state(pid, b);
    let ghost bs0 = bs@;
    proof {
        assert(bstate_ok(st0.at(pid, b), now));
    }
    let np = bs.pressing.len();
    for i in 0..np
        invariant
            np == bs.pressing@.len(),
            bs.pressing@ == bs0.pressing,
            bs.dragging_over@ == bs0.dragging_over,
            out@ == out0 + move_starts(
                pid,
                b,
                bs0.pressing.take(i as int),
                bs0.dragging,
                loc.position,
            ).0,
            bs.dragging@ == move_starts(
                pid,
                b,
                bs0.pressing.take(i as int),
                bs0.dragging,
                loc.position,
            ).1,
    {
        let e = bs.pressing[i].0;
        let en = bs.pressing[i].1;
        if !al_has(&bs.dragging, e) {
            out.push(
                Pointer::new(
                    e,
                    pid,
                    en.location,
                    PointerEvent::DragStart(DragStart { button: b, hit: en.hit }),
                ),
            );
            al_set(
                &mut bs.dragging,
                e,
                DragEntry { start_pos: en.location.position, latest_pos: loc.position },
            );
        }
        proof {
            assert(bs0.pressing.take(i as int + 1).drop_last() =~= bs0.pressing.take(i as int));
            assert(bs0.pressing.take(i as int + 1).last() == bs0.pressing[i as int]);
        }
    }
    proof {
        assert(bs0.pressing.take(np as int) =~= bs0.pressing);
        crate::model::lemma_move_starts_ok(pid, b, bs0.pressing, bs0.dragging, loc.position, now);
    }
    let ghost dr1 = bs.dragging@;
    let ghost out1 = out@;
    let mut dr2: Vec<(Entity, DragEntry)> = Vec::new();
    let nd = bs.dragging.len();
    for i in 0..nd
        invariant
            nd == bs.dragging@.len(),
            bs.dragging@ == dr1,
            out@ == out1 + move_drags(pid, loc, b, dr1.take(i as int), hits@).0,
            dr2@ == move_drags(pid, loc, b, dr1.take(i as int), hits@).1,
    {
        let d = bs.dragging[i].0;
        let en = bs.dragging[i].1;
        proof {
            assert(vec2_ok(en.start_pos) && vec2_ok(en.latest_pos));
        }
        let delta = loc.position.sub(en.latest_pos);
        if delta.is_zero() {
            dr2.push((d, en));
        } else {
            let dist = loc.position.sub(en.start_pos);
            out.push(
                Pointer::new(
                    d,
                    pid,
                    loc,
                    PointerEvent::Drag(Drag { button: b, distance: dist, delta }),
                ),
            );
            do_drag_overs(pid, loc, b, d, hits, out);
            dr2.push((d, DragEntry { start_pos: en.start_pos, latest_pos: loc.position }));
        }
        proof {
            assert(dr1.take(i as int + 1).drop_last() =~= dr1.take(i as int));
            assert(dr1.take(i as int + 1).last() == dr1[i as int]);
            assert(out@ =~= out1 + move_drags(pid, loc, b, dr1.take(i as int + 1), hits@).0);
        }
    }
    proof {
        assert(dr1.take(nd as int) =~= dr1);
        crate::model::lemma_move_drags_ok(pid, loc, b, dr1, hits@);
    }
    bs.dragging = dr2;
    proof {
        assert(bs@ =~= (BState {
            dragging: move_drags(
                pid,
                loc,
                b,
                move_starts(pid, b, bs0.pressing, bs0.dragging, loc.position).1,
                hits@,
            ).1,
            ..bs0
        }));
        assert(bstate_ok(bs@, now));
        lemma_state_ok_upd(st0, pid, b, bs@, now);
        assert(out@ =~= out0 + moved_button(pid, loc, b, hits@, st0).0);
    }
    state.set_state(pid, b, bs);
}

/// A move action: per-button drag processing, then `Move` to every
/// hovered entity.
fn do_moved_step(
    pid: PointerId,
    loc: Location,
    delta: Vec2,
    hits: &Vec<(Entity, HitData)>,
    state: &mut PointerState,
    out: &mut Vec<Pointer<PointerEvent>>,
    now: u64,
)
    requires
        state_ok(old(state)@, now),
        vec2_ok(loc.position),
    ensures
        final(out)@ == old(out)@ + moved_step(pid, loc, delta, hits@, old(state)@).0,
        final(state)@ == moved_step(pid, loc, delta, hits@, old(state)@).1,
        state_ok(final(state)@, now),
{
    let ghost st0 = state@;
    let ghost out0 = out@;
    let btns = PointerButton::all();
    let nb = btns.len();
    for i in 0..nb
        invariant
            nb == btns@.len(),
            btns@ == all_buttons(),
            out@ == out0 + moved_buttons(pid, loc, btns@.take(i as int), hits@, st0).0,
            state@ == moved_buttons(pid, loc, btns@.take(i as int), hits@, st0).1,
            state_ok(state@, now),
    {
        do_moved_button(pid, loc, btns[i], hits, state, out, now);
        proof {
            assert(btns@.take(i as int + 1).drop_last() =~= btns@.take(i as int));
            assert(btns@.take(i as int + 1).last() == btns@[i as int]);
        }
    }
    let ghost out1 = out@;
    let n = hits.len();
    for i in 0..n
        invariant
            n == hits@.len(),
            out@ == out1 + move_moves(pid, loc, delta, hits@.take(i as int)),
    {
        out.push(
            Pointer::new(
                hits[i].0,
                pid,
                loc,
                PointerEvent::Move(Move { hit: hits[i].1, delta }),
            ),
        );
        proof {
            assert(hits@.take(i as int + 1).drop_last() =~= hits@.take(i as int));
            assert(hits@.take(i as int + 1).last() == hits@[i as int]);
        }
    }
    proof {
        assert(btns@.take(nb as int) =~= all_buttons());
        assert(hits@.take(n as int) =~= hits@);
        assert(out@ =~= out0 + (moved_buttons(pid, loc, all_buttons(), hits@, st0).0 + move_moves(
            pid,
            loc,
            delta,
            hits@,
        )));
    }
}

/// A cancellation: `Cancel` to every hovered entity, then the pointer's
/// whole store is cleared.
fn do_cancel_step(
    pid: PointerId,
    loc: Location,
    hits: &Vec<(Entity, HitData)>,
    state: &mut PointerState,
    out: &mut Vec<Pointer<PointerEvent>>,
    now: u64,
)
    requires
        state_ok(old(state)@, now),
    ensures
        final(out)@ == old(out)@ + cancel_step(pid, loc, hits@, old(state)@).0,
        final(state)@ == cancel_step(pid, loc, hits@, old(state)@).1,
        state_ok(final(state)@, now),
{
    let ghost st0 = state@;
    let ghost out0 = out@;
    let n = hits.len();
    for i in 0..n
        invariant
            n == hits@.len(),
            out@ == out0 + cancel_events(pid, loc, hits@.take(i as int)),
    {
        out.push(
            Pointer::new(
                hits[i].0,
                pid,
                loc,
                PointerEvent::Cancel(Cancel { hit: hits[i].1 }),
            ),
        );
        proof {
            assert(hits@.take(i as int + 1).drop_last() =~= hits@.take(i as int));
            assert(hits@.take(i as int + 1).last() == hits@[i as int]);
        }
    }
    proof {
        assert(hits@.take(n as int) =~= hits@);
        lemma_state_ok_clear(st0, pid, now);
    }
    state.clear(pid);
}

/// One input action of the replay phase.
fn do_step(
    inp: PointerInput,
    cur: &HoverMap,
    prev: &HoverMap,
    state: &mut PointerState,
    out: &mut Vec<Pointer<PointerEvent>>,
    now: u64,
)
    requires
        state_ok(old(state)@, now),
        vec2_ok(inp.location.position),
    ensures
        final(out)@ == old(out)@ + step(inp, cur@, prev@, old(state)@, now).0,
        final(state)@ == step(inp, cur@, prev@, old(state)@, now).1,
        state_ok(final(state)@, now),
{
    match inp.action {
        PointerAction::Pressed { direction, button } => match direction {
            PressDirection::Down => {
                let hits = cur.hits_of(inp.pointer_id);
                do_down_step(inp.pointer_id, inp.location, button, &hits, state, out, now);
            },
            PressDirection::Up => {
                let hits = prev.hits_of(inp.pointer_id);
                do_up_step(inp.pointer_id, inp.location, button, &hits, state, out, now);
            },
        },
        PointerAction::Moved { delta } => {
            let hits = cur.hits_of(inp.pointer_id);
            do_moved_step(inp.pointer_id, inp.location, delta, &hits, state, out, now);
        },
        PointerAction::Canceled => {
            let hits = cur.hits_of(inp.pointer_id);
            do_cancel_step(inp.pointer_id, inp.location, &hits, state, out, now);
        },
    }
}

/// Whether a pointer is in the list of pointers canceled this cycle.
fn pid_listed(v: &Vec<PointerId>, pid: PointerId) -> (r: bool)
    ensures
        r == crate::model::canceled_has(v@, pid),
{
    let n = v.len();
    for i in 0..n
        invariant
            n == v@.len(),
            forall|j: int| 0 <= j < i ==> v@[j] != pid,
    {
        if v[i] == pid {
            return true;
        }
    }
    proof {
        assert(!crate::model::canceled_has(v@, pid));
    }
    false
}

/// One whole dispatch cycle.
///
/// Reconciles the previous and current hover snapshots, then replays the
/// drained input stream in arrival order, emitting the strictly ordered
/// event sequence of the model and updating the store in place. The two
/// snapshots are the per-frame final ones: every action of the cycle
/// shares the same hover determination. Once a pointer's cancellation is
/// replayed, its remaining actions of the cycle are dropped: no further
/// event for that pointer is emitted this cycle after `Cancel`. An
/// unresolvable pointer location is the only soft failure: that pointer's
/// hover transition is skipped and the cycle continues.
pub fn pointer_events(
    input_events: &Vec<PointerInput>,
    pointer_locations: &Vec<(PointerId, Location)>,
    hover_map: &HoverMap,
    previous_hover_map: &HoverMap,
    pointer_state: &mut PointerState,
    now: u64,
) -> (out: Vec<Pointer<PointerEvent>>)
    requires
        state_ok(old(pointer_state)@, now),
        inputs_ok(input_events@),
    ensures
        out@ == cycle(
            previous_hover_map@,
            hover_map@,
            pointer_locations@,
            input_events@,
            old(pointer_state)@,
            now,
        ).0,
        final(pointer_state)@ == cycle(
            previous_hover_map@,
            hover_map@,
            pointer_locations@,
            input_events@,
            old(pointer_state)@,
            now,
        ).1,
        state_ok(final(pointer_state)@, now),
{
    let ghost st0 = pointer_state@;
    let mut out: Vec<Pointer<PointerEvent>> = Vec::new();
    do_phase_out(previous_hover_map, hover_map, pointer_locations, pointer_state, &mut out, now);
    let ghost p1 = phase_out(previous_hover_map@, hover_map@, pointer_locations@, st0);
    proof {
        assert(out@ =~= p1.0);
    }
    do_phase_over(hover_map, previous_hover_map, pointer_locations, pointer_state, &mut out, now);
    let ghost p2 = phase_over(hover_map@, previous_hover_map@, pointer_locations@, p1.1);
    let ghost out2 = out@;
    let ghost st2 = pointer_state@;
    let ghost c0 = Seq::<PointerId>::empty();
    let mut canceled: Vec<PointerId> = Vec::new();
    let n = input_events.len();
    proof {
        assert(canceled@ =~= c0);
    }
    for i in 0..n
        invariant
            n == input_events@.len(),
            out@ == out2 + replay_from(
                input_events@.take(i as int),
                hover_map@,
                previous_hover_map@,
                st2,
                c0,
                now,
            ).0,
            pointer_state@ == replay_from(
                input_events@.take(i as int),
                hover_map@,
                previous_hover_map@,
                st2,
                c0,
                now,
            ).1,
            canceled@ == replay_from(
                input_events@.take(i as int),
                hover_map@,
                previous_hover_map@,
                st2,
                c0,
                now,
            ).2,
            state_ok(pointer_state@, now),
    {
        let inp = input_events[i];
        if !pid_listed(&canceled, inp.pointer_id) {
            proof {
                assert(vec2_ok(input_events@[i as int].location.position));
            }
            do_step(inp, hover_map, previous_hover_map, pointer_state, &mut out, now);
            match inp.action {
                PointerAction::Canceled => canceled.push(inp.pointer_id),
                _ => {},
            }
        }
        proof {
            assert(input_events@.take(i as int + 1).drop_last() =~= input_events@.take(i as int));
            assert(input_events@.take(i as int + 1).last() == input_events@[i as int]);
        }
    }
    proof {
        assert(input_events@.take(n as int) =~= input_events@);
        assert(out@ =~= p1.0 + p2.0 + replay(
            input_events@,
            hover_map@,
            previous_hover_map@,
            p2.1,
            now,
        ).0);
    }
    out
}

} // verus!
