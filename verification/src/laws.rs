//! The laws of a dispatch cycle, proved of the model in `crate::model`
//! (and therefore, through the contract of
//! [`crate::dispatch::pointer_events`], of the executable dispatcher).

use vstd::prelude::*;
use crate::alist::has_key;
use crate::events::{Pointer, PointerEvent};
use crate::hover::{hover_has, hover_of, hover_wf, lemma_hover_of_at};
use crate::model::{
    cancel_events, cancel_step, cycle, down_hits, down_step, drag_overs, drop_drops, drop_leaves,
    enter_drags, lookup_loc, move_drags, move_moves, move_starts, moved_button, moved_buttons,
    moved_step, canceled_has, replay_from, out_button, out_buttons, out_drag_leaves, out_entity, out_hits, over_button,
    over_buttons, over_entity, over_hits, phase_out, phase_over, replay, step, up_clicks, up_drops,
    up_step,
};
use crate::pointer::{
    all_buttons, Entity, HitData, Location, PointerButton, PointerId, Vec2,
};
use crate::state::{DragEntry, PressEntry, SModel};

verus! {

/// Some entry of the snapshot belongs to this pointer.
pub open spec fn hmap_has_pointer(
    h: Seq<(PointerId, Vec<(Entity, HitData)>)>,
    pid: PointerId,
) -> bool {
    exists|i: int| 0 <= i < h.len() && (#[trigger] h[i]).0 == pid
}

/// Some entry of the snapshot pairs this pointer with this entity.
pub open spec fn hmap_pair(
    h: Seq<(PointerId, Vec<(Entity, HitData)>)>,
    pid: PointerId,
    e: Entity,
) -> bool {
    exists|i: int, j: int|
        0 <= i < h.len() && 0 <= j < h[i].1@.len() && h[i].0 == pid && (#[trigger] h[i].1@[j]).0
            == e
}

// ---------------------------------------------------------------------------
// Shape of phase 1 (hover loss).
// ---------------------------------------------------------------------------

proof fn lemma_out_drag_leaves_shape(
    lost: Entity,
    pid: PointerId,
    loc: Location,
    hit: HitData,
    b: PointerButton,
    dragging: Seq<(Entity, DragEntry)>,
)
    ensures
        forall|k: int|
            0 <= k < out_drag_leaves(lost, pid, loc, hit, b, dragging).len() ==> {
                let ev = #[trigger] out_drag_leaves(lost, pid, loc, hit, b, dragging)[k];
                ev.pointer_id == pid && ev.target == lost && ev.event is DragLeave
            },
    decreases dragging.len(),
{
    if dragging.len() > 0 {
        lemma_out_drag_leaves_shape(lost, pid, loc, hit, b, dragging.drop_last());
    }
}

proof fn lemma_out_buttons_shape(
    lost: Entity,
    pid: PointerId,
    loc: Location,
    hit: HitData,
    btns: Seq<PointerButton>,
    st: SModel,
)
    ensures
        forall|k: int|
            0 <= k < out_buttons(lost, pid, loc, hit, btns, st).0.len() ==> {
                let ev = #[trigger] out_buttons(lost, pid, loc, hit, btns, st).0[k];
                ev.pointer_id == pid && ev.target == lost && ev.event is DragLeave
            },
        forall|p2: PointerId, b2: PointerButton|
            (#[trigger] out_buttons(lost, pid, loc, hit, btns, st).1.at(p2, b2)).pressing == st.at(
                p2,
                b2,
            ).pressing && out_buttons(lost, pid, loc, hit, btns, st).1.at(p2, b2).dragging
                == st.at(p2, b2).dragging,
    decreases btns.len(),
{
    if btns.len() > 0 {
        lemma_out_buttons_shape(lost, pid, loc, hit, btns.drop_last(), st);
        let pre = out_buttons(lost, pid, loc, hit, btns.drop_last(), st);
        let b = btns.last();
        lemma_out_drag_leaves_shape(lost, pid, loc, hit, b, pre.1.at(pid, b).dragging);
        let r = out_buttons(lost, pid, loc, hit, btns, st);
        let chunk = out_drag_leaves(lost, pid, loc, hit, b, pre.1.at(pid, b).dragging);
        assert forall|k: int| 0 <= k < r.0.len() implies {
            let ev = #[trigger] r.0[k];
            ev.pointer_id == pid && ev.target == lost && ev.event is DragLeave
        } by {
            if k < pre.0.len() {
                assert(r.0[k] == pre.0[k]);
            } else {
                assert(r.0[k] == chunk[k - pre.0.len()]);
            }
        }
        assert forall|p2: PointerId, b2: PointerButton|
            (#[trigger] r.1.at(p2, b2)).pressing == st.at(p2, b2).pressing && r.1.at(p2, b2).dragging
                == st.at(p2, b2).dragging by {
            if p2 == pid && b2 == b {
            } else {
                assert(r.1.at(p2, b2) == pre.1.at(p2, b2));
            }
        }
    }
}

proof fn lemma_out_entity_shape(
    pid: PointerId,
    e: Entity,
    hit: HitData,
    cur: Seq<(PointerId, Vec<(Entity, HitData)>)>,
    locs: Seq<(PointerId, Location)>,
    st: SModel,
)
    ensures
        forall|k: int|
            0 <= k < out_entity(pid, e, hit, cur, locs, st).0.len() ==> {
                let ev = #[trigger] out_entity(pid, e, hit, cur, locs, st).0[k];
                ev.pointer_id == pid && ev.target == e && (ev.event is Out || ev.event is DragLeave)
                    && (ev.event is Out ==> k == 0)
            },
        out_entity(pid, e, hit, cur, locs, st).0.len() > 0 ==> !hover_has(cur, pid, e),
        forall|p2: PointerId, b2: PointerButton|
            (#[trigger] out_entity(pid, e, hit, cur, locs, st).1.at(p2, b2)).pressing == st.at(
                p2,
                b2,
            ).pressing && out_entity(pid, e, hit, cur, locs, st).1.at(p2, b2).dragging == st.at(
                p2,
                b2,
            ).dragging,
{
    let r = out_entity(pid, e, hit, cur, locs, st);
    if !hover_has(cur, pid, e) {
        match lookup_loc(locs, pid) {
            Option::None => {},
            Option::Some(loc) => {
                lemma_out_buttons_shape(e, pid, loc, hit, all_buttons(), st);
                let drags = out_buttons(e, pid, loc, hit, all_buttons(), st);
                assert forall|k: int| 0 <= k < r.0.len() implies {
                    let ev = #[trigger] r.0[k];
                    ev.pointer_id == pid && ev.target == e && (ev.event is Out
                        || ev.event is DragLeave) && (ev.event is Out ==> k == 0)
                } by {
                    if k > 0 {
                        assert(r.0[k] == drags.0[k - 1]);
                    }
                }
            },
        }
    }
}

proof fn lemma_out_hits_shape(
    pid: PointerId,
    hits: Seq<(Entity, HitData)>,
    cur: Seq<(PointerId, Vec<(Entity, HitData)>)>,
    locs: Seq<(PointerId, Location)>,
    st: SModel,
)
    requires
        forall|a: int, c: int|
            0 <= a < c < hits.len() ==> (#[trigger] hits[a]).0 != (#[trigger] hits[c]).0,
    ensures
        forall|k: int|
            0 <= k < out_hits(pid, hits, cur, locs, st).0.len() ==> {
                let ev = #[trigger] out_hits(pid, hits, cur, locs, st).0[k];
                ev.pointer_id == pid && has_key(hits, ev.target) && (ev.event is Out
                    || ev.event is DragLeave) && (ev.event is Out ==> !hover_has(
                    cur,
                    pid,
                    ev.target,
                ))
            },
        forall|k1: int, k2: int|
            0 <= k1 < out_hits(pid, hits, cur, locs, st).0.len() && 0 <= k2 < out_hits(
                pid,
                hits,
                cur,
                locs,
                st,
            ).0.len() && (#[trigger] out_hits(pid, hits, cur, locs, st).0[k1]).event is Out && (
            #[trigger] out_hits(pid, hits, cur, locs, st).0[k2]).event is DragLeave && out_hits(
                pid,
                hits,
                cur,
                locs,
                st,
            ).0[k1].target == out_hits(pid, hits, cur, locs, st).0[k2].target ==> k1 < k2,
        forall|p2: PointerId, b2: PointerButton|
            (#[trigger] out_hits(pid, hits, cur, locs, st).1.at(p2, b2)).pressing == st.at(
                p2,
                b2,
            ).pressing && out_hits(pid, hits, cur, locs, st).1.at(p2, b2).dragging == st.at(
                p2,
                b2,
            ).dragging,
    decreases hits.len(),
{
    if hits.len() > 0 {
        lemma_out_hits_shape(pid, hits.drop_last(), cur, locs, st);
        let pre = out_hits(pid, hits.drop_last(), cur, locs, st);
        let e = hits.last().0;
        lemma_out_entity_shape(pid, e, hits.last().1, cur, locs, pre.1);
        let chunk = out_entity(pid, e, hits.last().1, cur, locs, pre.1);
        let r = out_hits(pid, hits, cur, locs, st);
        assert(r.0 == pre.0 + chunk.0);
        assert forall|k: int| 0 <= k < r.0.len() implies {
            let ev = #[trigger] r.0[k];
            ev.pointer_id == pid && has_key(hits, ev.target) && (ev.event is Out
                || ev.event is DragLeave) && (ev.event is Out ==> !hover_has(cur, pid, ev.target))
        } by {
            if k < pre.0.len() {
                assert(r.0[k] == pre.0[k]);
                let t = pre.0[k].target;
                assert(has_key(hits.drop_last(), t));
                let i = choose|i: int| 0 <= i < hits.drop_last().len() && (#[trigger] hits.drop_last()[i]).0 == t;
                assert(hits[i].0 == t);
            } else {
                assert(r.0[k] == chunk.0[k - pre.0.len()]);
                assert(hits[hits.len() - 1].0 == e);
            }
        }
        assert forall|k1: int, k2: int|
            0 <= k1 < r.0.len() && 0 <= k2 < r.0.len() && (#[trigger] r.0[k1]).event is Out && (
            #[trigger] r.0[k2]).event is DragLeave && r.0[k1].target == r.0[k2].target implies k1
            < k2 by {
            if k1 < pre.0.len() && k2 < pre.0.len() {
                assert(r.0[k1] == pre.0[k1]);
                assert(r.0[k2] == pre.0[k2]);
            } else if k1 >= pre.0.len() && k2 >= pre.0.len() {
                assert(r.0[k1] == chunk.0[k1 - pre.0.len()]);
                assert(r.0[k2] == chunk.0[k2 - pre.0.len()]);
                assert(k1 - pre.0.len() == 0);
                assert(k2 - pre.0.len() != 0);
            } else if k1 >= pre.0.len() && k2 < pre.0.len() {
                // an Out for the last entity cannot share its target with an
                // earlier entity's DragLeave: keys are unique
                assert(r.0[k1] == chunk.0[k1 - pre.0.len()]);
                assert(r.0[k2] == pre.0[k2]);
                assert(r.0[k1].target == e);
                let t = pre.0[k2].target;
                assert(has_key(hits.drop_last(), t));
                let i = choose|i: int| 0 <= i < hits.drop_last().len() && (#[trigger] hits.drop_last()[i]).0 == t;
                assert(hits[i].0 == t);
                assert(hits[hits.len() - 1].0 == e);
                assert(false);
            }
        }
        assert forall|p2: PointerId, b2: PointerButton|
            (#[trigger] r.1.at(p2, b2)).pressing == st.at(p2, b2).pressing && r.1.at(p2, b2).dragging
                == st.at(p2, b2).dragging by {
            assert(chunk.1.at(p2, b2).pressing == pre.1.at(p2, b2).pressing);
            assert(chunk.1.at(p2, b2).dragging == pre.1.at(p2, b2).dragging);
        }
    }
}

proof fn lemma_phase_out_shape(
    prev: Seq<(PointerId, Vec<(Entity, HitData)>)>,
    cur: Seq<(PointerId, Vec<(Entity, HitData)>)>,
    locs: Seq<(PointerId, Location)>,
    st: SModel,
)
    requires
        hover_wf(prev),
    ensures
        forall|k: int|
            0 <= k < phase_out(prev, cur, locs, st).0.len() ==> {
                let ev = #[trigger] phase_out(prev, cur, locs, st).0[k];
                hmap_has_pointer(prev, ev.pointer_id) && (ev.event is Out || ev.event is DragLeave)
                    && (ev.event is Out ==> !hover_has(cur, ev.pointer_id, ev.target))
            },
        forall|k1: int, k2: int|
            0 <= k1 < phase_out(prev, cur, locs, st).0.len() && 0 <= k2 < phase_out(
                prev,
                cur,
                locs,
                st,
            ).0.len() && (#[trigger] phase_out(prev, cur, locs, st).0[k1]).event is Out && (
            #[trigger] phase_out(prev, cur, locs, st).0[k2]).event is DragLeave && phase_out(
                prev,
                cur,
                locs,
                st,
            ).0[k1].pointer_id == phase_out(prev, cur, locs, st).0[k2].pointer_id && phase_out(
                prev,
                cur,
                locs,
                st,
            ).0[k1].target == phase_out(prev, cur, locs, st).0[k2].target ==> k1 < k2,
        forall|p2: PointerId, b2: PointerButton|
            (#[trigger] phase_out(prev, cur, locs, st).1.at(p2, b2)).pressing == st.at(
                p2,
                b2,
            ).pressing && phase_out(prev, cur, locs, st).1.at(p2, b2).dragging == st.at(
                p2,
                b2,
            ).dragging,
    decreases prev.len(),
{
    if prev.len() > 0 {
        assert(hover_wf(prev.drop_last()));
        lemma_phase_out_shape(prev.drop_last(), cur, locs, st);
        let pre = phase_out(prev.drop_last(), cur, locs, st);
        let p = prev.last().0;
        let hits = prev.last().1@;
        assert(forall|a: int, c: int|
            0 <= a < c < hits.len() ==> (#[trigger] hits[a]).0 != (#[trigger] hits[c]).0) by {
            assert(prev[prev.len() - 1].1@ == hits);
        }
        lemma_out_hits_shape(p, hits, cur, locs, pre.1);
        let chunk = out_hits(p, hits, cur, locs, pre.1);
        let r = phase_out(prev, cur, locs, st);
        assert(r.0 == pre.0 + chunk.0);
        assert forall|k: int| 0 <= k < r.0.len() implies {
            let ev = #[trigger] r.0[k];
            hmap_has_pointer(prev, ev.pointer_id) && (ev.event is Out || ev.event is DragLeave) && (
            ev.event is Out ==> !hover_has(cur, ev.pointer_id, ev.target))
        } by {
            if k < pre.0.len() {
                assert(r.0[k] == pre.0[k]);
                let q = pre.0[k].pointer_id;
                assert(hmap_has_pointer(prev.drop_last(), q));
                let i = choose|i: int|
                    0 <= i < prev.drop_last().len() && (#[trigger] prev.drop_last()[i]).0 == q;
                assert(prev[i].0 == q);
            } else {
                assert(r.0[k] == chunk.0[k - pre.0.len()]);
                assert(prev[prev.len() - 1].0 == p);
            }
        }
        assert forall|k1: int, k2: int|
            0 <= k1 < r.0.len() && 0 <= k2 < r.0.len() && (#[trigger] r.0[k1]).event is Out && (
            #[trigger] r.0[k2]).event is DragLeave && r.0[k1].pointer_id == r.0[k2].pointer_id
            && r.0[k1].target == r.0[k2].target implies k1 < k2 by {
            if k1 < pre.0.len() && k2 < pre.0.len() {
                assert(r.0[k1] == pre.0[k1]);
                assert(r.0[k2] == pre.0[k2]);
            } else if k1 >= pre.0.len() && k2 >= pre.0.len() {
                assert(r.0[k1] == chunk.0[k1 - pre.0.len()]);
                assert(r.0[k2] == chunk.0[k2 - pre.0.len()]);
            } else if k1 >= pre.0.len() && k2 < pre.0.len() {
                assert(r.0[k1] == chunk.0[k1 - pre.0.len()]);
                assert(r.0[k2] == pre.0[k2]);
                assert(r.0[k1].pointer_id == p);
                let q = pre.0[k2].pointer_id;
                assert(hmap_has_pointer(prev.drop_last(), q));
                let i = choose|i: int|
                    0 <= i < prev.drop_last().len() && (#[trigger] prev.drop_last()[i]).0 == q;
                assert(prev[i].0 == q);
                assert(prev[prev.len() - 1].0 == p);
                assert(false);
            } else {
                assert(r.0[k1] == pre.0[k1]);
                assert(r.0[k2] == chunk.0[k2 - pre.0.len()]);
            }
        }
        assert forall|p2: PointerId, b2: PointerButton|
            (#[trigger] r.1.at(p2, b2)).pressing == st.at(p2, b2).pressing && r.1.at(p2, b2).dragging
                == st.at(p2, b2).dragging by {
            assert(chunk.1.at(p2, b2).pressing == pre.1.at(p2, b2).pressing);
            assert(chunk.1.at(p2, b2).dragging == pre.1.at(p2, b2).dragging);
        }
    }
}

// ---------------------------------------------------------------------------
// Shape of phase 2 (hover gain).
// ---------------------------------------------------------------------------

proof fn lemma_enter_drags_shape(
    gained: Entity,
    pid: PointerId,
    loc: Location,
    hit: HitData,
    b: PointerButton,
    dragging: Seq<(Entity, DragEntry)>,
    over: Seq<(Entity, HitData)>,
)
    ensures
        forall|k: int|
            0 <= k < enter_drags(gained, pid, loc, hit, b, dragging, over).0.len() ==> {
                let ev = #[trigger] enter_drags(gained, pid, loc, hit, b, dragging, over).0[k];
                ev.pointer_id == pid && ev.target == gained && ev.event is DragEnter
            },
    decreases dragging.len(),
{
    if dragging.len() > 0 {
        lemma_enter_drags_shape(gained, pid, loc, hit, b, dragging.drop_last(), over);
    }
}

proof fn lemma_over_buttons_shape(
    gained: Entity,
    pid: PointerId,
    loc: Location,
    hit: HitData,
    btns: Seq<PointerButton>,
    st: SModel,
)
    ensures
        forall|k: int|
            0 <= k < over_buttons(gained, pid, loc, hit, btns, st).0.len() ==> {
                let ev = #[trigger] over_buttons(gained, pid, loc, hit, btns, st).0[k];
                ev.pointer_id == pid && ev.target == gained && ev.event is DragEnter
            },
        forall|p2: PointerId, b2: PointerButton|
            (#[trigger] over_buttons(gained, pid, loc, hit, btns, st).1.at(p2, b2)).pressing
                == st.at(p2, b2).pressing && over_buttons(gained, pid, loc, hit, btns, st).1.at(
                p2,
                b2,
            ).dragging == st.at(p2, b2).dragging,
    decreases btns.len(),
{
    if btns.len() > 0 {
        lemma_over_buttons_shape(gained, pid, loc, hit, btns.drop_last(), st);
        let pre = over_buttons(gained, pid, loc, hit, btns.drop_last(), st);
        let b = btns.last();
        let bs = pre.1.at(pid, b);
        lemma_enter_drags_shape(gained, pid, loc, hit, b, bs.dragging, bs.dragging_over);
        let chunk = enter_drags(gained, pid, loc, hit, b, bs.dragging, bs.dragging_over);
        let r = over_buttons(gained, pid, loc, hit, btns, st);
        assert forall|k: int| 0 <= k < r.0.len() implies {
            let ev = #[trigger] r.0[k];
            ev.pointer_id == pid && ev.target == gained && ev.event is DragEnter
        } by {
            if k < pre.0.len() {
                assert(r.0[k] == pre.0[k]);
            } else {
                assert(r.0[k] == chunk.0[k - pre.0.len()]);
            }
        }
        assert forall|p2: PointerId, b2: PointerButton|
            (#[trigger] r.1.at(p2, b2)).pressing == st.at(p2, b2).pressing && r.1.at(p2, b2).dragging
                == st.at(p2, b2).dragging by {
            if p2 == pid && b2 == b {
            } else {
                assert(r.1.at(p2, b2) == pre.1.at(p2, b2));
            }
        }
    }
}

proof fn lemma_over_entity_shape(
    pid: PointerId,
    e: Entity,
    hit: HitData,
    prev: Seq<(PointerId, Vec<(Entity, HitData)>)>,
    locs: Seq<(PointerId, Location)>,
    st: SModel,
)
    ensures
        forall|k: int|
            0 <= k < over_entity(pid, e, hit, prev, locs, st).0.len() ==> {
                let ev = #[trigger] over_entity(pid, e, hit, prev, locs, st).0[k];
                ev.pointer_id == pid && ev.target == e && (ev.event is DragEnter
                    || ev.event is Over) && (ev.event is Over ==> k == over_entity(
                    pid,
                    e,
                    hit,
                    prev,
                    locs,
                    st,
                ).0.len() - 1)
            },
        over_entity(pid, e, hit, prev, locs, st).0.len() > 0 ==> !hover_has(prev, pid, e),
        forall|p2: PointerId, b2: PointerButton|
            (#[trigger] over_entity(pid, e, hit, prev, locs, st).1.at(p2, b2)).pressing == st.at(
                p2,
                b2,
            ).pressing && over_entity(pid, e, hit, prev, locs, st).1.at(p2, b2).dragging == st.at(
                p2,
                b2,
            ).dragging,
{
    let r = over_entity(pid, e, hit, prev, locs, st);
    if !hover_has(prev, pid, e) {
        match lookup_loc(locs, pid) {
            Option::None => {},
            Option::Some(loc) => {
                lemma_over_buttons_shape(e, pid, loc, hit, all_buttons(), st);
                let enters = over_buttons(e, pid, loc, hit, all_buttons(), st);
                assert forall|k: int| 0 <= k < r.0.len() implies {
                    let ev = #[trigger] r.0[k];
                    ev.pointer_id == pid && ev.target == e && (ev.event is DragEnter
                        || ev.event is Over) && (ev.event is Over ==> k == r.0.len() - 1)
                } by {
                    if k < enters.0.len() {
                        assert(r.0[k] == enters.0[k]);
                    }
                }
            },
        }
    }
}

proof fn lemma_over_hits_shape(
    pid: PointerId,
    hits: Seq<(Entity, HitData)>,
    prev: Seq<(PointerId, Vec<(Entity, HitData)>)>,
    locs: Seq<(PointerId, Location)>,
    st: SModel,
)
    requires
        forall|a: int, c: int|
            0 <= a < c < hits.len() ==> (#[trigger] hits[a]).0 != (#[trigger] hits[c]).0,
    ensures
        forall|k: int|
            0 <= k < over_hits(pid, hits, prev, locs, st).0.len() ==> {
                let ev = #[trigger] over_hits(pid, hits, prev, locs, st).0[k];
                ev.pointer_id == pid && has_key(hits, ev.target) && (ev.event is DragEnter
                    || ev.event is Over)
            },
        forall|k1: int, k2: int|
            0 <= k1 < over_hits(pid, hits, prev, locs, st).0.len() && 0 <= k2 < over_hits(
                pid,
                hits,
                prev,
                locs,
                st,
            ).0.len() && (#[trigger] over_hits(pid, hits, prev, locs, st).0[k1]).event is DragEnter
                && (#[trigger] over_hits(pid, hits, prev, locs, st).0[k2]).event is Over
                && over_hits(pid, hits, prev, locs, st).0[k1].target == over_hits(
                pid,
                hits,
                prev,
                locs,
                st,
            ).0[k2].target ==> k1 < k2,
        forall|p2: PointerId, b2: PointerButton|
            (#[trigger] over_hits(pid, hits, prev, locs, st).1.at(p2, b2)).pressing == st.at(
                p2,
                b2,
            ).pressing && over_hits(pid, hits, prev, locs, st).1.at(p2, b2).dragging == st.at(
                p2,
                b2,
            ).dragging,
    decreases hits.len(),
{
    if hits.len() > 0 {
        lemma_over_hits_shape(pid, hits.drop_last(), prev, locs, st);
        let pre = over_hits(pid, hits.drop_last(), prev, locs, st);
        let e = hits.last().0;
        lemma_over_entity_shape(pid, e, hits.last().1, prev, locs, pre.1);
        let chunk = over_entity(pid, e, hits.last().1, prev, locs, pre.1);
        let r = over_hits(pid, hits, prev, locs, st);
        assert(r.0 == pre.0 + chunk.0);
        assert forall|k: int| 0 <= k < r.0.len() implies {
            let ev = #[trigger] r.0[k];
            ev.pointer_id == pid && has_key(hits, ev.target) && (ev.event is DragEnter
                || ev.event is Over)
        } by {
            if k < pre.0.len() {
                assert(r.0[k] == pre.0[k]);
                let t = pre.0[k].target;
                assert(has_key(hits.drop_last(), t));
                let i = choose|i: int|
                    0 <= i < hits.drop_last().len() && (#[trigger] hits.drop_last()[i]).0 == t;
                assert(hits[i].0 == t);
            } else {
                assert(r.0[k] == chunk.0[k - pre.0.len()]);
                assert(hits[hits.len() - 1].0 == e);
            }
        }
        assert forall|k1: int, k2: int|
            0 <= k1 < r.0.len() && 0 <= k2 < r.0.len() && (#[trigger] r.0[k1]).event is DragEnter
                && (#[trigger] r.0[k2]).event is Over && r.0[k1].target == r.0[k2].target implies k1
            < k2 by {
            if k1 < pre.0.len() && k2 < pre.0.len() {
                assert(r.0[k1] == pre.0[k1]);
                assert(r.0[k2] == pre.0[k2]);
            } else if k1 >= pre.0.len() && k2 >= pre.0.len() {
                assert(r.0[k1] == chunk.0[k1 - pre.0.len()]);
                assert(r.0[k2] == chunk.0[k2 - pre.0.len()]);
                assert(k2 - pre.0.len() == chunk.0.len() - 1);
                assert(k1 - pre.0.len() < chunk.0.len() - 1 || !(chunk.0[k1
                    - pre.0.len()].event is DragEnter) || !(chunk.0[k1
                    - pre.0.len()].event is Over));
            } else if k1 >= pre.0.len() && k2 < pre.0.len() {
                assert(r.0[k1] == chunk.0[k1 - pre.0.len()]);
                assert(r.0[k2] == pre.0[k2]);
                assert(r.0[k1].target == e);
                let t = pre.0[k2].target;
                assert(has_key(hits.drop_last(), t));
                let i = choose|i: int|
                    0 <= i < hits.drop_last().len() && (#[trigger] hits.drop_last()[i]).0 == t;
                assert(hits[i].0 == t);
                assert(hits[hits.len() - 1].0 == e);
                assert(false);
            }
        }
        assert forall|p2: PointerId, b2: PointerButton|
            (#[trigger] r.1.at(p2, b2)).pressing == st.at(p2, b2).pressing && r.1.at(p2, b2).dragging
                == st.at(p2, b2).dragging by {
            assert(chunk.1.at(p2, b2).pressing == pre.1.at(p2, b2).pressing);
            assert(chunk.1.at(p2, b2).dragging == pre.1.at(p2, b2).dragging);
        }
    }
}

proof fn lemma_phase_over_shape(
    cur: Seq<(PointerId, Vec<(Entity, HitData)>)>,
    prev: Seq<(PointerId, Vec<(Entity, HitData)>)>,
    locs: Seq<(PointerId, Location)>,
    st: SModel,
)
    requires
        hover_wf(cur),
    ensures
        forall|k: int|
            0 <= k < phase_over(cur, prev, locs, st).0.len() ==> {
                let ev = #[trigger] phase_over(cur, prev, locs, st).0[k];
                hmap_pair(cur, ev.pointer_id, ev.target) && (ev.event is DragEnter
                    || ev.event is Over)
            },
        forall|k1: int, k2: int|
            0 <= k1 < phase_over(cur, prev, locs, st).0.len() && 0 <= k2 < phase_over(
                cur,
                prev,
                locs,
                st,
            ).0.len() && (#[trigger] phase_over(cur, prev, locs, st).0[k1]).event is DragEnter && (
            #[trigger] phase_over(cur, prev, locs, st).0[k2]).event is Over && phase_over(
                cur,
                prev,
                locs,
                st,
            ).0[k1].pointer_id == phase_over(cur, prev, locs, st).0[k2].pointer_id && phase_over(
                cur,
                prev,
                locs,
                st,
            ).0[k1].target == phase_over(cur, prev, locs, st).0[k2].target ==> k1 < k2,
        forall|p2: PointerId, b2: PointerButton|
            (#[trigger] phase_over(cur, prev, locs, st).1.at(p2, b2)).pressing == st.at(
                p2,
                b2,
            ).pressing && phase_over(cur, prev, locs, st).1.at(p2, b2).dragging == st.at(
                p2,
                b2,
            ).dragging,
    decreases cur.len(),
{
    if cur.len() > 0 {
        assert(hover_wf(cur.drop_last()));
        lemma_phase_over_shape(cur.drop_last(), prev, locs, st);
        let pre = phase_over(cur.drop_last(), prev, locs, st);
        let p = cur.last().0;
        let hits = cur.last().1@;
        assert(forall|a: int, c: int|
            0 <= a < c < hits.len() ==> (#[trigger] hits[a]).0 != (#[trigger] hits[c]).0) by {
            assert(cur[cur.len() - 1].1@ == hits);
        }
        lemma_over_hits_shape(p, hits, prev, locs, pre.1);
        let chunk = over_hits(p, hits, prev, locs, pre.1);
        let r = phase_over(cur, prev, locs, st);
        assert(r.0 == pre.0 + chunk.0);
        assert forall|k: int| 0 <= k < r.0.len() implies {
            let ev = #[trigger] r.0[k];
            hmap_pair(cur, ev.pointer_id, ev.target) && (ev.event is DragEnter || ev.event is Over)
        } by {
            if k < pre.0.len() {
                assert(r.0[k] == pre.0[k]);
                let ev = pre.0[k];
                assert(hmap_pair(cur.drop_last(), ev.pointer_id, ev.target));
                let (i, j) = choose|i: int, j: int|
                    0 <= i < cur.drop_last().len() && 0 <= j < cur.drop_last()[i].1@.len()
                        && cur.drop_last()[i].0 == ev.pointer_id && (#[trigger] cur.drop_last()[i].1@[j]).0
                        == ev.target;
                assert(cur[i].1@[j].0 == ev.target);
                assert(cur[i].0 == ev.pointer_id);
            } else {
                assert(r.0[k] == chunk.0[k - pre.0.len()]);
                let ev = chunk.0[k - pre.0.len()];
                assert(has_key(hits, ev.target));
                let j = choose|j: int| 0 <= j < hits.len() && (#[trigger] hits[j]).0 == ev.target;
                assert(cur[cur.len() - 1].0 == p);
                assert(cur[cur.len() - 1].1@[j].0 == ev.target);
            }
        }
        assert forall|k1: int, k2: int|
            0 <= k1 < r.0.len() && 0 <= k2 < r.0.len() && (#[trigger] r.0[k1]).event is DragEnter
                && (#[trigger] r.0[k2]).event is Over && r.0[k1].pointer_id == r.0[k2].pointer_id
                && r.0[k1].target == r.0[k2].target implies k1 < k2 by {
            if k1 < pre.0.len() && k2 < pre.0.len() {
                assert(r.0[k1] == pre.0[k1]);
                assert(r.0[k2] == pre.0[k2]);
            } else if k1 >= pre.0.len() && k2 >= pre.0.len() {
                assert(r.0[k1] == chunk.0[k1 - pre.0.len()]);
                assert(r.0[k2] == chunk.0[k2 - pre.0.len()]);
            } else if k1 >= pre.0.len() && k2 < pre.0.len() {
                assert(r.0[k1] == chunk.0[k1 - pre.0.len()]);
                assert(r.0[k2] == pre.0[k2]);
                assert(r.0[k1].pointer_id == p);
                let ev = pre.0[k2];
                assert(hmap_pair(cur.drop_last(), ev.pointer_id, ev.target));
                let (i, j) = choose|i: int, j: int|
                    0 <= i < cur.drop_last().len() && 0 <= j < cur.drop_last()[i].1@.len()
                        && cur.drop_last()[i].0 == ev.pointer_id && (#[trigger] cur.drop_last()[i].1@[j]).0
                        == ev.target;
                assert(cur[i].0 == ev.pointer_id);
                assert(cur[cur.len() - 1].0 == p);
                assert(false);
            } else {
                assert(r.0[k1] == pre.0[k1]);
                assert(r.0[k2] == chunk.0[k2 - pre.0.len()]);
            }
        }
        assert forall|p2: PointerId, b2: PointerButton|
            (#[trigger] r.1.at(p2, b2)).pressing == st.at(p2, b2).pressing && r.1.at(p2, b2).dragging
                == st.at(p2, b2).dragging by {
            assert(chunk.1.at(p2, b2).pressing == pre.1.at(p2, b2).pressing);
            assert(chunk.1.at(p2, b2).dragging == pre.1.at(p2, b2).dragging);
        }
    }
}

// ---------------------------------------------------------------------------
// Shape of phase 3 (input replay).
// ---------------------------------------------------------------------------

proof fn lemma_down_hits_shape(
    pid: PointerId,
    loc: Location,
    b: PointerButton,
    hits: Seq<(Entity, HitData)>,
    pressing: Seq<(Entity, PressEntry)>,
    now: u64,
)
    ensures
        forall|k: int|
            0 <= k < down_hits(pid, loc, b, hits, pressing, now).0.len() ==> {
                let ev = #[trigger] down_hits(pid, loc, b, hits, pressing, now).0[k];
                ev.pointer_id == pid && ev.event is Down
            },
    decreases hits.len(),
{
    if hits.len() > 0 {
        lemma_down_hits_shape(pid, loc, b, hits.drop_last(), pressing, now);
    }
}

proof fn lemma_up_clicks_shape(
    pid: PointerId,
    loc: Location,
    b: PointerButton,
    hits: Seq<(Entity, HitData)>,
    pressing: Seq<(Entity, PressEntry)>,
    now: u64,
)
    ensures
        forall|k: int|
            0 <= k < up_clicks(pid, loc, b, hits, pressing, now).len() ==> {
                let ev = #[trigger] up_clicks(pid, loc, b, hits, pressing, now)[k];
                ev.pointer_id == pid && (ev.event is Click || ev.event is Up)
            },
    decreases hits.len(),
{
    if hits.len() > 0 {
        lemma_up_clicks_shape(pid, loc, b, hits.drop_last(), pressing, now);
    }
}

proof fn lemma_drop_drops_shape(
    pid: PointerId,
    loc: Location,
    b: PointerButton,
    dropped: Entity,
    over: Seq<(Entity, HitData)>,
)
    ensures
        forall|k: int|
            0 <= k < drop_drops(pid, loc, b, dropped, over).len() ==> {
                let ev = #[trigger] drop_drops(pid, loc, b, dropped, over)[k];
                ev.pointer_id == pid && ev.event is DragDrop
            },
    decreases over.len(),
{
    if over.len() > 0 {
        lemma_drop_drops_shape(pid, loc, b, dropped, over.drop_last());
    }
}

proof fn lemma_drop_leaves_shape(
    pid: PointerId,
    loc: Location,
    b: PointerButton,
    dragged: Entity,
    over: Seq<(Entity, HitData)>,
)
    ensures
        forall|k: int|
            0 <= k < drop_leaves(pid, loc, b, dragged, over).len() ==> {
                let ev = #[trigger] drop_leaves(pid, loc, b, dragged, over)[k];
                ev.pointer_id == pid && ev.event is DragLeave
            },
    decreases over.len(),
{
    if over.len() > 0 {
        lemma_drop_leaves_shape(pid, loc, b, dragged, over.drop_last());
    }
}

proof fn lemma_up_drops_shape(
    pid: PointerId,
    loc: Location,
    b: PointerButton,
    dragging: Seq<(Entity, DragEntry)>,
    over: Seq<(Entity, HitData)>,
)
    ensures
        forall|k: int|
            0 <= k < up_drops(pid, loc, b, dragging, over).len() ==> {
                let ev = #[trigger] up_drops(pid, loc, b, dragging, over)[k];
                ev.pointer_id == pid && (ev.event is DragDrop || ev.event is DragEnd
                    || ev.event is DragLeave)
            },
    decreases dragging.len(),
{
    if dragging.len() > 0 {
        lemma_up_drops_shape(pid, loc, b, dragging.drop_last(), over);
        let d = dragging.last().0;
        lemma_drop_drops_shape(pid, loc, b, d, over);
        lemma_drop_leaves_shape(pid, loc, b, d, over);
    }
}

proof fn lemma_move_starts_shape(
    pid: PointerId,
    b: PointerButton,
    pressing: Seq<(Entity, PressEntry)>,
    dragging: Seq<(Entity, DragEntry)>,
    act_pos: Vec2,
)
    ensures
        forall|k: int|
            0 <= k < move_starts(pid, b, pressing, dragging, act_pos).0.len() ==> {
                let ev = #[trigger] move_starts(pid, b, pressing, dragging, act_pos).0[k];
                ev.pointer_id == pid && ev.event is DragStart
            },
    decreases pressing.len(),
{
    if pressing.len() > 0 {
        lemma_move_starts_shape(pid, b, pressing.drop_last(), dragging, act_pos);
    }
}

proof fn lemma_drag_overs_shape(
    pid: PointerId,
    loc: Location,
    b: PointerButton,
    dragged: Entity,
    hits: Seq<(Entity, HitData)>,
)
    ensures
        forall|k: int|
            0 <= k < drag_overs(pid, loc, b, dragged, hits).len() ==> {
                let ev = #[trigger] drag_overs(pid, loc, b, dragged, hits)[k];
                ev.pointer_id == pid && ev.event is DragOver
            },
    decreases hits.len(),
{
    if hits.len() > 0 {
        lemma_drag_overs_shape(pid, loc, b, dragged, hits.drop_last());
    }
}

proof fn lemma_move_drags_shape(
    pid: PointerId,
    loc: Location,
    b: PointerButton,
    dragging: Seq<(Entity, DragEntry)>,
    hits: Seq<(Entity, HitData)>,
)
    ensures
        forall|k: int|
            0 <= k < move_drags(pid, loc, b, dragging, hits).0.len() ==> {
                let ev = #[trigger] move_drags(pid, loc, b, dragging, hits).0[k];
                ev.pointer_id == pid && (ev.event is Drag || ev.event is DragOver)
            },
    decreases dragging.len(),
{
    if dragging.len() > 0 {
        lemma_move_drags_shape(pid, loc, b, dragging.drop_last(), hits);
        lemma_drag_overs_shape(pid, loc, b, dragging.last().0, hits);
    }
}

proof fn lemma_moved_buttons_shape(
    pid: PointerId,
    loc: Location,
    btns: Seq<PointerButton>,
    hits: Seq<(Entity, HitData)>,
    st: SModel,
)
    ensures
        forall|k: int|
            0 <= k < moved_buttons(pid, loc, btns, hits, st).0.len() ==> {
                let ev = #[trigger] moved_buttons(pid, loc, btns, hits, st).0[k];
                ev.pointer_id == pid && (ev.event is DragStart || ev.event is Drag
                    || ev.event is DragOver)
            },
        forall|p2: PointerId, b2: PointerButton|
            p2 != pid ==> #[trigger] moved_buttons(pid, loc, btns, hits, st).1.at(p2, b2) == st.at(
                p2,
                b2,
            ),
    decreases btns.len(),
{
    if btns.len() > 0 {
        lemma_moved_buttons_shape(pid, loc, btns.drop_last(), hits, st);
        let pre = moved_buttons(pid, loc, btns.drop_last(), hits, st);
        let b = btns.last();
        let bs = pre.1.at(pid, b);
        lemma_move_starts_shape(pid, b, bs.pressing, bs.dragging, loc.position);
        let starts = move_starts(pid, b, bs.pressing, bs.dragging, loc.position);
        lemma_move_drags_shape(pid, loc, b, starts.1, hits);
        let r = moved_buttons(pid, loc, btns, hits, st);
        assert forall|p2: PointerId, b2: PointerButton| p2 != pid implies #[trigger] r.1.at(p2, b2)
            == st.at(p2, b2) by {
            assert(r.1.at(p2, b2) == pre.1.at(p2, b2));
        }
    }
}

proof fn lemma_move_moves_shape(
    pid: PointerId,
    loc: Location,
    delta: Vec2,
    hits: Seq<(Entity, HitData)>,
)
    ensures
        forall|k: int|
            0 <= k < move_moves(pid, loc, delta, hits).len() ==> {
                let ev = #[trigger] move_moves(pid, loc, delta, hits)[k];
                ev.pointer_id == pid && ev.event is Move
            },
    decreases hits.len(),
{
    if hits.len() > 0 {
        lemma_move_moves_shape(pid, loc, delta, hits.drop_last());
    }
}

proof fn lemma_cancel_events_shape(pid: PointerId, loc: Location, hits: Seq<(Entity, HitData)>)
    ensures
        forall|k: int|
            0 <= k < cancel_events(pid, loc, hits).len() ==> {
                let ev = #[trigger] cancel_events(pid, loc, hits)[k];
                ev.pointer_id == pid && ev.event is Cancel
            },
    decreases hits.len(),
{
    if hits.len() > 0 {
        lemma_cancel_events_shape(pid, loc, hits.drop_last());
    }
}

/// Every event of one replayed action carries that action's pointer, is
/// not a hover transition, and the action leaves other pointers' records
/// untouched.
proof fn lemma_step_shape(
    inp: crate::pointer::PointerInput,
    cur: Seq<(PointerId, Vec<(Entity, HitData)>)>,
    prev: Seq<(PointerId, Vec<(Entity, HitData)>)>,
    st: SModel,
    now: u64,
)
    ensures
        forall|k: int|
            0 <= k < step(inp, cur, prev, st, now).0.len() ==> {
                let ev = #[trigger] step(inp, cur, prev, st, now).0[k];
                ev.pointer_id == inp.pointer_id && !(ev.event is Out) && !(ev.event is Over) && !(
                ev.event is DragEnter)
            },
        forall|p2: PointerId, b2: PointerButton|
            p2 != inp.pointer_id ==> #[trigger] step(inp, cur, prev, st, now).1.at(p2, b2) == st.at(
                p2,
                b2,
            ),
{
    let pid = inp.pointer_id;
    let loc = inp.location;
    match inp.action {
        crate::pointer::PointerAction::Pressed { direction, button } => match direction {
            crate::pointer::PressDirection::Down => {
                let bs = st.at(pid, button);
                lemma_down_hits_shape(pid, loc, button, hover_of(cur, pid), bs.pressing, now);
            },
            crate::pointer::PressDirection::Up => {
                let bs = st.at(pid, button);
                lemma_up_clicks_shape(pid, loc, button, hover_of(prev, pid), bs.pressing, now);
                lemma_up_drops_shape(pid, loc, button, bs.dragging, bs.dragging_over);
                let c = up_clicks(pid, loc, button, hover_of(prev, pid), bs.pressing, now);
                let d = up_drops(pid, loc, button, bs.dragging, bs.dragging_over);
                assert forall|k: int| 0 <= k < (c + d).len() implies {
                    let ev = #[trigger] (c + d)[k];
                    ev.pointer_id == pid && !(ev.event is Out) && !(ev.event is Over) && !(
                    ev.event is DragEnter)
                } by {
                    if k < c.len() {
                        assert((c + d)[k] == c[k]);
                    } else {
                        assert((c + d)[k] == d[k - c.len()]);
                    }
                }
            },
        },
        crate::pointer::PointerAction::Moved { delta } => {
            lemma_moved_buttons_shape(pid, loc, all_buttons(), hover_of(cur, pid), st);
            lemma_move_moves_shape(pid, loc, delta, hover_of(cur, pid));
            let a = moved_buttons(pid, loc, all_buttons(), hover_of(cur, pid), st).0;
            let m = move_moves(pid, loc, delta, hover_of(cur, pid));
            assert forall|k: int| 0 <= k < (a + m).len() implies {
                let ev = #[trigger] (a + m)[k];
                ev.pointer_id == pid && !(ev.event is Out) && !(ev.event is Over) && !(
                ev.event is DragEnter)
            } by {
                if k < a.len() {
                    assert((a + m)[k] == a[k]);
                } else {
                    assert((a + m)[k] == m[k - a.len()]);
                }
            }
        },
        crate::pointer::PointerAction::Canceled => {
            lemma_cancel_events_shape(pid, loc, hover_of(cur, pid));
        },
    }
}

proof fn lemma_replay_from_shape(
    inputs: Seq<crate::pointer::PointerInput>,
    cur: Seq<(PointerId, Vec<(Entity, HitData)>)>,
    prev: Seq<(PointerId, Vec<(Entity, HitData)>)>,
    st: SModel,
    c0: Seq<PointerId>,
    now: u64,
)
    ensures
        forall|k: int|
            0 <= k < replay_from(inputs, cur, prev, st, c0, now).0.len() ==> {
                let ev = #[trigger] replay_from(inputs, cur, prev, st, c0, now).0[k];
                !(ev.event is Out) && !(ev.event is Over) && !(ev.event is DragEnter)
            },
    decreases inputs.len(),
{
    if inputs.len() > 0 {
        lemma_replay_from_shape(inputs.drop_last(), cur, prev, st, c0, now);
        let pre = replay_from(inputs.drop_last(), cur, prev, st, c0, now);
        let r = replay_from(inputs, cur, prev, st, c0, now);
        if !canceled_has(pre.2, inputs.last().pointer_id) {
            lemma_step_shape(inputs.last(), cur, prev, pre.1, now);
            let chunk = step(inputs.last(), cur, prev, pre.1, now);
            assert forall|k: int| 0 <= k < r.0.len() implies {
                let ev = #[trigger] r.0[k];
                !(ev.event is Out) && !(ev.event is Over) && !(ev.event is DragEnter)
            } by {
                if k < pre.0.len() {
                    assert(r.0[k] == pre.0[k]);
                } else {
                    assert(r.0[k] == chunk.0[k - pre.0.len()]);
                }
            }
        }
    }
}

/// Replayed actions never emit a hover transition.
proof fn lemma_replay_shape(
    inputs: Seq<crate::pointer::PointerInput>,
    cur: Seq<(PointerId, Vec<(Entity, HitData)>)>,
    prev: Seq<(PointerId, Vec<(Entity, HitData)>)>,
    st: SModel,
    now: u64,
)
    ensures
        forall|k: int|
            0 <= k < replay(inputs, cur, prev, st, now).0.len() ==> {
                let ev = #[trigger] replay(inputs, cur, prev, st, now).0[k];
                !(ev.event is Out) && !(ev.event is Over) && !(ev.event is DragEnter)
            },
{
    lemma_replay_from_shape(inputs, cur, prev, st, Seq::empty(), now);
}

// ---------------------------------------------------------------------------
// The cycle-level laws.
// ---------------------------------------------------------------------------

proof fn lemma_hmap_pair_hover_has(
    h: Seq<(PointerId, Vec<(Entity, HitData)>)>,
    pid: PointerId,
    e: Entity,
)
    requires
        hover_wf(h),
        hmap_pair(h, pid, e),
    ensures
        hover_has(h, pid, e),
{
    let (i, j) = choose|i: int, j: int|
        0 <= i < h.len() && 0 <= j < h[i].1@.len() && h[i].0 == pid && (#[trigger] h[i].1@[j]).0
            == e;
    lemma_hover_of_at(h, pid, i);
    crate::alist::lemma_al_contains_index(h[i].1@, e);
}

/// No duplicate hover transition: within one cycle, no entity ever
/// receives both `Over` and `Out` from the same pointer.
pub proof fn lemma_no_duplicate_hover_transition(
    prev: Seq<(PointerId, Vec<(Entity, HitData)>)>,
    cur: Seq<(PointerId, Vec<(Entity, HitData)>)>,
    locs: Seq<(PointerId, Location)>,
    inputs: Seq<crate::pointer::PointerInput>,
    st: SModel,
    now: u64,
)
    requires
        hover_wf(prev),
        hover_wf(cur),
    ensures
        forall|k1: int, k2: int|
            0 <= k1 < cycle(prev, cur, locs, inputs, st, now).0.len() && 0 <= k2 < cycle(
                prev,
                cur,
                locs,
                inputs,
                st,
                now,
            ).0.len() && (#[trigger] cycle(prev, cur, locs, inputs, st, now).0[k1]).event is Over
                && (#[trigger] cycle(prev, cur, locs, inputs, st, now).0[k2]).event is Out ==> cycle(
                prev,
                cur,
                locs,
                inputs,
                st,
                now,
            ).0[k1].pointer_id != cycle(prev, cur, locs, inputs, st, now).0[k2].pointer_id || cycle(
                prev,
                cur,
                locs,
                inputs,
                st,
                now,
            ).0[k1].target != cycle(prev, cur, locs, inputs, st, now).0[k2].target,
{
    let p1 = phase_out(prev, cur, locs, st);
    let p2 = phase_over(cur, prev, locs, p1.1);
    let p3 = replay(inputs, cur, prev, p2.1, now);
    let evs = cycle(prev, cur, locs, inputs, st, now).0;
    let l1 = p1.0.len() as int;
    let l2 = p2.0.len() as int;
    lemma_phase_out_shape(prev, cur, locs, st);
    lemma_phase_over_shape(cur, prev, locs, p1.1);
    lemma_replay_shape(inputs, cur, prev, p2.1, now);
    assert forall|k1: int, k2: int|
        0 <= k1 < evs.len() && 0 <= k2 < evs.len() && (#[trigger] evs[k1]).event is Over && (
        #[trigger] evs[k2]).event is Out implies evs[k1].pointer_id != evs[k2].pointer_id
        || evs[k1].target != evs[k2].target by {
        if evs[k1].pointer_id == evs[k2].pointer_id && evs[k1].target == evs[k2].target {
            let p = evs[k1].pointer_id;
            let e = evs[k1].target;
            // the Over must come from phase 2
            if k1 < l1 {
                assert(evs[k1] == p1.0[k1]);
                assert(false);
            } else if k1 >= l1 + l2 {
                assert(evs[k1] == p3.0[k1 - l1 - l2]);
                assert(false);
            }
            assert(evs[k1] == p2.0[k1 - l1]);
            assert(hmap_pair(cur, p, e));
            // the Out must come from phase 1
            if k2 >= l1 + l2 {
                assert(evs[k2] == p3.0[k2 - l1 - l2]);
                assert(false);
            } else if k2 >= l1 {
                assert(evs[k2] == p2.0[k2 - l1]);
                assert(false);
            }
            assert(evs[k2] == p1.0[k2]);
            assert(!hover_has(cur, p, e));
            lemma_hmap_pair_hover_has(cur, p, e);
            assert(false);
        }
    }
}

/// Ordering law (loss): within one cycle and one pointer, an `Out` to an
/// entity is observed strictly before any `DragLeave` to that entity.
pub proof fn lemma_ordering_loss(
    prev: Seq<(PointerId, Vec<(Entity, HitData)>)>,
    cur: Seq<(PointerId, Vec<(Entity, HitData)>)>,
    locs: Seq<(PointerId, Location)>,
    inputs: Seq<crate::pointer::PointerInput>,
    st: SModel,
    now: u64,
)
    requires
        hover_wf(prev),
        hover_wf(cur),
    ensures
        forall|k1: int, k2: int|
            0 <= k1 < cycle(prev, cur, locs, inputs, st, now).0.len() && 0 <= k2 < cycle(
                prev,
                cur,
                locs,
                inputs,
                st,
                now,
            ).0.len() && (#[trigger] cycle(prev, cur, locs, inputs, st, now).0[k1]).event is Out
                && (#[trigger] cycle(prev, cur, locs, inputs, st, now).0[k2]).event is DragLeave
                && cycle(prev, cur, locs, inputs, st, now).0[k1].pointer_id == cycle(
                prev,
                cur,
                locs,
                inputs,
                st,
                now,
            ).0[k2].pointer_id && cycle(prev, cur, locs, inputs, st, now).0[k1].target == cycle(
                prev,
                cur,
                locs,
                inputs,
                st,
                now,
            ).0[k2].target ==> k1 < k2,
{
    let p1 = phase_out(prev, cur, locs, st);
    let p2 = phase_over(cur, prev, locs, p1.1);
    let p3 = replay(inputs, cur, prev, p2.1, now);
    let evs = cycle(prev, cur, locs, inputs, st, now).0;
    let l1 = p1.0.len() as int;
    let l2 = p2.0.len() as int;
    lemma_phase_out_shape(prev, cur, locs, st);
    lemma_phase_over_shape(cur, prev, locs, p1.1);
    lemma_replay_shape(inputs, cur, prev, p2.1, now);
    assert forall|k1: int, k2: int|
        0 <= k1 < evs.len() && 0 <= k2 < evs.len() && (#[trigger] evs[k1]).event is Out && (
        #[trigger] evs[k2]).event is DragLeave && evs[k1].pointer_id == evs[k2].pointer_id
        && evs[k1].target == evs[k2].target implies k1 < k2 by {
        // the Out comes from phase 1
        if k1 >= l1 + l2 {
            assert(evs[k1] == p3.0[k1 - l1 - l2]);
            assert(false);
        } else if k1 >= l1 {
            assert(evs[k1] == p2.0[k1 - l1]);
            assert(false);
        }
        assert(evs[k1] == p1.0[k1]);
        // the DragLeave comes from phase 1 (ordered there) or from replay
        // (after every phase 1 event)
        if k2 < l1 {
            assert(evs[k2] == p1.0[k2]);
        } else if k2 < l1 + l2 {
            assert(evs[k2] == p2.0[k2 - l1]);
            assert(false);
        }
    }
}

/// Ordering law (gain): within one cycle and one pointer, every
/// `DragEnter` to a newly hovered entity precedes the `Over` to it.
pub proof fn lemma_ordering_gain(
    prev: Seq<(PointerId, Vec<(Entity, HitData)>)>,
    cur: Seq<(PointerId, Vec<(Entity, HitData)>)>,
    locs: Seq<(PointerId, Location)>,
    inputs: Seq<crate::pointer::PointerInput>,
    st: SModel,
    now: u64,
)
    requires
        hover_wf(prev),
        hover_wf(cur),
    ensures
        forall|k1: int, k2: int|
            0 <= k1 < cycle(prev, cur, locs, inputs, st, now).0.len() && 0 <= k2 < cycle(
                prev,
                cur,
                locs,
                inputs,
                st,
                now,
            ).0.len() && (#[trigger] cycle(prev, cur, locs, inputs, st, now).0[k1]).event is DragEnter
                && (#[trigger] cycle(prev, cur, locs, inputs, st, now).0[k2]).event is Over
                && cycle(prev, cur, locs, inputs, st, now).0[k1].pointer_id == cycle(
                prev,
                cur,
                locs,
                inputs,
                st,
                now,
            ).0[k2].pointer_id && cycle(prev, cur, locs, inputs, st, now).0[k1].target == cycle(
                prev,
                cur,
                locs,
                inputs,
                st,
                now,
            ).0[k2].target ==> k1 < k2,
{
    let p1 = phase_out(prev, cur, locs, st);
    let p2 = phase_over(cur, prev, locs, p1.1);
    let p3 = replay(inputs, cur, prev, p2.1, now);
    let evs = cycle(prev, cur, locs, inputs, st, now).0;
    let l1 = p1.0.len() as int;
    let l2 = p2.0.len() as int;
    lemma_phase_out_shape(prev, cur, locs, st);
    lemma_phase_over_shape(cur, prev, locs, p1.1);
    lemma_replay_shape(inputs, cur, prev, p2.1, now);
    assert forall|k1: int, k2: int|
        0 <= k1 < evs.len() && 0 <= k2 < evs.len() && (#[trigger] evs[k1]).event is DragEnter && (
        #[trigger] evs[k2]).event is Over && evs[k1].pointer_id == evs[k2].pointer_id
        && evs[k1].target == evs[k2].target implies k1 < k2 by {
        // both events come from phase 2
        if k1 < l1 {
            assert(evs[k1] == p1.0[k1]);
            assert(false);
        } else if k1 >= l1 + l2 {
            assert(evs[k1] == p3.0[k1 - l1 - l2]);
            assert(false);
        }
        assert(evs[k1] == p2.0[k1 - l1]);
        if k2 < l1 {
            assert(evs[k2] == p1.0[k2]);
            assert(false);
        } else if k2 >= l1 + l2 {
            assert(evs[k2] == p3.0[k2 - l1 - l2]);
            assert(false);
        }
        assert(evs[k2] == p2.0[k2 - l1]);
    }
}

// ---------------------------------------------------------------------------
// The literal loss-ordering law for one dragged entity.
// ---------------------------------------------------------------------------

/// Every event of one pointer's hover-loss run addresses an entity that
/// did lose hover.
proof fn lemma_out_hits_lost(
    pid: PointerId,
    hits: Seq<(Entity, HitData)>,
    cur: Seq<(PointerId, Vec<(Entity, HitData)>)>,
    locs: Seq<(PointerId, Location)>,
    st: SModel,
)
    ensures
        forall|k: int|
            0 <= k < out_hits(pid, hits, cur, locs, st).0.len() ==> !hover_has(
                cur,
                pid,
                (#[trigger] out_hits(pid, hits, cur, locs, st).0[k]).target,
            ),
    decreases hits.len(),
{
    if hits.len() > 0 {
        lemma_out_hits_lost(pid, hits.drop_last(), cur, locs, st);
        let pre = out_hits(pid, hits.drop_last(), cur, locs, st);
        lemma_out_entity_shape(pid, hits.last().0, hits.last().1, cur, locs, pre.1);
        let chunk = out_entity(pid, hits.last().0, hits.last().1, cur, locs, pre.1);
        let r = out_hits(pid, hits, cur, locs, st);
        assert forall|k: int| 0 <= k < r.0.len() implies !hover_has(
            cur,
            pid,
            (#[trigger] r.0[k]).target,
        ) by {
            if k < pre.0.len() {
                assert(r.0[k] == pre.0[k]);
            } else {
                assert(r.0[k] == chunk.0[k - pre.0.len()]);
            }
        }
    }
}

/// Every phase-1 event addresses an entity that its pointer hovered last
/// frame and hovers no longer.
proof fn lemma_phase_out_lost(
    prev: Seq<(PointerId, Vec<(Entity, HitData)>)>,
    cur: Seq<(PointerId, Vec<(Entity, HitData)>)>,
    locs: Seq<(PointerId, Location)>,
    st: SModel,
)
    requires
        hover_wf(prev),
    ensures
        forall|k: int|
            0 <= k < phase_out(prev, cur, locs, st).0.len() ==> {
                let ev = #[trigger] phase_out(prev, cur, locs, st).0[k];
                !hover_has(cur, ev.pointer_id, ev.target) && hmap_pair(
                    prev,
                    ev.pointer_id,
                    ev.target,
                )
            },
    decreases prev.len(),
{
    if prev.len() > 0 {
        assert(hover_wf(prev.drop_last()));
        lemma_phase_out_lost(prev.drop_last(), cur, locs, st);
        let pre = phase_out(prev.drop_last(), cur, locs, st);
        let p = prev.last().0;
        let hits = prev.last().1@;
        assert(forall|a: int, c: int|
            0 <= a < c < hits.len() ==> (#[trigger] hits[a]).0 != (#[trigger] hits[c]).0) by {
            assert(prev[prev.len() - 1].1@ == hits);
        }
        lemma_out_hits_shape(p, hits, cur, locs, pre.1);
        lemma_out_hits_lost(p, hits, cur, locs, pre.1);
        let chunk = out_hits(p, hits, cur, locs, pre.1);
        let r = phase_out(prev, cur, locs, st);
        assert forall|k: int| 0 <= k < r.0.len() implies {
            let ev = #[trigger] r.0[k];
            !hover_has(cur, ev.pointer_id, ev.target) && hmap_pair(prev, ev.pointer_id, ev.target)
        } by {
            if k < pre.0.len() {
                assert(r.0[k] == pre.0[k]);
                let ev = pre.0[k];
                assert(hmap_pair(prev.drop_last(), ev.pointer_id, ev.target));
                let (i, j) = choose|i: int, j: int|
                    0 <= i < prev.drop_last().len() && 0 <= j < prev.drop_last()[i].1@.len()
                        && prev.drop_last()[i].0 == ev.pointer_id && (
                    #[trigger] prev.drop_last()[i].1@[j]).0 == ev.target;
                assert(prev[i].0 == ev.pointer_id);
                assert(prev[i].1@[j].0 == ev.target);
            } else {
                assert(r.0[k] == chunk.0[k - pre.0.len()]);
                let ev = chunk.0[k - pre.0.len()];
                assert(ev.pointer_id == p);
                assert(has_key(hits, ev.target));
                let j = choose|j: int| 0 <= j < hits.len() && (#[trigger] hits[j]).0 == ev.target;
                assert(prev[prev.len() - 1].0 == p);
                assert(prev[prev.len() - 1].1@[j].0 == ev.target);
            }
        }
    }
}

/// An entity that loses hover under a resolvable pointer does receive its
/// `Out`, within that pointer's hover-loss run.
proof fn lemma_out_exists_hits(
    pid: PointerId,
    hits: Seq<(Entity, HitData)>,
    cur: Seq<(PointerId, Vec<(Entity, HitData)>)>,
    locs: Seq<(PointerId, Location)>,
    st: SModel,
    e: Entity,
)
    requires
        has_key(hits, e),
        !hover_has(cur, pid, e),
        lookup_loc(locs, pid) is Some,
    ensures
        exists|k: int|
            0 <= k < out_hits(pid, hits, cur, locs, st).0.len() && (#[trigger] out_hits(
                pid,
                hits,
                cur,
                locs,
                st,
            ).0[k]).event is Out && out_hits(pid, hits, cur, locs, st).0[k].target == e && out_hits(
                pid,
                hits,
                cur,
                locs,
                st,
            ).0[k].pointer_id == pid,
    decreases hits.len(),
{
    let pre = out_hits(pid, hits.drop_last(), cur, locs, st);
    let r = out_hits(pid, hits, cur, locs, st);
    if hits.last().0 == e {
        let chunk = out_entity(pid, e, hits.last().1, cur, locs, pre.1);
        let loc = lookup_loc(locs, pid).unwrap();
        assert(chunk.0[0] == crate::events::envelope(
            e,
            pid,
            loc,
            PointerEvent::Out(crate::events::Out { hit: hits.last().1 }),
        ));
        assert(r.0[pre.0.len() as int] == chunk.0[0]);
    } else {
        assert(has_key(hits.drop_last(), e)) by {
            let j = choose|j: int| 0 <= j < hits.len() && (#[trigger] hits[j]).0 == e;
            assert(hits.drop_last()[j] == hits[j]);
        }
        lemma_out_exists_hits(pid, hits.drop_last(), cur, locs, st, e);
        let k = choose|k: int|
            0 <= k < pre.0.len() && (#[trigger] pre.0[k]).event is Out && pre.0[k].target == e
                && pre.0[k].pointer_id == pid;
        assert(r.0[k] == pre.0[k]);
    }
}

/// An entity that loses hover under a resolvable pointer does receive its
/// `Out` in phase 1.
proof fn lemma_out_exists(
    prev: Seq<(PointerId, Vec<(Entity, HitData)>)>,
    cur: Seq<(PointerId, Vec<(Entity, HitData)>)>,
    locs: Seq<(PointerId, Location)>,
    st: SModel,
    pid: PointerId,
    e: Entity,
)
    requires
        hmap_pair(prev, pid, e),
        !hover_has(cur, pid, e),
        lookup_loc(locs, pid) is Some,
    ensures
        exists|k: int|
            0 <= k < phase_out(prev, cur, locs, st).0.len() && (#[trigger] phase_out(
                prev,
                cur,
                locs,
                st,
            ).0[k]).event is Out && phase_out(prev, cur, locs, st).0[k].target == e && phase_out(
                prev,
                cur,
                locs,
                st,
            ).0[k].pointer_id == pid,
    decreases prev.len(),
{
    let (i, j) = choose|i: int, j: int|
        0 <= i < prev.len() && 0 <= j < prev[i].1@.len() && prev[i].0 == pid && (
        #[trigger] prev[i].1@[j]).0 == e;
    let pre = phase_out(prev.drop_last(), cur, locs, st);
    let r = phase_out(prev, cur, locs, st);
    if i == prev.len() - 1 {
        let hits = prev.last().1@;
        assert(has_key(hits, e)) by {
            assert(hits[j].0 == e);
        }
        lemma_out_exists_hits(prev.last().0, hits, cur, locs, pre.1, e);
        let chunk = out_hits(prev.last().0, hits, cur, locs, pre.1);
        let k = choose|k: int|
            0 <= k < chunk.0.len() && (#[trigger] chunk.0[k]).event is Out && chunk.0[k].target == e
                && chunk.0[k].pointer_id == pid;
        assert(r.0[pre.0.len() + k] == chunk.0[k]);
    } else {
        assert(hmap_pair(prev.drop_last(), pid, e)) by {
            assert(prev.drop_last()[i] == prev[i]);
            assert(prev.drop_last()[i].1@[j].0 == e);
        }
        lemma_out_exists(prev.drop_last(), cur, locs, st, pid, e);
        let k = choose|k: int|
            0 <= k < pre.0.len() && (#[trigger] pre.0[k]).event is Out && pre.0[k].target == e
                && pre.0[k].pointer_id == pid;
        assert(r.0[k] == pre.0[k]);
    }
}

/// Ordering law (loss), for a dragged entity: when an entity being dragged
/// by a pointer is that pointer's only hover loss of the cycle (and the
/// pointer's location resolves), its `Out` is emitted, and strictly before
/// every `DragLeave` of that pointer carrying it as the dragged entity —
/// whatever entity those address.
pub proof fn lemma_ordering_loss_for_dragged(
    prev: Seq<(PointerId, Vec<(Entity, HitData)>)>,
    cur: Seq<(PointerId, Vec<(Entity, HitData)>)>,
    locs: Seq<(PointerId, Location)>,
    inputs: Seq<crate::pointer::PointerInput>,
    st: SModel,
    now: u64,
    p: PointerId,
    e: Entity,
)
    requires
        hover_wf(prev),
        hover_wf(cur),
        hmap_pair(prev, p, e),
        !hover_has(cur, p, e),
        lookup_loc(locs, p) is Some,
        forall|j: int|
            0 <= j < hover_of(prev, p).len() ==> ((#[trigger] hover_of(prev, p)[j]).0 == e
                || hover_has(cur, p, hover_of(prev, p)[j].0)),
    ensures
        exists|k1: int|
            0 <= k1 < cycle(prev, cur, locs, inputs, st, now).0.len() && (#[trigger] cycle(
                prev,
                cur,
                locs,
                inputs,
                st,
                now,
            ).0[k1]).event is Out && cycle(prev, cur, locs, inputs, st, now).0[k1].target == e
                && cycle(prev, cur, locs, inputs, st, now).0[k1].pointer_id == p,
        forall|k1: int, k2: int|
            0 <= k1 < cycle(prev, cur, locs, inputs, st, now).0.len() && 0 <= k2 < cycle(
                prev,
                cur,
                locs,
                inputs,
                st,
                now,
            ).0.len() && (#[trigger] cycle(prev, cur, locs, inputs, st, now).0[k1]).event is Out
                && cycle(prev, cur, locs, inputs, st, now).0[k1].target == e && cycle(
                prev,
                cur,
                locs,
                inputs,
                st,
                now,
            ).0[k1].pointer_id == p && ((#[trigger] cycle(
                prev,
                cur,
                locs,
                inputs,
                st,
                now,
            ).0[k2]).event matches PointerEvent::DragLeave(dl) && dl.dragged == e) && cycle(
                prev,
                cur,
                locs,
                inputs,
                st,
                now,
            ).0[k2].pointer_id == p ==> k1 < k2,
{
    let p1 = phase_out(prev, cur, locs, st);
    let p2 = phase_over(cur, prev, locs, p1.1);
    let p3 = replay(inputs, cur, prev, p2.1, now);
    let evs = cycle(prev, cur, locs, inputs, st, now).0;
    let l1 = p1.0.len() as int;
    let l2 = p2.0.len() as int;
    lemma_phase_out_shape(prev, cur, locs, st);
    lemma_phase_out_lost(prev, cur, locs, st);
    lemma_phase_over_shape(cur, prev, locs, p1.1);
    lemma_replay_shape(inputs, cur, prev, p2.1, now);
    lemma_out_exists(prev, cur, locs, st, p, e);
    let kw = choose|k: int|
        0 <= k < p1.0.len() && (#[trigger] p1.0[k]).event is Out && p1.0[k].target == e
            && p1.0[k].pointer_id == p;
    assert(evs[kw] == p1.0[kw]);
    assert forall|k1: int, k2: int|
        0 <= k1 < evs.len() && 0 <= k2 < evs.len() && (#[trigger] evs[k1]).event is Out
            && evs[k1].target == e && evs[k1].pointer_id == p && ((
        #[trigger] evs[k2]).event matches PointerEvent::DragLeave(dl) && dl.dragged == e)
            && evs[k2].pointer_id == p implies k1 < k2 by {
        // the Out can only come from phase 1
        if k1 >= l1 + l2 {
            assert(evs[k1] == p3.0[k1 - l1 - l2]);
            assert(false);
        } else if k1 >= l1 {
            assert(evs[k1] == p2.0[k1 - l1]);
            assert(false);
        }
        assert(evs[k1] == p1.0[k1]);
        if k2 < l1 {
            // a phase-1 DragLeave of this pointer addresses a lost entity,
            // and the only lost entity of this pointer is e itself
            assert(evs[k2] == p1.0[k2]);
            let t = p1.0[k2].target;
            assert(!hover_has(cur, p, t) && hmap_pair(prev, p, t));
            lemma_hmap_pair_hover_has(prev, p, t);
            crate::alist::lemma_al_contains_index(hover_of(prev, p), t);
            let j = choose|j: int|
                0 <= j < hover_of(prev, p).len() && (#[trigger] hover_of(prev, p)[j]).0 == t;
            assert(t == e);
        } else if k2 < l1 + l2 {
            assert(evs[k2] == p2.0[k2 - l1]);
            assert(false);
        }
    }
}

// ---------------------------------------------------------------------------
// Drag start idempotence.
// ---------------------------------------------------------------------------

proof fn lemma_move_starts_keys(
    pid: PointerId,
    b: PointerButton,
    pressing: Seq<(Entity, PressEntry)>,
    dragging: Seq<(Entity, DragEntry)>,
    act_pos: Vec2,
)
    ensures
        forall|x: Entity|
            #[trigger] has_key(dragging, x) ==> has_key(
                move_starts(pid, b, pressing, dragging, act_pos).1,
                x,
            ),
        forall|j: int|
            0 <= j < pressing.len() ==> has_key(
                move_starts(pid, b, pressing, dragging, act_pos).1,
                (#[trigger] pressing[j]).0,
            ),
    decreases pressing.len(),
{
    if pressing.len() > 0 {
        lemma_move_starts_keys(pid, b, pressing.drop_last(), dragging, act_pos);
        let pre = move_starts(pid, b, pressing.drop_last(), dragging, act_pos);
        let e = pressing.last().0;
        let en = pressing.last().1;
        let r = move_starts(pid, b, pressing, dragging, act_pos);
        if crate::alist::al_contains(pre.1, e) {
            crate::alist::lemma_al_contains_index(pre.1, e);
            assert(has_key(r.1, e));
        } else {
            let den = DragEntry { start_pos: en.location.position, latest_pos: act_pos };
            crate::alist::lemma_al_insert_keys(pre.1, e, den);
        }
        assert forall|j: int| 0 <= j < pressing.len() implies has_key(
            r.1,
            (#[trigger] pressing[j]).0,
        ) by {
            if j < pressing.len() - 1 {
                assert(pressing.drop_last()[j] == pressing[j]);
                assert(has_key(pre.1, pressing[j].0));
                if !crate::alist::al_contains(pre.1, e) {
                    crate::alist::lemma_al_insert_keys(
                        pre.1,
                        e,
                        DragEntry { start_pos: en.location.position, latest_pos: act_pos },
                    );
                }
            }
        }
    }
}

proof fn lemma_move_starts_fresh(
    pid: PointerId,
    b: PointerButton,
    pressing: Seq<(Entity, PressEntry)>,
    dragging: Seq<(Entity, DragEntry)>,
    act_pos: Vec2,
)
    ensures
        forall|k: int|
            0 <= k < move_starts(pid, b, pressing, dragging, act_pos).0.len() ==> {
                let ev = #[trigger] move_starts(pid, b, pressing, dragging, act_pos).0[k];
                &&& ev.pointer_id == pid
                &&& ev.event matches PointerEvent::DragStart(ds) && ds.button == b
                &&& has_key(pressing, ev.target)
                &&& !has_key(dragging, ev.target)
            },
    decreases pressing.len(),
{
    if pressing.len() > 0 {
        lemma_move_starts_fresh(pid, b, pressing.drop_last(), dragging, act_pos);
        lemma_move_starts_keys(pid, b, pressing.drop_last(), dragging, act_pos);
        let pre = move_starts(pid, b, pressing.drop_last(), dragging, act_pos);
        let e = pressing.last().0;
        let r = move_starts(pid, b, pressing, dragging, act_pos);
        assert forall|k: int| 0 <= k < r.0.len() implies {
            let ev = #[trigger] r.0[k];
            &&& ev.pointer_id == pid
            &&& ev.event matches PointerEvent::DragStart(ds) && ds.button == b
            &&& has_key(pressing, ev.target)
            &&& !has_key(dragging, ev.target)
        } by {
            if k < pre.0.len() {
                assert(r.0[k] == pre.0[k]);
                let t = pre.0[k].target;
                assert(has_key(pressing.drop_last(), t));
                let i = choose|i: int|
                    0 <= i < pressing.drop_last().len() && (#[trigger] pressing.drop_last()[i]).0
                        == t;
                assert(pressing[i].0 == t);
            } else {
                // the new DragStart: its entity was not yet dragged
                assert(!crate::alist::al_contains(pre.1, e));
                assert(r.0 == pre.0.push(r.0.last()));
                assert(k == pre.0.len());
                assert(r.0[k].target == e);
                assert(pressing[pressing.len() - 1].0 == e);
                if has_key(dragging, e) {
                    crate::alist::lemma_al_contains_index(pre.1, e);
                    assert(false);
                }
            }
        }
    }
}

proof fn lemma_move_drags_entries(
    pid: PointerId,
    loc: Location,
    b: PointerButton,
    dragging: Seq<(Entity, DragEntry)>,
    hits: Seq<(Entity, HitData)>,
)
    ensures
        move_drags(pid, loc, b, dragging, hits).1.len() == dragging.len(),
        forall|j: int|
            0 <= j < dragging.len() ==> (#[trigger] move_drags(pid, loc, b, dragging, hits).1[j]).0
                == dragging[j].0,
    decreases dragging.len(),
{
    if dragging.len() > 0 {
        lemma_move_drags_entries(pid, loc, b, dragging.drop_last(), hits);
        assert forall|j: int| 0 <= j < dragging.len() implies (#[trigger] move_drags(
            pid,
            loc,
            b,
            dragging,
            hits,
        ).1[j]).0 == dragging[j].0 by {
            let pre = move_drags(pid, loc, b, dragging.drop_last(), hits);
            if j < dragging.len() - 1 {
                assert(move_drags(pid, loc, b, dragging, hits).1[j] == pre.1[j]);
                assert(dragging.drop_last()[j] == dragging[j]);
            }
        }
    }
}

proof fn lemma_moved_button_covers(
    pid: PointerId,
    loc: Location,
    b: PointerButton,
    hits: Seq<(Entity, HitData)>,
    st: SModel,
)
    ensures
        forall|x: Entity|
            #[trigger] has_key(moved_button(pid, loc, b, hits, st).1.at(pid, b).pressing, x)
                ==> has_key(moved_button(pid, loc, b, hits, st).1.at(pid, b).dragging, x),
{
    let bs = st.at(pid, b);
    let starts = move_starts(pid, b, bs.pressing, bs.dragging, loc.position);
    lemma_move_starts_keys(pid, b, bs.pressing, bs.dragging, loc.position);
    lemma_move_drags_entries(pid, loc, b, starts.1, hits);
    let fin = moved_button(pid, loc, b, hits, st).1.at(pid, b);
    assert(fin.pressing == bs.pressing);
    assert forall|x: Entity| #[trigger] has_key(fin.pressing, x) implies has_key(
        fin.dragging,
        x,
    ) by {
        let j = choose|j: int| 0 <= j < bs.pressing.len() && (#[trigger] bs.pressing[j]).0 == x;
        assert(has_key(starts.1, x));
        let i = choose|i: int| 0 <= i < starts.1.len() && (#[trigger] starts.1[i]).0 == x;
        assert(fin.dragging[i].0 == x);
    }
}

proof fn lemma_moved_buttons_fresh(
    pid: PointerId,
    loc: Location,
    btns: Seq<PointerButton>,
    hits: Seq<(Entity, HitData)>,
    st: SModel,
)
    requires
        forall|i: int, j: int| 0 <= i < j < btns.len() ==> btns[i] != btns[j],
    ensures
        forall|k: int|
            0 <= k < moved_buttons(pid, loc, btns, hits, st).0.len() ==> {
                let ev = #[trigger] moved_buttons(pid, loc, btns, hits, st).0[k];
                ev.event matches PointerEvent::DragStart(ds) ==> {
                    &&& btns.contains(ds.button)
                    &&& has_key(st.at(pid, ds.button).pressing, ev.target)
                    &&& !has_key(st.at(pid, ds.button).dragging, ev.target)
                }
            },
        forall|b2: PointerButton|
            !btns.contains(b2) ==> #[trigger] moved_buttons(pid, loc, btns, hits, st).1.at(pid, b2)
                == st.at(pid, b2),
        forall|b2: PointerButton|
            btns.contains(b2) ==> #[trigger] moved_buttons(pid, loc, btns, hits, st).1.at(pid, b2)
                == moved_button(pid, loc, b2, hits, st).1.at(pid, b2),
    decreases btns.len(),
{
    if btns.len() > 0 {
        assert(forall|i: int, j: int|
            0 <= i < j < btns.drop_last().len() ==> btns.drop_last()[i] != btns.drop_last()[j]);
        lemma_moved_buttons_fresh(pid, loc, btns.drop_last(), hits, st);
        let pre = moved_buttons(pid, loc, btns.drop_last(), hits, st);
        let b = btns.last();
        assert(!btns.drop_last().contains(b)) by {
            if btns.drop_last().contains(b) {
                let i = choose|i: int|
                    0 <= i < btns.drop_last().len() && btns.drop_last()[i] == b;
                assert(btns[i] == b);
                assert(btns[btns.len() - 1] == b);
            }
        }
        assert(pre.1.at(pid, b) == st.at(pid, b));
        let bs = pre.1.at(pid, b);
        lemma_move_starts_fresh(pid, b, bs.pressing, bs.dragging, loc.position);
        let starts = move_starts(pid, b, bs.pressing, bs.dragging, loc.position);
        lemma_move_drags_shape(pid, loc, b, starts.1, hits);
        let drags = move_drags(pid, loc, b, starts.1, hits);
        let chunk = starts.0 + drags.0;
        let r = moved_buttons(pid, loc, btns, hits, st);
        assert(r.0 == pre.0 + chunk);
        assert forall|k: int| 0 <= k < r.0.len() implies {
            let ev = #[trigger] r.0[k];
            ev.event matches PointerEvent::DragStart(ds) ==> {
                &&& btns.contains(ds.button)
                &&& has_key(st.at(pid, ds.button).pressing, ev.target)
                &&& !has_key(st.at(pid, ds.button).dragging, ev.target)
            }
        } by {
            if k < pre.0.len() {
                assert(r.0[k] == pre.0[k]);
                match pre.0[k].event {
                    PointerEvent::DragStart(ds) => {
                        assert(btns.drop_last().contains(ds.button));
                        let i = choose|i: int|
                            0 <= i < btns.drop_last().len() && btns.drop_last()[i] == ds.button;
                        assert(btns[i] == ds.button);
                    },
                    _ => {},
                }
            } else {
                assert(r.0[k] == chunk[k - pre.0.len()]);
                if k - pre.0.len() < starts.0.len() {
                    assert(chunk[k - pre.0.len()] == starts.0[k - pre.0.len()]);
                    assert(btns[btns.len() - 1] == b);
                } else {
                    assert(chunk[k - pre.0.len()] == drags.0[k - pre.0.len() - starts.0.len()]);
                }
            }
        }
        assert forall|b2: PointerButton| !btns.contains(b2) implies #[trigger] r.1.at(pid, b2)
            == st.at(pid, b2) by {
            assert(!btns.drop_last().contains(b2)) by {
                if btns.drop_last().contains(b2) {
                    let i = choose|i: int|
                        0 <= i < btns.drop_last().len() && btns.drop_last()[i] == b2;
                    assert(btns[i] == b2);
                }
            }
            assert(b2 != b) by {
                assert(btns[btns.len() - 1] == b);
            }
            assert(r.1.at(pid, b2) == pre.1.at(pid, b2));
        }
        assert forall|b2: PointerButton| btns.contains(b2) implies #[trigger] r.1.at(pid, b2)
            == moved_button(pid, loc, b2, hits, st).1.at(pid, b2) by {
            if b2 == b {
                assert(pre.1.at(pid, b) == st.at(pid, b));
                assert(r.1.at(pid, b) == moved_button(pid, loc, b, hits, pre.1).1.at(pid, b));
                assert(moved_button(pid, loc, b, hits, pre.1).1.at(pid, b) == moved_button(
                    pid,
                    loc,
                    b,
                    hits,
                    st,
                ).1.at(pid, b));
            } else {
                assert(btns.drop_last().contains(b2)) by {
                    let i = choose|i: int| 0 <= i < btns.len() && btns[i] == b2;
                    assert(i < btns.len() - 1);
                    assert(btns.drop_last()[i] == b2);
                }
                assert(r.1.at(pid, b2) == pre.1.at(pid, b2));
            }
        }
    }
}

proof fn lemma_all_buttons_unique()
    ensures
        forall|i: int, j: int| 0 <= i < j < all_buttons().len() ==> all_buttons()[i]
            != all_buttons()[j],
        forall|b: PointerButton| all_buttons().contains(b),
{
    assert(all_buttons()[0] == PointerButton::Primary);
    assert(all_buttons()[1] == PointerButton::Secondary);
    assert(all_buttons()[2] == PointerButton::Middle);
    assert forall|i: int, j: int| 0 <= i < j < all_buttons().len() implies all_buttons()[i]
        != all_buttons()[j] by {
        assert(all_buttons().len() == 3);
    }
    assert forall|b: PointerButton| all_buttons().contains(b) by {
        match b {
            PointerButton::Primary => assert(all_buttons()[0] == b),
            PointerButton::Secondary => assert(all_buttons()[1] == b),
            PointerButton::Middle => assert(all_buttons()[2] == b),
        }
    }
}

/// A move action starts a drag only for an entity that is pressed and not
/// already dragged.
pub proof fn lemma_drag_start_requires_fresh(
    pid: PointerId,
    loc: Location,
    delta: Vec2,
    hits: Seq<(Entity, HitData)>,
    st: SModel,
)
    ensures
        forall|k: int|
            0 <= k < moved_step(pid, loc, delta, hits, st).0.len() ==> {
                let ev = #[trigger] moved_step(pid, loc, delta, hits, st).0[k];
                ev.event matches PointerEvent::DragStart(ds) ==> {
                    &&& has_key(st.at(pid, ds.button).pressing, ev.target)
                    &&& !has_key(st.at(pid, ds.button).dragging, ev.target)
                }
            },
{
    lemma_all_buttons_unique();
    lemma_moved_buttons_fresh(pid, loc, all_buttons(), hits, st);
    lemma_move_moves_shape(pid, loc, delta, hits);
    let a = moved_buttons(pid, loc, all_buttons(), hits, st).0;
    let m = move_moves(pid, loc, delta, hits);
    let r = moved_step(pid, loc, delta, hits, st);
    assert forall|k: int| 0 <= k < r.0.len() implies {
        let ev = #[trigger] r.0[k];
        ev.event matches PointerEvent::DragStart(ds) ==> {
            &&& has_key(st.at(pid, ds.button).pressing, ev.target)
            &&& !has_key(st.at(pid, ds.button).dragging, ev.target)
        }
    } by {
        if k < a.len() {
            assert(r.0[k] == a[k]);
        } else {
            assert(r.0[k] == m[k - a.len()]);
        }
    }
}

/// Drag start idempotence: after one move action, every pressed entity is
/// dragged, so a second move action for the same pointer within the same
/// cycle emits no further `DragStart`.
pub proof fn lemma_drag_start_idempotence(
    pid: PointerId,
    loc1: Location,
    delta1: Vec2,
    loc2: Location,
    delta2: Vec2,
    hits: Seq<(Entity, HitData)>,
    st: SModel,
)
    ensures
        forall|k: int|
            0 <= k < moved_step(
                pid,
                loc2,
                delta2,
                hits,
                moved_step(pid, loc1, delta1, hits, st).1,
            ).0.len() ==> !((#[trigger] moved_step(
                pid,
                loc2,
                delta2,
                hits,
                moved_step(pid, loc1, delta1, hits, st).1,
            ).0[k]).event is DragStart),
{
    lemma_all_buttons_unique();
    let st1 = moved_step(pid, loc1, delta1, hits, st).1;
    assert(st1 == moved_buttons(pid, loc1, all_buttons(), hits, st).1);
    lemma_moved_buttons_fresh(pid, loc1, all_buttons(), hits, st);
    lemma_drag_start_requires_fresh(pid, loc2, delta2, hits, st1);
    let r = moved_step(pid, loc2, delta2, hits, st1);
    assert forall|k: int| 0 <= k < r.0.len() implies !((#[trigger] r.0[k]).event is DragStart) by {
        match r.0[k].event {
            PointerEvent::DragStart(ds) => {
                let b = ds.button;
                assert(st1.at(pid, b) == moved_button(pid, loc1, b, hits, st).1.at(pid, b));
                lemma_moved_button_covers(pid, loc1, b, hits, st);
                assert(has_key(st1.at(pid, b).pressing, r.0[k].target));
                assert(has_key(st1.at(pid, b).dragging, r.0[k].target));
                assert(false);
            },
            _ => {},
        }
    }
}

// ---------------------------------------------------------------------------
// Zero-delta suppression.
// ---------------------------------------------------------------------------

proof fn lemma_move_starts_same_key_entries(
    pid: PointerId,
    b: PointerButton,
    pressing: Seq<(Entity, PressEntry)>,
    dragging: Seq<(Entity, DragEntry)>,
    act_pos: Vec2,
    e: Entity,
)
    requires
        has_key(dragging, e),
    ensures
        forall|j: int|
            0 <= j < move_starts(pid, b, pressing, dragging, act_pos).1.len() ==> ((
            #[trigger] move_starts(pid, b, pressing, dragging, act_pos).1[j]).0 == e
                ==> exists|i: int|
                0 <= i < dragging.len() && (#[trigger] dragging[i]) == move_starts(
                    pid,
                    b,
                    pressing,
                    dragging,
                    act_pos,
                ).1[j]),
    decreases pressing.len(),
{
    if pressing.len() == 0 {
        assert forall|j: int|
            0 <= j < dragging.len() && (#[trigger] dragging[j]).0 == e implies exists|i: int|
            0 <= i < dragging.len() && (#[trigger] dragging[i]) == dragging[j] by {
            assert(dragging[j] == dragging[j]);
        }
    } else {
        lemma_move_starts_same_key_entries(pid, b, pressing.drop_last(), dragging, act_pos, e);
        lemma_move_starts_keys(pid, b, pressing.drop_last(), dragging, act_pos);
        let pre = move_starts(pid, b, pressing.drop_last(), dragging, act_pos);
        let en = pressing.last().1;
        let k2 = pressing.last().0;
        let r = move_starts(pid, b, pressing, dragging, act_pos);
        if !crate::alist::al_contains(pre.1, k2) {
            // the inserted key cannot be e, which is already dragged
            assert(k2 != e) by {
                crate::alist::lemma_al_contains_index(pre.1, e);
            }
            let den = DragEntry { start_pos: en.location.position, latest_pos: act_pos };
            crate::alist::lemma_al_insert_entries(pre.1, k2, den);
            assert forall|j: int|
                0 <= j < r.1.len() && (#[trigger] r.1[j]).0 == e implies exists|i: int|
                0 <= i < dragging.len() && (#[trigger] dragging[i]) == r.1[j] by {
                assert(r.1[j] != (k2, den));
                let i0 = choose|i0: int| 0 <= i0 < pre.1.len() && pre.1[i0] == r.1[j];
                assert(pre.1[i0].0 == e);
            }
        }
    }
}

proof fn lemma_move_drags_drag_info(
    pid: PointerId,
    loc: Location,
    b: PointerButton,
    dragging: Seq<(Entity, DragEntry)>,
    hits: Seq<(Entity, HitData)>,
)
    ensures
        forall|k: int|
            0 <= k < move_drags(pid, loc, b, dragging, hits).0.len() ==> ((#[trigger] move_drags(
                pid,
                loc,
                b,
                dragging,
                hits,
            ).0[k]).event matches PointerEvent::Drag(dg) ==> dg.button == b && exists|j: int|
                0 <= j < dragging.len() && (#[trigger] dragging[j]).0 == move_drags(
                    pid,
                    loc,
                    b,
                    dragging,
                    hits,
                ).0[k].target && dragging[j].1.latest_pos != loc.position),
    decreases dragging.len(),
{
    if dragging.len() > 0 {
        lemma_move_drags_drag_info(pid, loc, b, dragging.drop_last(), hits);
        lemma_drag_overs_shape(pid, loc, b, dragging.last().0, hits);
        let pre = move_drags(pid, loc, b, dragging.drop_last(), hits);
        let d = dragging.last().0;
        let en = dragging.last().1;
        let r = move_drags(pid, loc, b, dragging, hits);
        let delta = crate::pointer::vec2_sub_spec(loc.position, en.latest_pos);
        assert forall|k: int|
            0 <= k < r.0.len() implies ((#[trigger] r.0[k]).event matches PointerEvent::Drag(dg)
            ==> dg.button == b && exists|j: int|
                0 <= j < dragging.len() && (#[trigger] dragging[j]).0 == r.0[k].target
                    && dragging[j].1.latest_pos != loc.position) by {
            if k < pre.0.len() {
                assert(r.0[k] == pre.0[k]);
                match pre.0[k].event {
                    PointerEvent::Drag(dg) => {
                        let j = choose|j: int|
                            0 <= j < dragging.drop_last().len() && (#[trigger] dragging.drop_last()[j]).0
                                == pre.0[k].target && dragging.drop_last()[j].1.latest_pos
                                != loc.position;
                        assert(dragging[j].0 == r.0[k].target && dragging[j].1.latest_pos
                            != loc.position);
                    },
                    _ => {},
                }
            } else if !crate::pointer::vec2_is_zero(delta) {
                let overs = drag_overs(pid, loc, b, d, hits);
                if k == pre.0.len() {
                    // the Drag event itself: its entity moved
                    assert(en.latest_pos != loc.position) by {
                        if en.latest_pos == loc.position {
                            assert(crate::pointer::vec2_is_zero(delta));
                        }
                    }
                    assert(dragging[dragging.len() - 1].0 == d && dragging[dragging.len()
                        - 1].1.latest_pos != loc.position);
                } else {
                    assert(r.0[k] == overs[k - pre.0.len() - 1]);
                }
            }
        }
    }
}

proof fn lemma_moved_buttons_no_drag(
    pid: PointerId,
    loc: Location,
    btns: Seq<PointerButton>,
    hits: Seq<(Entity, HitData)>,
    st: SModel,
    e: Entity,
    b: PointerButton,
)
    requires
        forall|i: int, j: int| 0 <= i < j < btns.len() ==> btns[i] != btns[j],
        has_key(st.at(pid, b).dragging, e),
        forall|j: int|
            0 <= j < st.at(pid, b).dragging.len() ==> ((#[trigger] st.at(pid, b).dragging[j]).0
                == e ==> st.at(pid, b).dragging[j].1.latest_pos == loc.position),
    ensures
        forall|k: int|
            0 <= k < moved_buttons(pid, loc, btns, hits, st).0.len() ==> ((#[trigger] moved_buttons(
                pid,
                loc,
                btns,
                hits,
                st,
            ).0[k]).event matches PointerEvent::Drag(dg) ==> !(dg.button == b && moved_buttons(
                pid,
                loc,
                btns,
                hits,
                st,
            ).0[k].target == e)),
        forall|b2: PointerButton|
            !btns.contains(b2) ==> #[trigger] moved_buttons(pid, loc, btns, hits, st).1.at(pid, b2)
                == st.at(pid, b2),
    decreases btns.len(),
{
    if btns.len() > 0 {
        assert(forall|i: int, j: int|
            0 <= i < j < btns.drop_last().len() ==> btns.drop_last()[i] != btns.drop_last()[j]);
        lemma_moved_buttons_no_drag(pid, loc, btns.drop_last(), hits, st, e, b);
        let pre = moved_buttons(pid, loc, btns.drop_last(), hits, st);
        let bl = btns.last();
        assert(!btns.drop_last().contains(bl)) by {
            if btns.drop_last().contains(bl) {
                let i = choose|i: int|
                    0 <= i < btns.drop_last().len() && btns.drop_last()[i] == bl;
                assert(btns[i] == bl);
                assert(btns[btns.len() - 1] == bl);
            }
        }
        assert(pre.1.at(pid, bl) == st.at(pid, bl));
        let bs = pre.1.at(pid, bl);
        let starts = move_starts(pid, bl, bs.pressing, bs.dragging, loc.position);
        lemma_move_starts_shape(pid, bl, bs.pressing, bs.dragging, loc.position);
        lemma_move_drags_drag_info(pid, loc, bl, starts.1, hits);
        let drags = move_drags(pid, loc, bl, starts.1, hits);
        let chunk = starts.0 + drags.0;
        let r = moved_buttons(pid, loc, btns, hits, st);
        assert(r.0 == pre.0 + chunk);
        if bl == b {
            lemma_move_starts_same_key_entries(pid, b, bs.pressing, bs.dragging, loc.position, e);
        }
        assert forall|k: int|
            0 <= k < r.0.len() implies ((#[trigger] r.0[k]).event matches PointerEvent::Drag(dg)
            ==> !(dg.button == b && r.0[k].target == e)) by {
            if k < pre.0.len() {
                assert(r.0[k] == pre.0[k]);
            } else {
                assert(r.0[k] == chunk[k - pre.0.len()]);
                if k - pre.0.len() < starts.0.len() {
                    assert(chunk[k - pre.0.len()] == starts.0[k - pre.0.len()]);
                } else {
                    assert(chunk[k - pre.0.len()] == drags.0[k - pre.0.len() - starts.0.len()]);
                    match r.0[k].event {
                        PointerEvent::Drag(dg) => {
                            if dg.button == b && r.0[k].target == e {
                                assert(bl == b);
                                let j = choose|j: int|
                                    0 <= j < starts.1.len() && (#[trigger] starts.1[j]).0
                                        == r.0[k].target && starts.1[j].1.latest_pos
                                        != loc.position;
                                let i = choose|i: int|
                                    0 <= i < bs.dragging.len() && (#[trigger] bs.dragging[i])
                                        == starts.1[j];
                                assert(st.at(pid, b).dragging[i].0 == e);
                                assert(st.at(pid, b).dragging[i].1.latest_pos == loc.position);
                                assert(false);
                            }
                        },
                        _ => {},
                    }
                }
            }
        }
        assert forall|b2: PointerButton| !btns.contains(b2) implies #[trigger] r.1.at(pid, b2)
            == st.at(pid, b2) by {
            assert(!btns.drop_last().contains(b2)) by {
                if btns.drop_last().contains(b2) {
                    let i = choose|i: int|
                        0 <= i < btns.drop_last().len() && btns.drop_last()[i] == b2;
                    assert(btns[i] == b2);
                }
            }
            assert(b2 != bl) by {
                assert(btns[btns.len() - 1] == bl);
            }
            assert(r.1.at(pid, b2) == pre.1.at(pid, b2));
        }
    }
}

proof fn lemma_move_moves_index(
    pid: PointerId,
    loc: Location,
    delta: Vec2,
    hits: Seq<(Entity, HitData)>,
)
    ensures
        move_moves(pid, loc, delta, hits).len() == hits.len(),
        forall|j: int|
            0 <= j < hits.len() ==> #[trigger] move_moves(pid, loc, delta, hits)[j]
                == crate::events::envelope(
                hits[j].0,
                pid,
                loc,
                PointerEvent::Move(crate::events::Move { hit: hits[j].1, delta }),
            ),
    decreases hits.len(),
{
    if hits.len() > 0 {
        lemma_move_moves_index(pid, loc, delta, hits.drop_last());
        assert forall|j: int| 0 <= j < hits.len() implies #[trigger] move_moves(
            pid,
            loc,
            delta,
            hits,
        )[j] == crate::events::envelope(
            hits[j].0,
            pid,
            loc,
            PointerEvent::Move(crate::events::Move { hit: hits[j].1, delta }),
        ) by {
            if j < hits.len() - 1 {
                assert(move_moves(pid, loc, delta, hits)[j] == move_moves(
                    pid,
                    loc,
                    delta,
                    hits.drop_last(),
                )[j]);
                assert(hits.drop_last()[j] == hits[j]);
            }
        }
    }
}

/// Zero-delta suppression: a move action whose position equals the latest
/// recorded position of a dragged entity emits no `Drag` for that entity
/// and button, yet still emits `Move` to every hovered entity.
pub proof fn lemma_zero_delta_suppression(
    pid: PointerId,
    loc: Location,
    delta: Vec2,
    hits: Seq<(Entity, HitData)>,
    st: SModel,
    e: Entity,
    b: PointerButton,
)
    requires
        has_key(st.at(pid, b).dragging, e),
        forall|j: int|
            0 <= j < st.at(pid, b).dragging.len() ==> ((#[trigger] st.at(pid, b).dragging[j]).0
                == e ==> st.at(pid, b).dragging[j].1.latest_pos == loc.position),
    ensures
        forall|k: int|
            0 <= k < moved_step(pid, loc, delta, hits, st).0.len() ==> ((#[trigger] moved_step(
                pid,
                loc,
                delta,
                hits,
                st,
            ).0[k]).event matches PointerEvent::Drag(dg) ==> !(dg.button == b && moved_step(
                pid,
                loc,
                delta,
                hits,
                st,
            ).0[k].target == e)),
        forall|j: int|
            0 <= j < hits.len() ==> exists|k: int|
                0 <= k < moved_step(pid, loc, delta, hits, st).0.len() && #[trigger] moved_step(
                    pid,
                    loc,
                    delta,
                    hits,
                    st,
                ).0[k] == crate::events::envelope(
                    (#[trigger] hits[j]).0,
                    pid,
                    loc,
                    PointerEvent::Move(crate::events::Move { hit: hits[j].1, delta }),
                ),
{
    lemma_all_buttons_unique();
    lemma_moved_buttons_no_drag(pid, loc, all_buttons(), hits, st, e, b);
    lemma_move_moves_index(pid, loc, delta, hits);
    lemma_move_moves_shape(pid, loc, delta, hits);
    let a = moved_buttons(pid, loc, all_buttons(), hits, st).0;
    let m = move_moves(pid, loc, delta, hits);
    let r = moved_step(pid, loc, delta, hits, st);
    assert(r.0 == a + m);
    assert forall|k: int|
        0 <= k < r.0.len() implies ((#[trigger] r.0[k]).event matches PointerEvent::Drag(dg)
        ==> !(dg.button == b && r.0[k].target == e)) by {
        if k < a.len() {
            assert(r.0[k] == a[k]);
        } else {
            assert(r.0[k] == m[k - a.len()]);
        }
    }
    assert forall|j: int| 0 <= j < hits.len() implies exists|k: int|
        0 <= k < r.0.len() && #[trigger] r.0[k] == crate::events::envelope(
            (#[trigger] hits[j]).0,
            pid,
            loc,
            PointerEvent::Move(crate::events::Move { hit: hits[j].1, delta }),
        ) by {
        assert(r.0[a.len() + j] == m[j]);
    }
}

// ---------------------------------------------------------------------------
// Cancellation finality.
// ---------------------------------------------------------------------------

proof fn lemma_replay_from_append(
    s1: Seq<crate::pointer::PointerInput>,
    s2: Seq<crate::pointer::PointerInput>,
    cur: Seq<(PointerId, Vec<(Entity, HitData)>)>,
    prev: Seq<(PointerId, Vec<(Entity, HitData)>)>,
    st: SModel,
    c0: Seq<PointerId>,
    now: u64,
)
    ensures
        replay_from(s1 + s2, cur, prev, st, c0, now).0 == replay_from(s1, cur, prev, st, c0, now).0
            + replay_from(
            s2,
            cur,
            prev,
            replay_from(s1, cur, prev, st, c0, now).1,
            replay_from(s1, cur, prev, st, c0, now).2,
            now,
        ).0,
        replay_from(s1 + s2, cur, prev, st, c0, now).1 == replay_from(
            s2,
            cur,
            prev,
            replay_from(s1, cur, prev, st, c0, now).1,
            replay_from(s1, cur, prev, st, c0, now).2,
            now,
        ).1,
        replay_from(s1 + s2, cur, prev, st, c0, now).2 == replay_from(
            s2,
            cur,
            prev,
            replay_from(s1, cur, prev, st, c0, now).1,
            replay_from(s1, cur, prev, st, c0, now).2,
            now,
        ).2,
    decreases s2.len(),
{
    let mid = replay_from(s1, cur, prev, st, c0, now);
    if s2.len() == 0 {
        assert(s1 + s2 =~= s1);
        assert(mid.0 + replay_from(s2, cur, prev, mid.1, mid.2, now).0 =~= mid.0);
    } else {
        lemma_replay_from_append(s1, s2.drop_last(), cur, prev, st, c0, now);
        assert((s1 + s2).drop_last() =~= s1 + s2.drop_last());
        assert((s1 + s2).last() == s2.last());
        assert(replay_from(s1 + s2, cur, prev, st, c0, now).0 =~= mid.0 + replay_from(
            s2,
            cur,
            prev,
            mid.1,
            mid.2,
            now,
        ).0);
    }
}

/// The canceled set only grows along the replay.
proof fn lemma_replay_from_grows(
    s: Seq<crate::pointer::PointerInput>,
    cur: Seq<(PointerId, Vec<(Entity, HitData)>)>,
    prev: Seq<(PointerId, Vec<(Entity, HitData)>)>,
    st: SModel,
    c0: Seq<PointerId>,
    now: u64,
)
    ensures
        forall|x: PointerId|
            #[trigger] canceled_has(c0, x) ==> canceled_has(
                replay_from(s, cur, prev, st, c0, now).2,
                x,
            ),
    decreases s.len(),
{
    if s.len() > 0 {
        lemma_replay_from_grows(s.drop_last(), cur, prev, st, c0, now);
        let pre = replay_from(s.drop_last(), cur, prev, st, c0, now);
        let r = replay_from(s, cur, prev, st, c0, now);
        assert forall|x: PointerId| #[trigger] canceled_has(c0, x) implies canceled_has(
            r.2,
            x,
        ) by {
            assert(canceled_has(pre.2, x));
            let i = choose|i: int| 0 <= i < pre.2.len() && pre.2[i] == x;
            if r.2 != pre.2 {
                assert(r.2 == pre.2.push(s.last().pointer_id));
                assert(r.2[i] == x);
            }
        }
    }
}

/// A pointer already canceled contributes no further event, and its store
/// is left alone.
proof fn lemma_replay_from_canceled(
    s: Seq<crate::pointer::PointerInput>,
    pid: PointerId,
    cur: Seq<(PointerId, Vec<(Entity, HitData)>)>,
    prev: Seq<(PointerId, Vec<(Entity, HitData)>)>,
    st: SModel,
    c0: Seq<PointerId>,
    now: u64,
)
    requires
        canceled_has(c0, pid),
    ensures
        forall|k: int|
            0 <= k < replay_from(s, cur, prev, st, c0, now).0.len() ==> (#[trigger] replay_from(
                s,
                cur,
                prev,
                st,
                c0,
                now,
            ).0[k]).pointer_id != pid,
        forall|b: PointerButton| #[trigger] replay_from(s, cur, prev, st, c0, now).1.at(pid, b)
            == st.at(pid, b),
    decreases s.len(),
{
    if s.len() > 0 {
        lemma_replay_from_canceled(s.drop_last(), pid, cur, prev, st, c0, now);
        lemma_replay_from_grows(s.drop_last(), cur, prev, st, c0, now);
        let pre = replay_from(s.drop_last(), cur, prev, st, c0, now);
        let r = replay_from(s, cur, prev, st, c0, now);
        assert(canceled_has(pre.2, pid));
        if !canceled_has(pre.2, s.last().pointer_id) {
            assert(s.last().pointer_id != pid);
            lemma_step_shape(s.last(), cur, prev, pre.1, now);
            let chunk = step(s.last(), cur, prev, pre.1, now);
            assert forall|k: int| 0 <= k < r.0.len() implies (#[trigger] r.0[k]).pointer_id
                != pid by {
                if k < pre.0.len() {
                    assert(r.0[k] == pre.0[k]);
                } else {
                    assert(r.0[k] == chunk.0[k - pre.0.len()]);
                }
            }
        }
    }
}

/// Every pointer in the canceled set has an empty store.
proof fn lemma_replay_from_cleared(
    s: Seq<crate::pointer::PointerInput>,
    cur: Seq<(PointerId, Vec<(Entity, HitData)>)>,
    prev: Seq<(PointerId, Vec<(Entity, HitData)>)>,
    st: SModel,
    c0: Seq<PointerId>,
    now: u64,
)
    requires
        forall|x: PointerId, b: PointerButton|
            canceled_has(c0, x) ==> #[trigger] st.at(x, b) == crate::state::empty_bstate(),
    ensures
        forall|x: PointerId, b: PointerButton|
            canceled_has(replay_from(s, cur, prev, st, c0, now).2, x) ==> #[trigger] replay_from(
                s,
                cur,
                prev,
                st,
                c0,
                now,
            ).1.at(x, b) == crate::state::empty_bstate(),
    decreases s.len(),
{
    if s.len() > 0 {
        lemma_replay_from_cleared(s.drop_last(), cur, prev, st, c0, now);
        let pre = replay_from(s.drop_last(), cur, prev, st, c0, now);
        let r = replay_from(s, cur, prev, st, c0, now);
        let inp = s.last();
        let q = inp.pointer_id;
        if !canceled_has(pre.2, q) {
            lemma_step_shape(inp, cur, prev, pre.1, now);
            assert forall|x: PointerId, b: PointerButton|
                canceled_has(r.2, x) implies #[trigger] r.1.at(x, b)
                == crate::state::empty_bstate() by {
                let i = choose|i: int| 0 <= i < r.2.len() && r.2[i] == x;
                if r.2 == pre.2 || i < pre.2.len() {
                    assert(canceled_has(pre.2, x)) by {
                        assert(pre.2[i] == x);
                    }
                    assert(x != q);
                    assert(r.1.at(x, b) == pre.1.at(x, b));
                } else {
                    // the last action canceled q itself
                    assert(x == q);
                    assert(inp.action is Canceled);
                    match b {
                        PointerButton::Primary => {},
                        PointerButton::Secondary => {},
                        PointerButton::Middle => {},
                    }
                    assert(r.1.at(q, b) == crate::state::empty_bstate());
                }
            }
        }
    }
}

/// Cancellation finality: once a pointer's cancellation is replayed, the
/// cycle ends with that pointer's whole store empty, and no event of that
/// pointer follows the cancellation's own events — the pointer's remaining
/// actions of the cycle are dropped.
pub proof fn lemma_cancellation_finality(
    prev: Seq<(PointerId, Vec<(Entity, HitData)>)>,
    cur: Seq<(PointerId, Vec<(Entity, HitData)>)>,
    locs: Seq<(PointerId, Location)>,
    inputs: Seq<crate::pointer::PointerInput>,
    st: SModel,
    now: u64,
    c: int,
)
    requires
        0 <= c < inputs.len(),
        inputs[c].action is Canceled,
    ensures
        forall|b: PointerButton| #[trigger] cycle(prev, cur, locs, inputs, st, now).1.at(
            inputs[c].pointer_id,
            b,
        ) == crate::state::empty_bstate(),
        forall|k: int|
            phase_out(prev, cur, locs, st).0.len() + phase_over(
                cur,
                prev,
                locs,
                phase_out(prev, cur, locs, st).1,
            ).0.len() + replay_from(
                inputs.take(c + 1),
                cur,
                prev,
                phase_over(cur, prev, locs, phase_out(prev, cur, locs, st).1).1,
                Seq::empty(),
                now,
            ).0.len() <= k < cycle(prev, cur, locs, inputs, st, now).0.len() ==> (#[trigger] cycle(
                prev,
                cur,
                locs,
                inputs,
                st,
                now,
            ).0[k]).pointer_id != inputs[c].pointer_id,
{
    let pid = inputs[c].pointer_id;
    let p1 = phase_out(prev, cur, locs, st);
    let p2 = phase_over(cur, prev, locs, p1.1);
    let c0 = Seq::<PointerId>::empty();
    let s1 = inputs.take(c + 1);
    let s2 = inputs.skip(c + 1);
    assert(inputs =~= s1 + s2);
    lemma_replay_from_append(s1, s2, cur, prev, p2.1, c0, now);
    let mid = replay_from(s1, cur, prev, p2.1, c0, now);
    let tail = replay_from(s2, cur, prev, mid.1, mid.2, now);
    // after the prefix through the cancellation, the pointer is canceled
    assert(s1.drop_last() =~= inputs.take(c));
    assert(s1.last() == inputs[c]);
    let pre = replay_from(inputs.take(c), cur, prev, p2.1, c0, now);
    assert(canceled_has(mid.2, pid)) by {
        if canceled_has(pre.2, pid) {
            let i = choose|i: int| 0 <= i < pre.2.len() && pre.2[i] == pid;
            assert(mid.2[i] == pid);
        } else {
            assert(mid.2 == pre.2.push(pid));
            assert(mid.2[mid.2.len() - 1] == pid);
        }
    }
    // ... and its store is empty, and stays so
    assert(forall|x: PointerId, b: PointerButton|
        canceled_has(c0, x) ==> #[trigger] p2.1.at(x, b) == crate::state::empty_bstate());
    lemma_replay_from_cleared(s1, cur, prev, p2.1, c0, now);
    lemma_replay_from_canceled(s2, pid, cur, prev, mid.1, mid.2, now);
    // no event of the canceled pointer follows the prefix
    let evs = cycle(prev, cur, locs, inputs, st, now).0;
    let boundary = p1.0.len() + p2.0.len() + mid.0.len();
    assert(evs =~= p1.0 + p2.0 + (mid.0 + tail.0));
    assert forall|k: int| boundary <= k < evs.len() implies (#[trigger] evs[k]).pointer_id
        != pid by {
        assert(evs[k] == tail.0[k - boundary]);
    }
}


// ---------------------------------------------------------------------------
// Click requires prior press.
// ---------------------------------------------------------------------------

/// The press remembered for `e`, if any, either stands in `init_pressing`
/// unchanged or was recorded at `now` by a `Down` event among `evs`.
spec fn press_origin(
    cur_pressing: Seq<(Entity, PressEntry)>,
    init_pressing: Seq<(Entity, PressEntry)>,
    evs: Seq<Pointer<PointerEvent>>,
    pid: PointerId,
    b: PointerButton,
    now: u64,
    e: Entity,
) -> bool {
    match crate::alist::al_get(cur_pressing, e) {
        Option::Some(en) => {
            ||| crate::alist::al_get(init_pressing, e) == Some(en)
            ||| (en.time == now && exists|i: int|
                0 <= i < evs.len() && (#[trigger] evs[i]).pointer_id == pid && evs[i].target == e
                    && (evs[i].event matches PointerEvent::Down(d) && d.button == b))
        },
        Option::None => true,
    }
}

/// Every remembered press of the store is accounted for.
spec fn pressing_tracked(
    stc: SModel,
    st0: SModel,
    evs: Seq<Pointer<PointerEvent>>,
    now: u64,
) -> bool {
    forall|pid: PointerId, b: PointerButton, e: Entity|
        #[trigger] press_origin(
            stc.at(pid, b).pressing,
            st0.at(pid, b).pressing,
            evs,
            pid,
            b,
            now,
            e,
        )
}

/// A `Click` at position `k` is justified: its press either stood in the
/// store `st0` when the cycle began — and the duration measures from that
/// press — or was recorded by an earlier `Down` of the same cycle — and
/// the duration is zero.
pub open spec fn click_justified(
    evs: Seq<Pointer<PointerEvent>>,
    k: int,
    st0: SModel,
    now: u64,
) -> bool {
    match evs[k].event {
        PointerEvent::Click(cl) => {
            ||| (match crate::alist::al_get(
                st0.at(evs[k].pointer_id, cl.button).pressing,
                evs[k].target,
            ) {
                Option::Some(en) => cl.duration == (now - en.time) as u64,
                Option::None => false,
            })
            ||| (cl.duration == 0 && exists|i: int|
                0 <= i < k && (#[trigger] evs[i]).pointer_id == evs[k].pointer_id && evs[i].target
                    == evs[k].target && (evs[i].event matches PointerEvent::Down(d) && d.button
                    == cl.button))
        },
        _ => true,
    }
}

proof fn lemma_tracked_extend(
    stc: SModel,
    st0: SModel,
    evs: Seq<Pointer<PointerEvent>>,
    more: Seq<Pointer<PointerEvent>>,
    now: u64,
)
    requires
        pressing_tracked(stc, st0, evs, now),
    ensures
        pressing_tracked(stc, st0, evs + more, now),
{
    assert forall|pid: PointerId, b: PointerButton, e: Entity| #[trigger] press_origin(
        stc.at(pid, b).pressing,
        st0.at(pid, b).pressing,
        evs + more,
        pid,
        b,
        now,
        e,
    ) by {
        assert(press_origin(stc.at(pid, b).pressing, st0.at(pid, b).pressing, evs, pid, b, now, e));
        match crate::alist::al_get(stc.at(pid, b).pressing, e) {
            Option::Some(en) => {
                if crate::alist::al_get(st0.at(pid, b).pressing, e) != Some(en) {
                    let i = choose|i: int|
                        0 <= i < evs.len() && (#[trigger] evs[i]).pointer_id == pid && evs[i].target
                            == e && (evs[i].event matches PointerEvent::Down(d) && d.button == b);
                    assert((evs + more)[i] == evs[i]);
                }
            },
            Option::None => {},
        }
    }
}

proof fn lemma_down_hits_tracked(
    pid: PointerId,
    loc: Location,
    b: PointerButton,
    hits: Seq<(Entity, HitData)>,
    pressing: Seq<(Entity, PressEntry)>,
    now: u64,
)
    ensures
        forall|e: Entity| #[trigger] press_origin(
            down_hits(pid, loc, b, hits, pressing, now).1,
            pressing,
            down_hits(pid, loc, b, hits, pressing, now).0,
            pid,
            b,
            now,
            e,
        ),
    decreases hits.len(),
{
    if hits.len() > 0 {
        lemma_down_hits_tracked(pid, loc, b, hits.drop_last(), pressing, now);
        let pre = down_hits(pid, loc, b, hits.drop_last(), pressing, now);
        let r = down_hits(pid, loc, b, hits, pressing, now);
        let e2 = hits.last().0;
        let en2 = PressEntry { location: loc, time: now, hit: hits.last().1 };
        crate::alist::lemma_al_get_insert_same(pre.1, e2, en2);
        assert forall|e: Entity| #[trigger] press_origin(r.1, pressing, r.0, pid, b, now, e) by {
            assert(press_origin(pre.1, pressing, pre.0, pid, b, now, e));
            if e == e2 {
                assert(crate::alist::al_get(r.1, e) == Some(en2));
                assert(r.0[r.0.len() - 1].target == e2);
                assert(r.0[r.0.len() - 1].pointer_id == pid);
            } else {
                crate::alist::lemma_al_get_insert_other(pre.1, e2, en2, e);
                assert(crate::alist::al_get(r.1, e) == crate::alist::al_get(pre.1, e));
                match crate::alist::al_get(pre.1, e) {
                    Option::Some(en) => {
                        if crate::alist::al_get(pressing, e) != Some(en) {
                            let i = choose|i: int|
                                0 <= i < pre.0.len() && (#[trigger] pre.0[i]).pointer_id == pid
                                    && pre.0[i].target == e && (
                                pre.0[i].event matches PointerEvent::Down(d) && d.button == b);
                            assert(r.0[i] == pre.0[i]);
                        }
                    },
                    Option::None => {},
                }
            }
        }
    }
}

/// What holds of every `Click` of one release's click-and-up run.
spec fn click_info_at(
    evs: Seq<Pointer<PointerEvent>>,
    k: int,
    pressing: Seq<(Entity, PressEntry)>,
    pid: PointerId,
    b: PointerButton,
    now: u64,
) -> bool {
    match evs[k].event {
        PointerEvent::Click(cl) => cl.button == b && evs[k].pointer_id == pid && (
        match crate::alist::al_get(pressing, evs[k].target) {
            Option::Some(en) => cl.duration == (now - en.time) as u64,
            Option::None => false,
        }),
        _ => true,
    }
}

proof fn lemma_up_clicks_info(
    pid: PointerId,
    loc: Location,
    b: PointerButton,
    hits: Seq<(Entity, HitData)>,
    pressing: Seq<(Entity, PressEntry)>,
    now: u64,
)
    ensures
        forall|k: int|
            0 <= k < up_clicks(pid, loc, b, hits, pressing, now).len() ==> #[trigger] click_info_at(
                up_clicks(pid, loc, b, hits, pressing, now),
                k,
                pressing,
                pid,
                b,
                now,
            ),
    decreases hits.len(),
{
    if hits.len() > 0 {
        lemma_up_clicks_info(pid, loc, b, hits.drop_last(), pressing, now);
        let pre = up_clicks(pid, loc, b, hits.drop_last(), pressing, now);
        let r = up_clicks(pid, loc, b, hits, pressing, now);
        assert forall|k: int| 0 <= k < r.len() implies #[trigger] click_info_at(
            r,
            k,
            pressing,
            pid,
            b,
            now,
        ) by {
            if k < pre.len() {
                assert(r[k] == pre[k]);
                assert(click_info_at(pre, k, pressing, pid, b, now));
            }
        }
    }
}

proof fn lemma_moved_buttons_pressing(
    pid: PointerId,
    loc: Location,
    btns: Seq<PointerButton>,
    hits: Seq<(Entity, HitData)>,
    st: SModel,
)
    ensures
        forall|p2: PointerId, b2: PointerButton|
            (#[trigger] moved_buttons(pid, loc, btns, hits, st).1.at(p2, b2)).pressing == st.at(
                p2,
                b2,
            ).pressing,
    decreases btns.len(),
{
    if btns.len() > 0 {
        lemma_moved_buttons_pressing(pid, loc, btns.drop_last(), hits, st);
        let pre = moved_buttons(pid, loc, btns.drop_last(), hits, st);
        let r = moved_buttons(pid, loc, btns, hits, st);
        assert forall|p2: PointerId, b2: PointerButton|
            (#[trigger] r.1.at(p2, b2)).pressing == st.at(p2, b2).pressing by {
            if p2 == pid && b2 == btns.last() {
            } else {
                assert(r.1.at(p2, b2) == pre.1.at(p2, b2));
            }
        }
    }
}

proof fn lemma_step_tracked(
    inp: crate::pointer::PointerInput,
    cur: Seq<(PointerId, Vec<(Entity, HitData)>)>,
    prev: Seq<(PointerId, Vec<(Entity, HitData)>)>,
    stc: SModel,
    st0: SModel,
    evs0: Seq<Pointer<PointerEvent>>,
    now: u64,
)
    requires
        pressing_tracked(stc, st0, evs0, now),
    ensures
        pressing_tracked(step(inp, cur, prev, stc, now).1, st0, evs0 + step(
            inp,
            cur,
            prev,
            stc,
            now,
        ).0, now),
        forall|k: int|
            evs0.len() <= k < (evs0 + step(inp, cur, prev, stc, now).0).len()
                ==> #[trigger] click_justified(evs0 + step(inp, cur, prev, stc, now).0, k, st0, now),
{
    let pid = inp.pointer_id;
    let loc = inp.location;
    let chunk = step(inp, cur, prev, stc, now).0;
    let st2 = step(inp, cur, prev, stc, now).1;
    let all = evs0 + chunk;
    match inp.action {
        crate::pointer::PointerAction::Pressed { direction, button } => match direction {
            crate::pointer::PressDirection::Down => {
                let bs = stc.at(pid, button);
                let dh = down_hits(pid, loc, button, hover_of(cur, pid), bs.pressing, now);
                lemma_down_hits_tracked(pid, loc, button, hover_of(cur, pid), bs.pressing, now);
                lemma_down_hits_shape(pid, loc, button, hover_of(cur, pid), bs.pressing, now);
                assert forall|p2: PointerId, b2: PointerButton, e: Entity| #[trigger] press_origin(
                    st2.at(p2, b2).pressing,
                    st0.at(p2, b2).pressing,
                    all,
                    p2,
                    b2,
                    now,
                    e,
                ) by {
                    assert(press_origin(
                        stc.at(p2, b2).pressing,
                        st0.at(p2, b2).pressing,
                        evs0,
                        p2,
                        b2,
                        now,
                        e,
                    ));
                    if p2 == pid && b2 == button {
                        assert(st2.at(p2, b2).pressing == dh.1);
                        assert(press_origin(dh.1, bs.pressing, dh.0, pid, button, now, e));
                        match crate::alist::al_get(dh.1, e) {
                            Option::Some(en) => {
                                if crate::alist::al_get(bs.pressing, e) == Some(en) {
                                    if crate::alist::al_get(st0.at(p2, b2).pressing, e) != Some(
                                        en,
                                    ) {
                                        let i = choose|i: int|
                                            0 <= i < evs0.len() && (#[trigger] evs0[i]).pointer_id
                                                == p2 && evs0[i].target == e && (
                                            evs0[i].event matches PointerEvent::Down(d) && d.button
                                                == b2);
                                        assert(all[i] == evs0[i]);
                                    }
                                } else {
                                    let i = choose|i: int|
                                        0 <= i < dh.0.len() && (#[trigger] dh.0[i]).pointer_id
                                            == pid && dh.0[i].target == e && (
                                        dh.0[i].event matches PointerEvent::Down(d) && d.button
                                            == button);
                                    assert(all[evs0.len() + i] == dh.0[i]);
                                }
                            },
                            Option::None => {},
                        }
                    } else {
                        assert(st2.at(p2, b2) == stc.at(p2, b2));
                        match crate::alist::al_get(st2.at(p2, b2).pressing, e) {
                            Option::Some(en) => {
                                if crate::alist::al_get(st0.at(p2, b2).pressing, e) != Some(en) {
                                    let i = choose|i: int|
                                        0 <= i < evs0.len() && (#[trigger] evs0[i]).pointer_id == p2
                                            && evs0[i].target == e && (
                                        evs0[i].event matches PointerEvent::Down(d) && d.button
                                            == b2);
                                    assert(all[i] == evs0[i]);
                                }
                            },
                            Option::None => {},
                        }
                    }
                }
                assert forall|k: int|
                    evs0.len() <= k < all.len() implies #[trigger] click_justified(
                    all,
                    k,
                    st0,
                    now,
                ) by {
                    assert(all[k] == dh.0[k - evs0.len()]);
                }
            },
            crate::pointer::PressDirection::Up => {
                let bs = stc.at(pid, button);
                lemma_up_clicks_info(pid, loc, button, hover_of(prev, pid), bs.pressing, now);
                lemma_up_drops_shape(pid, loc, button, bs.dragging, bs.dragging_over);
                let c = up_clicks(pid, loc, button, hover_of(prev, pid), bs.pressing, now);
                let d = up_drops(pid, loc, button, bs.dragging, bs.dragging_over);
                assert(chunk == c + d);
                assert forall|p2: PointerId, b2: PointerButton, e: Entity| #[trigger] press_origin(
                    st2.at(p2, b2).pressing,
                    st0.at(p2, b2).pressing,
                    all,
                    p2,
                    b2,
                    now,
                    e,
                ) by {
                    assert(press_origin(
                        stc.at(p2, b2).pressing,
                        st0.at(p2, b2).pressing,
                        evs0,
                        p2,
                        b2,
                        now,
                        e,
                    ));
                    if p2 == pid && b2 == button {
                        assert(st2.at(p2, b2).pressing
                            == crate::state::empty_bstate().pressing);
                    } else {
                        assert(st2.at(p2, b2) == stc.at(p2, b2));
                        match crate::alist::al_get(st2.at(p2, b2).pressing, e) {
                            Option::Some(en) => {
                                if crate::alist::al_get(st0.at(p2, b2).pressing, e) != Some(en) {
                                    let i = choose|i: int|
                                        0 <= i < evs0.len() && (#[trigger] evs0[i]).pointer_id == p2
                                            && evs0[i].target == e && (
                                        evs0[i].event matches PointerEvent::Down(dn) && dn.button
                                            == b2);
                                    assert(all[i] == evs0[i]);
                                }
                            },
                            Option::None => {},
                        }
                    }
                }
                assert forall|k: int|
                    evs0.len() <= k < all.len() implies #[trigger] click_justified(
                    all,
                    k,
                    st0,
                    now,
                ) by {
                    if k - evs0.len() < c.len() {
                        assert(all[k] == c[k - evs0.len()]);
                        assert(click_info_at(c, k - evs0.len(), bs.pressing, pid, button, now));
                        match all[k].event {
                            PointerEvent::Click(cl) => {
                                match crate::alist::al_get(bs.pressing, all[k].target) {
                                    Option::Some(en) => {
                                        assert(press_origin(
                                            stc.at(pid, button).pressing,
                                            st0.at(pid, button).pressing,
                                            evs0,
                                            pid,
                                            button,
                                            now,
                                            all[k].target,
                                        ));
                                        if crate::alist::al_get(
                                            st0.at(pid, button).pressing,
                                            all[k].target,
                                        ) == Some(en) {
                                        } else {
                                            assert(en.time == now);
                                            assert(cl.duration == 0);
                                            let i = choose|i: int|
                                                0 <= i < evs0.len() && (#[trigger] evs0[i]).pointer_id
                                                    == pid && evs0[i].target == all[k].target && (
                                                evs0[i].event matches PointerEvent::Down(dn)
                                                    && dn.button == button);
                                            assert(all[i] == evs0[i]);
                                            assert(i < k);
                                        }
                                    },
                                    Option::None => {
                                        assert(false);
                                    },
                                }
                            },
                            _ => {},
                        }
                    } else {
                        assert(all[k] == d[k - evs0.len() - c.len()]);
                    }
                }
            },
        },
        crate::pointer::PointerAction::Moved { delta } => {
            lemma_moved_buttons_pressing(pid, loc, all_buttons(), hover_of(cur, pid), stc);
            lemma_moved_buttons_shape(pid, loc, all_buttons(), hover_of(cur, pid), stc);
            lemma_move_moves_shape(pid, loc, delta, hover_of(cur, pid));
            let a = moved_buttons(pid, loc, all_buttons(), hover_of(cur, pid), stc).0;
            let m = move_moves(pid, loc, delta, hover_of(cur, pid));
            assert(chunk == a + m);
            assert forall|p2: PointerId, b2: PointerButton, e: Entity| #[trigger] press_origin(
                st2.at(p2, b2).pressing,
                st0.at(p2, b2).pressing,
                all,
                p2,
                b2,
                now,
                e,
            ) by {
                assert(press_origin(
                    stc.at(p2, b2).pressing,
                    st0.at(p2, b2).pressing,
                    evs0,
                    p2,
                    b2,
                    now,
                    e,
                ));
                assert(st2.at(p2, b2).pressing == stc.at(p2, b2).pressing);
                match crate::alist::al_get(st2.at(p2, b2).pressing, e) {
                    Option::Some(en) => {
                        if crate::alist::al_get(st0.at(p2, b2).pressing, e) != Some(en) {
                            let i = choose|i: int|
                                0 <= i < evs0.len() && (#[trigger] evs0[i]).pointer_id == p2
                                    && evs0[i].target == e && (
                                evs0[i].event matches PointerEvent::Down(dn) && dn.button == b2);
                            assert(all[i] == evs0[i]);
                        }
                    },
                    Option::None => {},
                }
            }
            assert forall|k: int|
                evs0.len() <= k < all.len() implies #[trigger] click_justified(all, k, st0, now) by {
                if k - evs0.len() < a.len() {
                    assert(all[k] == a[k - evs0.len()]);
                } else {
                    assert(all[k] == m[k - evs0.len() - a.len()]);
                }
            }
        },
        crate::pointer::PointerAction::Canceled => {
            lemma_cancel_events_shape(pid, loc, hover_of(cur, pid));
            assert forall|p2: PointerId, b2: PointerButton, e: Entity| #[trigger] press_origin(
                st2.at(p2, b2).pressing,
                st0.at(p2, b2).pressing,
                all,
                p2,
                b2,
                now,
                e,
            ) by {
                assert(press_origin(
                    stc.at(p2, b2).pressing,
                    st0.at(p2, b2).pressing,
                    evs0,
                    p2,
                    b2,
                    now,
                    e,
                ));
                if p2 == pid {
                    match b2 {
                        PointerButton::Primary => {},
                        PointerButton::Secondary => {},
                        PointerButton::Middle => {},
                    }
                    assert(st2.at(p2, b2) == crate::state::empty_bstate());
                } else {
                    assert(st2.at(p2, b2) == stc.at(p2, b2));
                    match crate::alist::al_get(st2.at(p2, b2).pressing, e) {
                        Option::Some(en) => {
                            if crate::alist::al_get(st0.at(p2, b2).pressing, e) != Some(en) {
                                let i = choose|i: int|
                                    0 <= i < evs0.len() && (#[trigger] evs0[i]).pointer_id == p2
                                        && evs0[i].target == e && (
                                    evs0[i].event matches PointerEvent::Down(dn) && dn.button
                                        == b2);
                                assert(all[i] == evs0[i]);
                            }
                        },
                        Option::None => {},
                    }
                }
            }
            assert forall|k: int|
                evs0.len() <= k < all.len() implies #[trigger] click_justified(all, k, st0, now) by {
                assert(all[k] == cancel_events(pid, loc, hover_of(cur, pid))[k - evs0.len()]);
            }
        },
    }
}

proof fn lemma_replay_from_tracked(
    inputs: Seq<crate::pointer::PointerInput>,
    cur: Seq<(PointerId, Vec<(Entity, HitData)>)>,
    prev: Seq<(PointerId, Vec<(Entity, HitData)>)>,
    stc: SModel,
    st0: SModel,
    evs0: Seq<Pointer<PointerEvent>>,
    c0: Seq<PointerId>,
    now: u64,
)
    requires
        pressing_tracked(stc, st0, evs0, now),
    ensures
        pressing_tracked(replay_from(inputs, cur, prev, stc, c0, now).1, st0, evs0 + replay_from(
            inputs,
            cur,
            prev,
            stc,
            c0,
            now,
        ).0, now),
        forall|k: int|
            evs0.len() <= k < (evs0 + replay_from(inputs, cur, prev, stc, c0, now).0).len()
                ==> #[trigger] click_justified(
                evs0 + replay_from(inputs, cur, prev, stc, c0, now).0,
                k,
                st0,
                now,
            ),
    decreases inputs.len(),
{
    if inputs.len() == 0 {
        assert(evs0 + replay_from(inputs, cur, prev, stc, c0, now).0 =~= evs0);
        lemma_tracked_extend(stc, st0, evs0, replay_from(inputs, cur, prev, stc, c0, now).0, now);
    } else {
        lemma_replay_from_tracked(inputs.drop_last(), cur, prev, stc, st0, evs0, c0, now);
        let pre = replay_from(inputs.drop_last(), cur, prev, stc, c0, now);
        let r = replay_from(inputs, cur, prev, stc, c0, now);
        if canceled_has(pre.2, inputs.last().pointer_id) {
            // the action is dropped: nothing changes
            assert(r == pre);
        } else {
            lemma_step_tracked(inputs.last(), cur, prev, pre.1, st0, evs0 + pre.0, now);
            let chunk = step(inputs.last(), cur, prev, pre.1, now);
            let all = evs0 + r.0;
            let mid = evs0 + pre.0;
            assert(all =~= mid + chunk.0);
            assert(pressing_tracked(r.1, st0, all, now));
            assert forall|k: int| evs0.len() <= k < all.len() implies #[trigger] click_justified(
                all,
                k,
                st0,
                now,
            ) by {
                if k < mid.len() {
                    assert(click_justified(mid, k, st0, now));
                    assert(all[k] == mid[k]);
                    match all[k].event {
                        PointerEvent::Click(cl) => {
                            let first = match crate::alist::al_get(
                                st0.at(all[k].pointer_id, cl.button).pressing,
                                all[k].target,
                            ) {
                                Option::Some(en) => cl.duration == (now - en.time) as u64,
                                Option::None => false,
                            };
                            if !first {
                                let i = choose|i: int|
                                    0 <= i < k && (#[trigger] mid[i]).pointer_id == mid[k].pointer_id
                                        && mid[i].target == mid[k].target && (
                                    mid[i].event matches PointerEvent::Down(d) && d.button
                                        == cl.button);
                                assert(all[i] == mid[i]);
                            }
                        },
                        _ => {},
                    }
                } else {
                    assert(click_justified(mid + chunk.0, k, st0, now));
                }
            }
        }
    }
}

proof fn lemma_replay_tracked(
    inputs: Seq<crate::pointer::PointerInput>,
    cur: Seq<(PointerId, Vec<(Entity, HitData)>)>,
    prev: Seq<(PointerId, Vec<(Entity, HitData)>)>,
    stc: SModel,
    st0: SModel,
    evs0: Seq<Pointer<PointerEvent>>,
    now: u64,
)
    requires
        pressing_tracked(stc, st0, evs0, now),
    ensures
        pressing_tracked(replay(inputs, cur, prev, stc, now).1, st0, evs0 + replay(
            inputs,
            cur,
            prev,
            stc,
            now,
        ).0, now),
        forall|k: int|
            evs0.len() <= k < (evs0 + replay(inputs, cur, prev, stc, now).0).len()
                ==> #[trigger] click_justified(
                evs0 + replay(inputs, cur, prev, stc, now).0,
                k,
                st0,
                now,
            ),
{
    lemma_replay_from_tracked(inputs, cur, prev, stc, st0, evs0, Seq::empty(), now);
}

/// Click requires prior press: every `Click` of a cycle is for an entity
/// whose press either stood in the store when the cycle began — and then
/// the duration is exactly the press-to-release time — or was recorded
/// earlier in the same cycle by a `Down` for the same pointer, button and
/// entity — and then the duration is zero.
pub proof fn lemma_click_requires_press(
    prev: Seq<(PointerId, Vec<(Entity, HitData)>)>,
    cur: Seq<(PointerId, Vec<(Entity, HitData)>)>,
    locs: Seq<(PointerId, Location)>,
    inputs: Seq<crate::pointer::PointerInput>,
    st: SModel,
    now: u64,
)
    ensures
        forall|k: int|
            0 <= k < cycle(prev, cur, locs, inputs, st, now).0.len() ==> #[trigger] click_justified(
                cycle(prev, cur, locs, inputs, st, now).0,
                k,
                st,
                now,
            ),
{
    let p1 = phase_out(prev, cur, locs, st);
    let p2 = phase_over(cur, prev, locs, p1.1);
    let p3 = replay(inputs, cur, prev, p2.1, now);
    lemma_out_shape_weak(prev, cur, locs, st);
    lemma_over_shape_weak(cur, prev, locs, p1.1);
    let evs0 = p1.0 + p2.0;
    // the two hover phases do not touch `pressing`, so at the start of the
    // replay every remembered press is an initial one
    assert forall|pid: PointerId, b: PointerButton, e: Entity| #[trigger] press_origin(
        p2.1.at(pid, b).pressing,
        st.at(pid, b).pressing,
        evs0,
        pid,
        b,
        now,
        e,
    ) by {
        assert(p2.1.at(pid, b).pressing == p1.1.at(pid, b).pressing);
        assert(p1.1.at(pid, b).pressing == st.at(pid, b).pressing);
    }
    lemma_replay_tracked(inputs, cur, prev, p2.1, st, evs0, now);
    let evs = cycle(prev, cur, locs, inputs, st, now).0;
    assert(evs =~= evs0 + p3.0);
    assert forall|k: int| 0 <= k < evs.len() implies #[trigger] click_justified(
        evs,
        k,
        st,
        now,
    ) by {
        if k < evs0.len() {
            // the two hover phases emit no Click at all
            if k < p1.0.len() {
                assert(evs[k] == p1.0[k]);
            } else {
                assert(evs[k] == p2.0[k - p1.0.len()]);
            }
        } else {
            assert(click_justified(evs0 + p3.0, k, st, now));
        }
    }
}


/// Weak phase-1 shape, without hover-map well-formedness: only the kinds
/// and the untouched `pressing` are needed here.
proof fn lemma_out_shape_weak(
    prev: Seq<(PointerId, Vec<(Entity, HitData)>)>,
    cur: Seq<(PointerId, Vec<(Entity, HitData)>)>,
    locs: Seq<(PointerId, Location)>,
    st: SModel,
)
    ensures
        forall|k: int|
            0 <= k < phase_out(prev, cur, locs, st).0.len() ==> {
                let ev = #[trigger] phase_out(prev, cur, locs, st).0[k];
                ev.event is Out || ev.event is DragLeave
            },
        forall|p2: PointerId, b2: PointerButton|
            (#[trigger] phase_out(prev, cur, locs, st).1.at(p2, b2)).pressing == st.at(
                p2,
                b2,
            ).pressing,
    decreases prev.len(),
{
    if prev.len() > 0 {
        lemma_out_shape_weak(prev.drop_last(), cur, locs, st);
        let pre = phase_out(prev.drop_last(), cur, locs, st);
        lemma_out_entity_all(prev.last().0, prev.last().1@, cur, locs, pre.1);
        let chunk = out_hits(prev.last().0, prev.last().1@, cur, locs, pre.1);
        let r = phase_out(prev, cur, locs, st);
        assert forall|k: int| 0 <= k < r.0.len() implies {
            let ev = #[trigger] r.0[k];
            ev.event is Out || ev.event is DragLeave
        } by {
            if k < pre.0.len() {
                assert(r.0[k] == pre.0[k]);
            } else {
                assert(r.0[k] == chunk.0[k - pre.0.len()]);
            }
        }
        assert forall|p2: PointerId, b2: PointerButton|
            (#[trigger] r.1.at(p2, b2)).pressing == st.at(p2, b2).pressing by {
            assert(chunk.1.at(p2, b2).pressing == pre.1.at(p2, b2).pressing);
        }
    }
}

/// Kinds and untouched `pressing` for one pointer's hover-loss run,
/// without any uniqueness assumption.
proof fn lemma_out_entity_all(
    pid: PointerId,
    hits: Seq<(Entity, HitData)>,
    cur: Seq<(PointerId, Vec<(Entity, HitData)>)>,
    locs: Seq<(PointerId, Location)>,
    st: SModel,
)
    ensures
        forall|k: int|
            0 <= k < out_hits(pid, hits, cur, locs, st).0.len() ==> {
                let ev = #[trigger] out_hits(pid, hits, cur, locs, st).0[k];
                ev.event is Out || ev.event is DragLeave
            },
        forall|p2: PointerId, b2: PointerButton|
            (#[trigger] out_hits(pid, hits, cur, locs, st).1.at(p2, b2)).pressing == st.at(
                p2,
                b2,
            ).pressing,
    decreases hits.len(),
{
    if hits.len() > 0 {
        lemma_out_entity_all(pid, hits.drop_last(), cur, locs, st);
        let pre = out_hits(pid, hits.drop_last(), cur, locs, st);
        lemma_out_entity_shape(pid, hits.last().0, hits.last().1, cur, locs, pre.1);
        let chunk = out_entity(pid, hits.last().0, hits.last().1, cur, locs, pre.1);
        let r = out_hits(pid, hits, cur, locs, st);
        assert forall|k: int| 0 <= k < r.0.len() implies {
            let ev = #[trigger] r.0[k];
            ev.event is Out || ev.event is DragLeave
        } by {
            if k < pre.0.len() {
                assert(r.0[k] == pre.0[k]);
            } else {
                assert(r.0[k] == chunk.0[k - pre.0.len()]);
            }
        }
        assert forall|p2: PointerId, b2: PointerButton|
            (#[trigger] r.1.at(p2, b2)).pressing == st.at(p2, b2).pressing by {
            assert(chunk.1.at(p2, b2).pressing == pre.1.at(p2, b2).pressing);
        }
    }
}

/// Weak phase-2 shape, without hover-map well-formedness.
proof fn lemma_over_shape_weak(
    cur: Seq<(PointerId, Vec<(Entity, HitData)>)>,
    prev: Seq<(PointerId, Vec<(Entity, HitData)>)>,
    locs: Seq<(PointerId, Location)>,
    st: SModel,
)
    ensures
        forall|k: int|
            0 <= k < phase_over(cur, prev, locs, st).0.len() ==> {
                let ev = #[trigger] phase_over(cur, prev, locs, st).0[k];
                ev.event is DragEnter || ev.event is Over
            },
        forall|p2: PointerId, b2: PointerButton|
            (#[trigger] phase_over(cur, prev, locs, st).1.at(p2, b2)).pressing == st.at(
                p2,
                b2,
            ).pressing,
    decreases cur.len(),
{
    if cur.len() > 0 {
        lemma_over_shape_weak(cur.drop_last(), prev, locs, st);
        let pre = phase_over(cur.drop_last(), prev, locs, st);
        lemma_over_entity_all(cur.last().0, cur.last().1@, prev, locs, pre.1);
        let chunk = over_hits(cur.last().0, cur.last().1@, prev, locs, pre.1);
        let r = phase_over(cur, prev, locs, st);
        assert forall|k: int| 0 <= k < r.0.len() implies {
            let ev = #[trigger] r.0[k];
            ev.event is DragEnter || ev.event is Over
        } by {
            if k < pre.0.len() {
                assert(r.0[k] == pre.0[k]);
            } else {
                assert(r.0[k] == chunk.0[k - pre.0.len()]);
            }
        }
        assert forall|p2: PointerId, b2: PointerButton|
            (#[trigger] r.1.at(p2, b2)).pressing == st.at(p2, b2).pressing by {
            assert(chunk.1.at(p2, b2).pressing == pre.1.at(p2, b2).pressing);
        }
    }
}

/// Kinds and untouched `pressing` for one pointer's hover-gain run,
/// without any uniqueness assumption.
proof fn lemma_over_entity_all(
    pid: PointerId,
    hits: Seq<(Entity, HitData)>,
    prev: Seq<(PointerId, Vec<(Entity, HitData)>)>,
    locs: Seq<(PointerId, Location)>,
    st: SModel,
)
    ensures
        forall|k: int|
            0 <= k < over_hits(pid, hits, prev, locs, st).0.len() ==> {
                let ev = #[trigger] over_hits(pid, hits, prev, locs, st).0[k];
                ev.event is DragEnter || ev.event is Over
            },
        forall|p2: PointerId, b2: PointerButton|
            (#[trigger] over_hits(pid, hits, prev, locs, st).1.at(p2, b2)).pressing == st.at(
                p2,
                b2,
            ).pressing,
    decreases hits.len(),
{
    if hits.len() > 0 {
        lemma_over_entity_all(pid, hits.drop_last(), prev, locs, st);
        let pre = over_hits(pid, hits.drop_last(), prev, locs, st);
        lemma_over_entity_shape(pid, hits.last().0, hits.last().1, prev, locs, pre.1);
        let chunk = over_entity(pid, hits.last().0, hits.last().1, prev, locs, pre.1);
        let r = over_hits(pid, hits, prev, locs, st);
        assert forall|k: int| 0 <= k < r.0.len() implies {
            let ev = #[trigger] r.0[k];
            ev.event is DragEnter || ev.event is Over
        } by {
            if k < pre.0.len() {
                assert(r.0[k] == pre.0[k]);
            } else {
                assert(r.0[k] == chunk.0[k - pre.0.len()]);
            }
        }
        assert forall|p2: PointerId, b2: PointerButton|
            (#[trigger] r.1.at(p2, b2)).pressing == st.at(p2, b2).pressing by {
            assert(chunk.1.at(p2, b2).pressing == pre.1.at(p2, b2).pressing);
        }
    }
}

} // verus!
