use picking::alist::{al_delete, al_has, al_lookup, al_set};
use picking::events::Pointer;
use picking::hover::HoverMap;
use picking::pointer::{Entity, HitData, Location, PointerButton, PointerId, Vec2};
use picking::state::PointerState;

fn e(id: u64) -> Entity {
    Entity { id }
}

#[test]
fn store_is_lazily_populated() {
    let mut state = PointerState::new();
    let pid = PointerId { id: 1 };
    assert!(state.get(pid, PointerButton::Primary).is_none());
    {
        let st = state.get_mut(pid, PointerButton::Primary);
        assert!(st.pressing.is_empty() && st.dragging.is_empty() && st.dragging_over.is_empty());
        al_set(&mut st.dragging_over, e(5), HitData { data: 9 });
    }
    let got = state.get(pid, PointerButton::Primary).unwrap();
    assert_eq!(got.dragging_over, vec![(e(5), HitData { data: 9 })]);
    assert!(state.get(pid, PointerButton::Secondary).is_none());
}

#[test]
fn get_mut_creates_and_edits_in_place() {
    let mut state = PointerState::new();
    let pid = PointerId { id: 3 };
    {
        let st = state.get_mut(pid, PointerButton::Middle);
        assert!(st.pressing.is_empty());
        al_set(&mut st.dragging, e(7), picking::state::DragEntry {
            start_pos: Vec2 { x: 0, y: 0 },
            latest_pos: Vec2 { x: 2, y: 0 },
        });
    }
    let got = state.get(pid, PointerButton::Middle).unwrap();
    assert_eq!(got.dragging.len(), 1);
    assert_eq!(got.dragging[0].0, e(7));
    assert!(state.get(pid, PointerButton::Primary).is_none());
}

#[test]
fn clear_empties_every_button() {
    let mut state = PointerState::new();
    let pid = PointerId { id: 1 };
    let other = PointerId { id: 2 };
    for b in [PointerButton::Primary, PointerButton::Secondary, PointerButton::Middle] {
        let st = state.get_mut(pid, b);
        al_set(&mut st.dragging_over, e(5), HitData { data: 9 });
    }
    let st = state.get_mut(other, PointerButton::Middle);
    al_set(&mut st.dragging_over, e(6), HitData { data: 1 });
    state.clear(pid);
    for b in [PointerButton::Primary, PointerButton::Secondary, PointerButton::Middle] {
        let got = state.get(pid, b).unwrap();
        assert!(got.pressing.is_empty() && got.dragging.is_empty() && got.dragging_over.is_empty());
    }
    // other pointers keep their records
    let kept = state.get(other, PointerButton::Middle).unwrap();
    assert_eq!(kept.dragging_over, vec![(e(6), HitData { data: 1 })]);
}

#[test]
fn association_list_first_match_semantics() {
    let mut v: Vec<(Entity, u64)> = Vec::new();
    al_set(&mut v, e(1), 10);
    al_set(&mut v, e(2), 20);
    assert_eq!(al_lookup(&v, e(1)), Some(10));
    assert!(al_has(&v, e(2)));
    assert!(!al_has(&v, e(3)));
    // overwrite keeps the position
    al_set(&mut v, e(1), 11);
    assert_eq!(v, vec![(e(1), 11), (e(2), 20)]);
    al_delete(&mut v, e(1));
    assert_eq!(v, vec![(e(2), 20)]);
    al_delete(&mut v, e(9));
    assert_eq!(v, vec![(e(2), 20)]);
}

#[test]
fn hover_map_lookup() {
    let h = HoverMap {
        entries: vec![
            (PointerId { id: 1 }, vec![(e(10), HitData { data: 1 })]),
            (PointerId { id: 2 }, vec![(e(20), HitData { data: 2 }), (e(21), HitData { data: 3 })]),
        ],
    };
    assert!(h.contains(PointerId { id: 2 }, e(21)));
    assert!(!h.contains(PointerId { id: 1 }, e(21)));
    let hits = h.hits_of(PointerId { id: 2 });
    assert_eq!(hits.len(), 2);
    assert_eq!(hits[0], (e(20), HitData { data: 2 }));
    assert!(h.hits_of(PointerId { id: 3 }).is_empty());
}

#[test]
fn vec2_arithmetic() {
    let a = Vec2 { x: 10, y: -4 };
    let b = Vec2 { x: 3, y: 2 };
    assert_eq!(a.sub(b), Vec2 { x: 7, y: -6 });
    assert!(Vec2 { x: 0, y: 0 }.is_zero());
    assert!(!Vec2 { x: 0, y: 1 }.is_zero());
}

#[test]
fn envelope_construction() {
    let ev = Pointer::new(
        e(4),
        PointerId { id: 1 },
        Location { target: 0, position: Vec2 { x: 1, y: 2 } },
        77u64,
    );
    assert_eq!(ev.target, e(4));
    assert_eq!(ev.event, 77u64);
}
