use picking::dispatch::pointer_events;
use picking::events::{
    Cancel, Click, Down, Drag, DragDrop, DragEnd, DragEnter, DragLeave, DragStart, Move, Out, Over,
    Pointer, PointerEvent, Up,
};
use picking::hover::HoverMap;
use picking::pointer::{
    Entity, HitData, Location, PointerAction, PointerButton, PointerId, PointerInput,
    PressDirection, Vec2,
};
use picking::state::PointerState;

fn v(x: i64, y: i64) -> Vec2 {
    Vec2 { x, y }
}

fn loc(x: i64, y: i64) -> Location {
    Location { target: 1, position: v(x, y) }
}

fn hover(entries: &[(u64, &[(u64, u64)])]) -> HoverMap {
    HoverMap {
        entries: entries
            .iter()
            .map(|(pid, hits)| {
                (
                    PointerId { id: *pid },
                    hits.iter()
                        .map(|(e, h)| (Entity { id: *e }, HitData { data: *h }))
                        .collect(),
                )
            })
            .collect(),
    }
}

fn env(target: u64, pid: u64, location: Location, event: PointerEvent) -> Pointer<PointerEvent> {
    Pointer { target: Entity { id: target }, pointer_id: PointerId { id: pid }, pointer_location: location, event }
}

const P: u64 = 7;
const E: u64 = 10;
const T: u64 = 11;

#[test]
fn scenario_hover_loss_alone() {
    // E was hovered last frame only: exactly one Out, nothing else
    let prev = hover(&[(P, &[(E, 3)])]);
    let cur = hover(&[]);
    let locs = vec![(PointerId { id: P }, loc(4, 4))];
    let mut state = PointerState::new();
    let out = pointer_events(&vec![], &locs, &cur, &prev, &mut state, 0);
    assert_eq!(
        out,
        vec![env(E, P, loc(4, 4), PointerEvent::Out(Out { hit: HitData { data: 3 } }))]
    );
}

#[test]
fn scenario_press_then_two_moves() {
    // press over E at (0,0), move to (5,0), move to (10,0), all in one cycle
    let prev = hover(&[(P, &[(E, 3)])]);
    let cur = hover(&[(P, &[(E, 3)])]);
    let locs = vec![(PointerId { id: P }, loc(10, 0))];
    let mut state = PointerState::new();
    let pid = PointerId { id: P };
    let inputs = vec![
        PointerInput {
            pointer_id: pid,
            location: loc(0, 0),
            action: PointerAction::Pressed {
                direction: PressDirection::Down,
                button: PointerButton::Primary,
            },
        },
        PointerInput {
            pointer_id: pid,
            location: loc(5, 0),
            action: PointerAction::Moved { delta: v(5, 0) },
        },
        PointerInput {
            pointer_id: pid,
            location: loc(10, 0),
            action: PointerAction::Moved { delta: v(5, 0) },
        },
    ];
    let out = pointer_events(&inputs, &locs, &cur, &prev, &mut state, 0);
    let hit = HitData { data: 3 };
    assert_eq!(
        out,
        vec![
            env(E, P, loc(0, 0), PointerEvent::Down(Down { button: PointerButton::Primary, hit })),
            // the first move starts the drag at the press location and
            // suppresses the zero drag delta, but still moves
            env(
                E,
                P,
                loc(0, 0),
                PointerEvent::DragStart(DragStart { button: PointerButton::Primary, hit })
            ),
            env(E, P, loc(5, 0), PointerEvent::Move(Move { hit, delta: v(5, 0) })),
            // the second move drags: distance from the press, delta from the
            // previous position
            env(
                E,
                P,
                loc(10, 0),
                PointerEvent::Drag(Drag {
                    button: PointerButton::Primary,
                    distance: v(10, 0),
                    delta: v(5, 0)
                })
            ),
            env(E, P, loc(10, 0), PointerEvent::Move(Move { hit, delta: v(5, 0) })),
        ]
    );
}

#[test]
fn scenario_click_without_move() {
    // press and release over E with no move in between
    let prev = hover(&[(P, &[(E, 3)])]);
    let cur = hover(&[(P, &[(E, 3)])]);
    let locs = vec![(PointerId { id: P }, loc(2, 2))];
    let mut state = PointerState::new();
    let pid = PointerId { id: P };
    let inputs = vec![
        PointerInput {
            pointer_id: pid,
            location: loc(2, 2),
            action: PointerAction::Pressed {
                direction: PressDirection::Down,
                button: PointerButton::Primary,
            },
        },
        PointerInput {
            pointer_id: pid,
            location: loc(2, 2),
            action: PointerAction::Pressed {
                direction: PressDirection::Up,
                button: PointerButton::Primary,
            },
        },
    ];
    let out = pointer_events(&inputs, &locs, &cur, &prev, &mut state, 50);
    let hit = HitData { data: 3 };
    assert_eq!(
        out,
        vec![
            env(E, P, loc(2, 2), PointerEvent::Down(Down { button: PointerButton::Primary, hit })),
            env(
                E,
                P,
                loc(2, 2),
                PointerEvent::Click(Click { button: PointerButton::Primary, hit, duration: 0 })
            ),
            env(E, P, loc(2, 2), PointerEvent::Up(Up { button: PointerButton::Primary, hit })),
        ]
    );
}

#[test]
fn scenario_drop_on_other_target() {
    // cycle one: press E and drag it away; cycle two: hover shifts to T and
    // the button is released over it
    let pid = PointerId { id: P };
    let locs1 = vec![(pid, loc(5, 0))];
    let mut state = PointerState::new();
    let e_hit = HitData { data: 3 };
    let t_hit = HitData { data: 4 };
    let hover_e = hover(&[(P, &[(E, 3)])]);
    let inputs1 = vec![
        PointerInput {
            pointer_id: pid,
            location: loc(0, 0),
            action: PointerAction::Pressed {
                direction: PressDirection::Down,
                button: PointerButton::Primary,
            },
        },
        PointerInput {
            pointer_id: pid,
            location: loc(5, 0),
            action: PointerAction::Moved { delta: v(5, 0) },
        },
    ];
    let out1 = pointer_events(&inputs1, &locs1, &hover_e, &hover(&[]), &mut state, 100);
    assert_eq!(out1.len(), 4); // Over, Down, DragStart, Move
    assert!(matches!(out1[0].event, PointerEvent::Over(_)));

    let hover_t = hover(&[(P, &[(T, 4)])]);
    let locs2 = vec![(pid, loc(9, 0))];
    let inputs2 = vec![PointerInput {
        pointer_id: pid,
        location: loc(9, 0),
        action: PointerAction::Pressed {
            direction: PressDirection::Up,
            button: PointerButton::Primary,
        },
    }];
    let out2 = pointer_events(&inputs2, &locs2, &hover_t, &hover_e, &mut state, 130);
    assert_eq!(
        out2,
        vec![
            // E loses hover while dragged
            env(E, P, loc(9, 0), PointerEvent::Out(Out { hit: e_hit })),
            env(
                E,
                P,
                loc(9, 0),
                PointerEvent::DragLeave(DragLeave {
                    button: PointerButton::Primary,
                    dragged: Entity { id: E },
                    hit: e_hit
                })
            ),
            // T gains hover under the active drag
            env(
                T,
                P,
                loc(9, 0),
                PointerEvent::DragEnter(DragEnter {
                    button: PointerButton::Primary,
                    dragged: Entity { id: E },
                    hit: t_hit
                })
            ),
            env(T, P, loc(9, 0), PointerEvent::Over(Over { hit: t_hit })),
            // the release targets last frame's hover: E was pressed there
            env(
                E,
                P,
                loc(9, 0),
                PointerEvent::Click(Click {
                    button: PointerButton::Primary,
                    hit: e_hit,
                    duration: 30
                })
            ),
            env(E, P, loc(9, 0), PointerEvent::Up(Up { button: PointerButton::Primary, hit: e_hit })),
            // the drop sequence: DragDrop to T, DragEnd to E, DragLeave to T
            env(
                T,
                P,
                loc(9, 0),
                PointerEvent::DragDrop(DragDrop {
                    button: PointerButton::Primary,
                    dropped: Entity { id: E },
                    hit: t_hit
                })
            ),
            env(
                E,
                P,
                loc(9, 0),
                PointerEvent::DragEnd(DragEnd {
                    button: PointerButton::Primary,
                    distance: v(5, 0)
                })
            ),
            env(
                T,
                P,
                loc(9, 0),
                PointerEvent::DragLeave(DragLeave {
                    button: PointerButton::Primary,
                    dragged: Entity { id: E },
                    hit: t_hit
                })
            ),
        ]
    );
}

#[test]
fn hover_shift_emits_out_then_over() {
    // moving from one entity to another: Out to the old, Over to the new,
    // and never both to the same entity
    let prev = hover(&[(P, &[(E, 3)])]);
    let cur = hover(&[(P, &[(T, 4)])]);
    let locs = vec![(PointerId { id: P }, loc(1, 1))];
    let mut state = PointerState::new();
    let out = pointer_events(&vec![], &locs, &cur, &prev, &mut state, 0);
    assert_eq!(
        out,
        vec![
            env(E, P, loc(1, 1), PointerEvent::Out(Out { hit: HitData { data: 3 } })),
            env(T, P, loc(1, 1), PointerEvent::Over(Over { hit: HitData { data: 4 } })),
        ]
    );
}

#[test]
fn unresolvable_location_skips_pointer() {
    // the only soft failure: the pointer's location cannot be resolved, so
    // its hover transition is skipped and the cycle still completes
    let prev = hover(&[(P, &[(E, 3)])]);
    let cur = hover(&[]);
    let locs: Vec<(PointerId, Location)> = vec![];
    let mut state = PointerState::new();
    let out = pointer_events(&vec![], &locs, &cur, &prev, &mut state, 0);
    assert_eq!(out, vec![]);
}

#[test]
fn cancel_emits_and_clears() {
    let prev = hover(&[(P, &[(E, 3)])]);
    let cur = hover(&[(P, &[(E, 3)])]);
    let locs = vec![(PointerId { id: P }, loc(0, 0))];
    let pid = PointerId { id: P };
    let mut state = PointerState::new();
    let inputs = vec![
        PointerInput {
            pointer_id: pid,
            location: loc(0, 0),
            action: PointerAction::Pressed {
                direction: PressDirection::Down,
                button: PointerButton::Primary,
            },
        },
        PointerInput {
            pointer_id: pid,
            location: loc(0, 0),
            action: PointerAction::Canceled,
        },
    ];
    let out = pointer_events(&inputs, &locs, &cur, &prev, &mut state, 0);
    let hit = HitData { data: 3 };
    assert_eq!(
        out,
        vec![
            env(E, P, loc(0, 0), PointerEvent::Down(Down { button: PointerButton::Primary, hit })),
            env(E, P, loc(0, 0), PointerEvent::Cancel(Cancel { hit })),
        ]
    );
    // the store for the canceled pointer is fully cleared
    let st = state.get(pid, PointerButton::Primary).unwrap();
    assert!(st.pressing.is_empty());
    assert!(st.dragging.is_empty());
    assert!(st.dragging_over.is_empty());
}

#[test]
fn actions_after_cancel_are_dropped() {
    // once a pointer is canceled, its remaining actions of the cycle emit
    // nothing: a press arriving after the cancellation is ignored
    let prev = hover(&[(P, &[(E, 3)])]);
    let cur = hover(&[(P, &[(E, 3)])]);
    let locs = vec![(PointerId { id: P }, loc(0, 0))];
    let pid = PointerId { id: P };
    let mut state = PointerState::new();
    let inputs = vec![
        PointerInput {
            pointer_id: pid,
            location: loc(0, 0),
            action: PointerAction::Canceled,
        },
        PointerInput {
            pointer_id: pid,
            location: loc(0, 0),
            action: PointerAction::Pressed {
                direction: PressDirection::Down,
                button: PointerButton::Primary,
            },
        },
    ];
    let out = pointer_events(&inputs, &locs, &cur, &prev, &mut state, 0);
    assert_eq!(
        out,
        vec![env(E, P, loc(0, 0), PointerEvent::Cancel(Cancel { hit: HitData { data: 3 } }))]
    );
    // the dropped press left no record behind: the store is still idle
    assert!(state.get(pid, PointerButton::Primary).is_none());
}

#[test]
fn click_duration_spans_cycles() {
    // pressed in one cycle, released three hundred ticks later
    let pid = PointerId { id: P };
    let hover_e = hover(&[(P, &[(E, 3)])]);
    let locs = vec![(pid, loc(0, 0))];
    let mut state = PointerState::new();
    let press = vec![PointerInput {
        pointer_id: pid,
        location: loc(0, 0),
        action: PointerAction::Pressed {
            direction: PressDirection::Down,
            button: PointerButton::Secondary,
        },
    }];
    pointer_events(&press, &locs, &hover_e, &hover_e, &mut state, 1000);
    let release = vec![PointerInput {
        pointer_id: pid,
        location: loc(0, 0),
        action: PointerAction::Pressed {
            direction: PressDirection::Up,
            button: PointerButton::Secondary,
        },
    }];
    let out = pointer_events(&release, &locs, &hover_e, &hover_e, &mut state, 1300);
    let hit = HitData { data: 3 };
    assert_eq!(
        out,
        vec![
            env(
                E,
                P,
                loc(0, 0),
                PointerEvent::Click(Click {
                    button: PointerButton::Secondary,
                    hit,
                    duration: 300
                })
            ),
            env(E, P, loc(0, 0), PointerEvent::Up(Up { button: PointerButton::Secondary, hit })),
        ]
    );
}

#[test]
fn drag_start_not_repeated() {
    // a third move action: the entity is already dragged, no new DragStart
    let prev = hover(&[(P, &[(E, 3)])]);
    let cur = hover(&[(P, &[(E, 3)])]);
    let locs = vec![(PointerId { id: P }, loc(3, 0))];
    let pid = PointerId { id: P };
    let mut state = PointerState::new();
    let mk_move = |x: i64| PointerInput {
        pointer_id: pid,
        location: loc(x, 0),
        action: PointerAction::Moved { delta: v(1, 0) },
    };
    let inputs = vec![
        PointerInput {
            pointer_id: pid,
            location: loc(0, 0),
            action: PointerAction::Pressed {
                direction: PressDirection::Down,
                button: PointerButton::Primary,
            },
        },
        mk_move(1),
        mk_move(2),
        mk_move(3),
    ];
    let out = pointer_events(&inputs, &locs, &cur, &prev, &mut state, 0);
    let starts = out
        .iter()
        .filter(|ev| matches!(ev.event, PointerEvent::DragStart(_)))
        .count();
    assert_eq!(starts, 1);
    let drags: Vec<&Pointer<PointerEvent>> = out
        .iter()
        .filter(|ev| matches!(ev.event, PointerEvent::Drag(_)))
        .collect();
    // the move that started the drag is suppressed; the two later moves drag
    assert_eq!(drags.len(), 2);
    assert_eq!(
        drags[1].event,
        PointerEvent::Drag(Drag {
            button: PointerButton::Primary,
            distance: v(3, 0),
            delta: v(1, 0)
        })
    );
}

#[test]
fn two_pointers_processed_in_snapshot_order() {
    // both pointers change hover in one cycle: all loss first, in snapshot
    // order, then all gain, in snapshot order
    let q: u64 = 8;
    let prev = hover(&[(P, &[(E, 3)]), (q, &[(T, 4)])]);
    let cur = hover(&[(P, &[(T, 5)]), (q, &[(E, 6)])]);
    let locs = vec![(PointerId { id: P }, loc(0, 0)), (PointerId { id: q }, loc(1, 0))];
    let mut state = PointerState::new();
    let out = pointer_events(&vec![], &locs, &cur, &prev, &mut state, 0);
    assert_eq!(
        out,
        vec![
            env(E, P, loc(0, 0), PointerEvent::Out(Out { hit: HitData { data: 3 } })),
            env(T, q, loc(1, 0), PointerEvent::Out(Out { hit: HitData { data: 4 } })),
            env(T, P, loc(0, 0), PointerEvent::Over(Over { hit: HitData { data: 5 } })),
            env(E, q, loc(1, 0), PointerEvent::Over(Over { hit: HitData { data: 6 } })),
        ]
    );
}

#[test]
fn drag_over_other_hovered_entity() {
    // while E is dragged and T is hovered too, a move emits DragOver to T
    let both = hover(&[(P, &[(E, 3), (T, 4)])]);
    let locs = vec![(PointerId { id: P }, loc(2, 0))];
    let pid = PointerId { id: P };
    let mut state = PointerState::new();
    let inputs = vec![
        PointerInput {
            pointer_id: pid,
            location: loc(0, 0),
            action: PointerAction::Pressed {
                direction: PressDirection::Down,
                button: PointerButton::Primary,
            },
        },
        PointerInput {
            pointer_id: pid,
            location: loc(1, 0),
            action: PointerAction::Moved { delta: v(1, 0) },
        },
        PointerInput {
            pointer_id: pid,
            location: loc(2, 0),
            action: PointerAction::Moved { delta: v(1, 0) },
        },
    ];
    let out = pointer_events(&inputs, &locs, &both, &both, &mut state, 0);
    // both hovered entities are pressed, so both start dragging; the second
    // move emits DragOver to the respective other entity
    let overs: Vec<(u64, u64)> = out
        .iter()
        .filter_map(|ev| match ev.event {
            PointerEvent::DragOver(d) => Some((d.dragged.id, ev.target.id)),
            _ => None,
        })
        .collect();
    assert_eq!(overs, vec![(E, T), (T, E)]);
}
