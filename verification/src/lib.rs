//! A stateful pointer-interaction dispatcher.
//!
//! Given two per-frame hover snapshots (current and previous), a table of
//! pointer locations, and an ordered stream of raw pointer actions (move,
//! press, release, cancel), one dispatch cycle derives a strictly ordered
//! sequence of higher-level interaction events (hover enter/exit, click,
//! drag lifecycle, drag-and-drop) and updates the per-(pointer, button)
//! state store that carries presses and drags across frames.
//!
//! The dispatcher is a pure, synchronous fold over already-collected
//! inputs: hit testing, event delivery (broadcast channels and ancestor
//! bubbling) and the clock are external collaborators that hand plain
//! values in and take plain values out.

#![verifier::loop_isolation(false)]

pub mod pointer;
pub mod events;
pub mod alist;
pub mod state;
pub mod hover;
pub mod model;
pub mod dispatch;
pub mod laws;
