//! The interaction state store: per (pointer, button) records of pressed,
//! dragged and drag-hovered entities. This is the only state that outlives
//! a dispatch cycle.

use vstd::prelude::*;
use crate::alist::copy_vec;
use crate::pointer::{Entity, HitData, Location, PointerButton, PointerId, Vec2, vec2_ok};

verus! {

/// What is remembered about one pressed entity: where and when the press
/// happened, and the intersection it hit.
#[derive(Clone, Copy, PartialEq, Eq, Structural, Debug)]
pub struct PressEntry {
    pub location: Location,
    pub time: u64,
    pub hit: HitData,
}

/// Position bookkeeping for one dragged entity; the drag's total distance
/// is `latest_pos - start_pos`.
#[derive(Clone, Copy, PartialEq, Eq, Structural, Debug)]
pub struct DragEntry {
    pub start_pos: Vec2,
    pub latest_pos: Vec2,
}

/// The record for one (pointer, button) pair. Iteration order of each list
/// is its insertion order, and decides the order of emitted events.
#[derive(Clone, Debug)]
pub struct PointerButtonState {
    /// Press location, press time and hit for each entity currently pressed.
    pub pressing: Vec<(Entity, PressEntry)>,
    /// Start and latest position for each entity currently dragged.
    pub dragging: Vec<(Entity, DragEntry)>,
    /// Hit data for each entity currently dragged over.
    pub dragging_over: Vec<(Entity, HitData)>,
}

/// The mathematical value of a `PointerButtonState`.
#[verifier::ext_equal]
pub struct BState {
    pub pressing: Seq<(Entity, PressEntry)>,
    pub dragging: Seq<(Entity, DragEntry)>,
    pub dragging_over: Seq<(Entity, HitData)>,
}

pub open spec fn empty_bstate() -> BState {
    BState { pressing: Seq::empty(), dragging: Seq::empty(), dragging_over: Seq::empty() }
}

impl View for PointerButtonState {
    type V = BState;

    open spec fn view(&self) -> BState {
        BState { pressing: self.pressing@, dragging: self.dragging@, dragging_over: self.dragging_over@ }
    }
}

impl PointerButtonState {
    /// An idle record: nothing pressed, dragged or dragged over.
    pub fn new() -> (r: PointerButtonState)
        ensures
            r@ == empty_bstate(),
    {
        let r = PointerButtonState { pressing: Vec::new(), dragging: Vec::new(), dragging_over: Vec::new() };
        proof {
            assert(r@ =~= empty_bstate());
        }
        r
    }

    /// An element-by-element copy.
    pub fn duplicate(&self) -> (r: PointerButtonState)
        ensures
            r@ == self@,
    {
        PointerButtonState {
            pressing: copy_vec(&self.pressing),
            dragging: copy_vec(&self.dragging),
            dragging_over: copy_vec(&self.dragging_over),
        }
    }
}

/// The mathematical value of the whole store: a finite map from
/// (pointer, button) to the record's value. A pair outside the map's
/// domain reads as the idle record.
#[verifier::ext_equal]
pub struct SModel {
    pub m: Map<(PointerId, PointerButton), BState>,
}

impl SModel {
    /// Total read: absent pairs are idle.
    pub open spec fn at(self, pid: PointerId, b: PointerButton) -> BState {
        if self.m.dom().contains((pid, b)) {
            self.m[(pid, b)]
        } else {
            empty_bstate()
        }
    }

    pub open spec fn upd(self, pid: PointerId, b: PointerButton, bs: BState) -> SModel {
        SModel { m: self.m.insert((pid, b), bs) }
    }
}

/// Clear one (pointer, button) record if it exists; an absent record stays
/// absent (it already reads as idle).
pub open spec fn clear_one(st: SModel, pid: PointerId, b: PointerButton) -> SModel {
    if st.m.dom().contains((pid, b)) {
        st.upd(pid, b, empty_bstate())
    } else {
        st
    }
}

/// Clear every button of one pointer.
pub open spec fn clear_pointer(st: SModel, pid: PointerId) -> SModel {
    clear_one(
        clear_one(clear_one(st, pid, PointerButton::Primary), pid, PointerButton::Secondary),
        pid,
        PointerButton::Middle,
    )
}

/// Every remembered press is on the bounded grid and not newer than `now`.
pub open spec fn pressing_ok(s: Seq<(Entity, PressEntry)>, now: u64) -> bool {
    forall|i: int|
        0 <= i < s.len() ==> vec2_ok((#[trigger] s[i]).1.location.position) && s[i].1.time <= now
}

/// Every remembered drag position is on the bounded grid.
pub open spec fn dragging_ok(s: Seq<(Entity, DragEntry)>) -> bool {
    forall|i: int|
        0 <= i < s.len() ==> vec2_ok((#[trigger] s[i]).1.start_pos) && vec2_ok(s[i].1.latest_pos)
}

pub open spec fn bstate_ok(bs: BState, now: u64) -> bool {
    &&& pressing_ok(bs.pressing, now)
    &&& dragging_ok(bs.dragging)
}

/// Every record of the store is well formed.
pub open spec fn state_ok(st: SModel, now: u64) -> bool {
    forall|pid: PointerId, b: PointerButton| bstate_ok(#[trigger] st.at(pid, b), now)
}

/// Writing one well-formed record keeps the store well formed.
pub proof fn lemma_state_ok_upd(st: SModel, pid: PointerId, b: PointerButton, bs: BState, now: u64)
    requires
        state_ok(st, now),
        bstate_ok(bs, now),
    ensures
        state_ok(st.upd(pid, b, bs), now),
{
    assert forall|p2: PointerId, b2: PointerButton|
        bstate_ok(#[trigger] st.upd(pid, b, bs).at(p2, b2), now) by {
        if p2 == pid && b2 == b {
        } else {
            assert(st.upd(pid, b, bs).at(p2, b2) == st.at(p2, b2));
        }
    }
}

/// Clearing a pointer keeps the store well formed.
pub proof fn lemma_state_ok_clear(st: SModel, pid: PointerId, now: u64)
    requires
        state_ok(st, now),
    ensures
        state_ok(clear_pointer(st, pid), now),
{
    assert(bstate_ok(empty_bstate(), now));
    let s1 = clear_one(st, pid, PointerButton::Primary);
    let s2 = clear_one(s1, pid, PointerButton::Secondary);
    if st.m.dom().contains((pid, PointerButton::Primary)) {
        lemma_state_ok_upd(st, pid, PointerButton::Primary, empty_bstate(), now);
    }
    if s1.m.dom().contains((pid, PointerButton::Secondary)) {
        lemma_state_ok_upd(s1, pid, PointerButton::Secondary, empty_bstate(), now);
    }
    if s2.m.dom().contains((pid, PointerButton::Middle)) {
        lemma_state_ok_upd(s2, pid, PointerButton::Middle, empty_bstate(), now);
    }
}

/// Well-formedness survives the clock moving forward.
pub proof fn lemma_state_ok_mono(st: SModel, n1: u64, n2: u64)
    requires
        state_ok(st, n1),
        n1 <= n2,
    ensures
        state_ok(st, n2),
{
    assert forall|pid: PointerId, b: PointerButton| bstate_ok(#[trigger] st.at(pid, b), n2) by {
        let bs = st.at(pid, b);
        assert(bstate_ok(bs, n1));
        assert forall|i: int|
            0 <= i < bs.pressing.len() implies vec2_ok(
            (#[trigger] bs.pressing[i]).1.location.position,
        ) && bs.pressing[i].1.time <= n2 by {
            assert(vec2_ok(bs.pressing[i].1.location.position) && bs.pressing[i].1.time <= n1);
        }
        assert(pressing_ok(bs.pressing, n2));
    }
}

/// The map value of a vector of (pointer, button, record) entries; lookup
/// goes to the first entry with a given key.
pub open spec fn smodel_of(entries: Seq<(PointerId, PointerButton, PointerButtonState)>) -> SModel
    decreases entries.len(),
{
    if entries.len() == 0 {
        SModel { m: Map::empty() }
    } else {
        let rest = smodel_of(entries.drop_first());
        SModel { m: rest.m.insert((entries[0].0, entries[0].1), entries[0].2@) }
    }
}

/// `i` is the index of the first entry for (pid, b).
pub open spec fn ps_first_match(
    s: Seq<(PointerId, PointerButton, PointerButtonState)>,
    pid: PointerId,
    b: PointerButton,
    i: int,
) -> bool {
    &&& 0 <= i < s.len()
    &&& s[i].0 == pid && s[i].1 == b
    &&& forall|j: int| 0 <= j < i ==> !(s[j].0 == pid && s[j].1 == b)
}

pub open spec fn ps_no_match(
    s: Seq<(PointerId, PointerButton, PointerButtonState)>,
    pid: PointerId,
    b: PointerButton,
) -> bool {
    forall|j: int| 0 <= j < s.len() ==> !(s[j].0 == pid && s[j].1 == b)
}

proof fn lemma_smodel_at_first_match(
    s: Seq<(PointerId, PointerButton, PointerButtonState)>,
    pid: PointerId,
    b: PointerButton,
    i: int,
)
    requires
        ps_first_match(s, pid, b, i),
    ensures
        smodel_of(s).m.dom().contains((pid, b)),
        smodel_of(s).m[(pid, b)] == s[i].2@,
    decreases i,
{
    if i == 0 {
    } else {
        assert(ps_first_match(s.drop_first(), pid, b, i - 1));
        lemma_smodel_at_first_match(s.drop_first(), pid, b, i - 1);
        assert(!(s[0].0 == pid && s[0].1 == b));
    }
}

proof fn lemma_smodel_no_match(
    s: Seq<(PointerId, PointerButton, PointerButtonState)>,
    pid: PointerId,
    b: PointerButton,
)
    requires
        ps_no_match(s, pid, b),
    ensures
        !smodel_of(s).m.dom().contains((pid, b)),
    decreases s.len(),
{
    if s.len() > 0 {
        assert(ps_no_match(s.drop_first(), pid, b));
        lemma_smodel_no_match(s.drop_first(), pid, b);
    }
}

proof fn lemma_smodel_update(
    s: Seq<(PointerId, PointerButton, PointerButtonState)>,
    pid: PointerId,
    b: PointerButton,
    i: int,
    st: PointerButtonState,
)
    requires
        ps_first_match(s, pid, b, i),
    ensures
        smodel_of(s.update(i, (pid, b, st))).m =~= smodel_of(s).m.insert((pid, b), st@),
    decreases i,
{
    let s2 = s.update(i, (pid, b, st));
    if i == 0 {
        assert(s2.drop_first() =~= s.drop_first());
        assert(s2[0] == (pid, b, st));
    } else {
        assert(ps_first_match(s.drop_first(), pid, b, i - 1));
        lemma_smodel_update(s.drop_first(), pid, b, i - 1, st);
        assert(s2.drop_first() =~= s.drop_first().update(i - 1, (pid, b, st)));
        assert(s2[0] == s[0]);
        assert(!(s[0].0 == pid && s[0].1 == b));
        assert(smodel_of(s2).m =~= smodel_of(s.drop_first().update(i - 1, (pid, b, st))).m.insert(
            (s[0].0, s[0].1),
            s[0].2@,
        ));
    }
}

proof fn lemma_smodel_push(
    s: Seq<(PointerId, PointerButton, PointerButtonState)>,
    pid: PointerId,
    b: PointerButton,
    st: PointerButtonState,
)
    requires
        ps_no_match(s, pid, b),
    ensures
        smodel_of(s.push((pid, b, st))).m =~= smodel_of(s).m.insert((pid, b), st@),
    decreases s.len(),
{
    let s2 = s.push((pid, b, st));
    assert(s2.len() > 0);
    assert(smodel_of(s2).m == smodel_of(s2.drop_first()).m.insert((s2[0].0, s2[0].1), s2[0].2@));
    if s.len() == 0 {
        assert(s2.drop_first() =~= Seq::<(PointerId, PointerButton, PointerButtonState)>::empty());
        assert(s2[0] == (pid, b, st));
        assert(smodel_of(s2.drop_first()).m =~= Map::<(PointerId, PointerButton), BState>::empty());
        assert(smodel_of(s).m =~= Map::<(PointerId, PointerButton), BState>::empty());
    } else {
        assert(ps_no_match(s.drop_first(), pid, b));
        lemma_smodel_push(s.drop_first(), pid, b, st);
        assert(s2.drop_first() =~= s.drop_first().push((pid, b, st)));
        assert(s2[0] == s[0]);
        assert(!(s[0].0 == pid && s[0].1 == b));
        assert(smodel_of(s).m == smodel_of(s.drop_first()).m.insert((s[0].0, s[0].1), s[0].2@));
    }
}

/// State for all pointers: pressing and dragging records, organized by
/// pointer and button, lazily populated on first write.
#[derive(Clone, Debug)]
pub struct PointerState {
    pub pointer_buttons: Vec<(PointerId, PointerButton, PointerButtonState)>,
}

impl View for PointerState {
    type V = SModel;

    open spec fn view(&self) -> SModel {
        smodel_of(self.pointer_buttons@)
    }
}

impl PointerState {
    /// A store with no records.
    pub fn new() -> (r: PointerState)
        ensures
            r@ == (SModel { m: Map::empty() }),
    {
        PointerState { pointer_buttons: Vec::new() }
    }

    fn find(&self, pid: PointerId, b: PointerButton) -> (r: Option<usize>)
        ensures
            match r {
                Some(i) => ps_first_match(self.pointer_buttons@, pid, b, i as int),
                None => ps_no_match(self.pointer_buttons@, pid, b),
            },
    {
        let n = self.pointer_buttons.len();
        for i in 0..n
            invariant
                n == self.pointer_buttons@.len(),
                forall|j: int|
                    0 <= j < i ==> !(self.pointer_buttons@[j].0 == pid
                        && self.pointer_buttons@[j].1 == b),
        {
            if self.pointer_buttons[i].0 == pid && self.pointer_buttons[i].1 == b {
                return Some(i);
            }
        }
        None
    }

    /// The record for (pid, b), if it has been created.
    pub fn get(&self, pointer_id: PointerId, button: PointerButton) -> (r: Option<
        PointerButtonState,
    >)
        ensures
            match r {
                Some(st) => self@.m.dom().contains((pointer_id, button)) && st@ == self@.at(
                    pointer_id,
                    button,
                ),
                None => !self@.m.dom().contains((pointer_id, button)),
            },
    {
        match self.find(pointer_id, button) {
            Some(i) => {
                proof {
                    lemma_smodel_at_first_match(self.pointer_buttons@, pointer_id, button, i as int);
                }
                Some(self.pointer_buttons[i].2.duplicate())
            },
            None => {
                proof {
                    lemma_smodel_no_match(self.pointer_buttons@, pointer_id, button);
                }
                None
            },
        }
    }

    /// The record for (pid, b), or the idle record if none was created.
    pub(crate) fn get_state(&self, pointer_id: PointerId, button: PointerButton) -> (r: PointerButtonState)
        ensures
            r@ == self@.at(pointer_id, button),
    {
        match self.find(pointer_id, button) {
            Some(i) => {
                proof {
                    lemma_smodel_at_first_match(self.pointer_buttons@, pointer_id, button, i as int);
                }
                self.pointer_buttons[i].2.duplicate()
            },
            None => {
                proof {
                    lemma_smodel_no_match(self.pointer_buttons@, pointer_id, button);
                }
                PointerButtonState::new()
            },
        }
    }

    /// Write access to the record for (pid, b), creating it if it does not
    /// yet exist.
    pub fn get_mut(&mut self, pointer_id: PointerId, button: PointerButton) -> (r: &mut PointerButtonState)
        ensures
            (*r)@ == old(self)@.at(pointer_id, button),
            final(self)@ == old(self)@.upd(pointer_id, button, final(r)@),
    {
        let ghost st0 = self@;
        let idx: usize;
        match self.find(pointer_id, button) {
            Some(i) => {
                proof {
                    lemma_smodel_at_first_match(self.pointer_buttons@, pointer_id, button, i as int);
                }
                idx = i;
            },
            None => {
                let empty = PointerButtonState::new();
                proof {
                    lemma_smodel_no_match(self.pointer_buttons@, pointer_id, button);
                    lemma_smodel_push(self.pointer_buttons@, pointer_id, button, empty);
                    assert forall|st: PointerButtonState|
                        st0.m.insert((pointer_id, button), empty@).insert(
                            (pointer_id, button),
                            st@,
                        ) =~= st0.m.insert((pointer_id, button), st@) by {}
                }
                idx = self.pointer_buttons.len();
                self.pointer_buttons.push((pointer_id, button, empty));
            },
        }
        proof {
            assert(ps_first_match(self.pointer_buttons@, pointer_id, button, idx as int));
            lemma_smodel_at_first_match(self.pointer_buttons@, pointer_id, button, idx as int);
            let snapshot = self.pointer_buttons@;
            assert forall|st: PointerButtonState|
                smodel_of(#[trigger] snapshot.update(idx as int, (pointer_id, button, st))).m
                    =~= smodel_of(snapshot).m.insert((pointer_id, button), st@) by {
                lemma_smodel_update(snapshot, pointer_id, button, idx as int, st);
            }
        }
        &mut self.pointer_buttons[idx].2
    }

    /// Write the record for (pid, b), creating it if it does not yet exist.
    pub(crate) fn set_state(&mut self, pointer_id: PointerId, button: PointerButton, st: PointerButtonState)
        ensures
            final(self)@ == old(self)@.upd(pointer_id, button, st@),
    {
        match self.find(pointer_id, button) {
            Some(i) => {
                proof {
                    lemma_smodel_update(self.pointer_buttons@, pointer_id, button, i as int, st);
                }
                self.pointer_buttons[i] = (pointer_id, button, st);
            },
            None => {
                proof {
                    lemma_smodel_push(self.pointer_buttons@, pointer_id, button, st);
                }
                self.pointer_buttons.push((pointer_id, button, st));
            },
        }
    }

    fn clear_button(&mut self, pointer_id: PointerId, button: PointerButton)
        ensures
            final(self)@ == clear_one(old(self)@, pointer_id, button),
    {
        match self.find(pointer_id, button) {
            Some(i) => {
                let empty = PointerButtonState::new();
                proof {
                    lemma_smodel_at_first_match(self.pointer_buttons@, pointer_id, button, i as int);
                    lemma_smodel_update(self.pointer_buttons@, pointer_id, button, i as int, empty);
                }
                self.pointer_buttons[i] = (pointer_id, button, empty);
            },
            None => {
                proof {
                    lemma_smodel_no_match(self.pointer_buttons@, pointer_id, button);
                }
            },
        }
    }

    /// Empty `pressing`, `dragging` and `dragging_over` for every button of
    /// one pointer, keeping the records themselves. Used on cancellation.
    pub fn clear(&mut self, pointer_id: PointerId)
        ensures
            final(self)@ == clear_pointer(old(self)@, pointer_id),
    {
        self.clear_button(pointer_id, PointerButton::Primary);
        self.clear_button(pointer_id, PointerButton::Secondary);
        self.clear_button(pointer_id, PointerButton::Middle);
    }
}

} // verus!
