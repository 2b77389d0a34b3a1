//! Per-frame hover snapshots: for each pointer, the entities it currently
//! intersects with their hit data, in the order the hit-test backend
//! produced (stable within a cycle). Two snapshots drive a cycle: the
//! current frame's and the previous frame's.

use vstd::prelude::*;
use crate::alist::{al_contains, copy_vec};
use crate::pointer::{Entity, HitData, PointerId};

verus! {

/// One frame's hover snapshot. Produced by an external hit-testing
/// backend; the dispatcher only consumes it.
#[derive(Clone, Debug)]
pub struct HoverMap {
    pub entries: Vec<(PointerId, Vec<(Entity, HitData)>)>,
}

impl View for HoverMap {
    type V = Seq<(PointerId, Vec<(Entity, HitData)>)>;

    open spec fn view(&self) -> Seq<(PointerId, Vec<(Entity, HitData)>)> {
        self.entries@
    }
}

/// The hit list of one pointer: first matching entry, or empty if the
/// snapshot has none for this pointer.
pub open spec fn hover_of(
    h: Seq<(PointerId, Vec<(Entity, HitData)>)>,
    pid: PointerId,
) -> Seq<(Entity, HitData)>
    decreases h.len(),
{
    if h.len() == 0 {
        Seq::empty()
    } else if h[0].0 == pid {
        h[0].1@
    } else {
        hover_of(h.drop_first(), pid)
    }
}

/// Whether the snapshot says `pid` hovers `e`.
pub open spec fn hover_has(
    h: Seq<(PointerId, Vec<(Entity, HitData)>)>,
    pid: PointerId,
    e: Entity,
) -> bool {
    al_contains(hover_of(h, pid), e)
}

/// A snapshot is a map of maps: pointers appear once, and an entity
/// appears once per pointer.
pub open spec fn hover_wf(h: Seq<(PointerId, Vec<(Entity, HitData)>)>) -> bool {
    &&& forall|i: int, j: int| 0 <= i < j < h.len() ==> (#[trigger] h[i]).0 != (#[trigger] h[j]).0
    &&& forall|k: int, i: int, j: int|
        0 <= k < h.len() && 0 <= i < j < h[k].1@.len() ==> (#[trigger] h[k].1@[i]).0 != (
        #[trigger] h[k].1@[j]).0
}

impl HoverMap {
    /// A snapshot with no hovered entities.
    pub fn new() -> (r: HoverMap)
        ensures
            r@ == Seq::<(PointerId, Vec<(Entity, HitData)>)>::empty(),
    {
        let r = HoverMap { entries: Vec::new() };
        proof {
            assert(r@ =~= Seq::<(PointerId, Vec<(Entity, HitData)>)>::empty());
        }
        r
    }

    /// A copy of the hit list of one pointer.
    pub fn hits_of(&self, pid: PointerId) -> (r: Vec<(Entity, HitData)>)
        ensures
            r@ == hover_of(self@, pid),
    {
        let n = self.entries.len();
        proof {
            assert(self@.skip(0) =~= self@);
        }
        for i in 0..n
            invariant
                n == self.entries@.len(),
                hover_of(self@, pid) == hover_of(self@.skip(i as int), pid),
                forall|j: int| 0 <= j < i ==> self.entries@[j].0 != pid,
        {
            proof {
                assert(self@.skip(i as int)[0] == self@[i as int]);
            }
            if self.entries[i].0 == pid {
                return copy_vec(&self.entries[i].1);
            }
            proof {
                assert(self@.skip(i as int).drop_first() =~= self@.skip(i as int + 1));
            }
        }
        proof {
            assert(self@.skip(n as int) =~= Seq::<(PointerId, Vec<(Entity, HitData)>)>::empty());
        }
        Vec::new()
    }

    /// Whether the snapshot says `pid` hovers `e`.
    pub fn contains(&self, pid: PointerId, e: Entity) -> (r: bool)
        ensures
            r == hover_has(self@, pid, e),
    {
        let hits = self.hits_of(pid);
        crate::alist::al_has(&hits, e)
    }
}

/// In a snapshot whose pointers are unique, the hit list of a pointer is
/// the hit list of its one entry.
pub proof fn lemma_hover_of_at(h: Seq<(PointerId, Vec<(Entity, HitData)>)>, pid: PointerId, i: int)
    requires
        0 <= i < h.len(),
        h[i].0 == pid,
        forall|a: int, b: int| 0 <= a < b < h.len() ==> (#[trigger] h[a]).0 != (#[trigger] h[b]).0,
    ensures
        hover_of(h, pid) == h[i].1@,
    decreases i,
{
    if h[0].0 == pid {
        assert(i == 0);
    } else {
        assert(h.drop_first()[i - 1] == h[i]);
        lemma_hover_of_at(h.drop_first(), pid, i - 1);
    }
}

} // verus!
