use vstd::prelude::*;

use crate::cell::CellPos;
use crate::voxel_data::VoxelData;

verus! {

/// One call made to an outside mirror.
pub enum RegEvent {
    /// A leaf was created and received this handle for this cube and data.
    Registered { id: u32, cell: CellPos, data: VoxelData },
    /// The leaf holding this handle was destroyed.
    Deregistered { id: u32 },
}

/// The registrations in a sequence of calls, in order.
pub open spec fn registrations(evs: Seq<RegEvent>) -> Seq<(u32, CellPos, VoxelData)>
    decreases evs.len(),
{
    if evs.len() == 0 {
        Seq::empty()
    } else {
        let before = registrations(evs.drop_last());
        match evs.last() {
            RegEvent::Registered { id, cell, data } => before.push((id, cell, data)),
            RegEvent::Deregistered { .. } => before,
        }
    }
}

/// The handles given back in a sequence of calls, in order.
pub open spec fn deregistrations(evs: Seq<RegEvent>) -> Seq<u32>
    decreases evs.len(),
{
    if evs.len() == 0 {
        Seq::empty()
    } else {
        let before = deregistrations(evs.drop_last());
        match evs.last() {
            RegEvent::Registered { .. } => before,
            RegEvent::Deregistered { id } => before.push(id),
        }
    }
}

pub broadcast proof fn lemma_record_register(evs: Seq<RegEvent>, id: u32, cell: CellPos, data: VoxelData)
    ensures
        #[trigger] registrations(evs.push(RegEvent::Registered { id, cell, data })) == registrations(evs).push(
            (id, cell, data),
        ),
{
    assert(evs.push(RegEvent::Registered { id, cell, data }).drop_last() =~= evs);
}

pub broadcast proof fn lemma_record_register_keeps(evs: Seq<RegEvent>, id: u32, cell: CellPos, data: VoxelData)
    ensures
        #[trigger] deregistrations(evs.push(RegEvent::Registered { id, cell, data })) == deregistrations(evs),
{
    assert(evs.push(RegEvent::Registered { id, cell, data }).drop_last() =~= evs);
}

pub broadcast proof fn lemma_record_deregister(evs: Seq<RegEvent>, id: u32)
    ensures
        #[trigger] deregistrations(evs.push(RegEvent::Deregistered { id })) == deregistrations(evs).push(id),
{
    assert(evs.push(RegEvent::Deregistered { id }).drop_last() =~= evs);
}

pub broadcast proof fn lemma_record_deregister_keeps(evs: Seq<RegEvent>, id: u32)
    ensures
        #[trigger] registrations(evs.push(RegEvent::Deregistered { id })) == registrations(evs),
{
    assert(evs.push(RegEvent::Deregistered { id }).drop_last() =~= evs);
}

/// How each call extends the two projections of a record.
pub broadcast group group_record {
    lemma_record_register,
    lemma_record_register_keeps,
    lemma_record_deregister,
    lemma_record_deregister_keeps,
}

/// The calls that give back each of `hs`, in order.
pub open spec fn give_backs(hs: Seq<u32>) -> Seq<RegEvent> {
    hs.map_values(|h: u32| RegEvent::Deregistered { id: h })
}

/// The ordered record of the calls made to an outside mirror, shared by
/// registration and deregistration so that their order is kept.
pub trait RegistrationLog {
    /// Every call so far, in order. Every implementation in this crate
    /// defines it, and Verus holds `register` and `deregister` to it. The
    /// default only lets a host's own callbacks, which Verus does not check,
    /// compile; nothing proved about the record holds for such an
    /// implementation.
    open spec fn events(&self) -> Seq<RegEvent> {
        Seq::empty()
    }

    /// What the implementation keeps true between calls (for instance, how
    /// the handles it has handed out follow one another).
    open spec fn wf(&self) -> bool {
        true
    }
}

/// Tells an outside mirror that a leaf was created, and returns the handle
/// that the leaf keeps until it is destroyed.
pub trait Register: RegistrationLog {
    fn register(&mut self, cell: CellPos, data: VoxelData) -> (id: u32)
        requires
            old(self).wf(),
        ensures
            final(self).wf(),
            final(self).events() == old(self).events().push(RegEvent::Registered { id, cell, data }),
    ;
}

/// Tells an outside mirror that the leaf holding a handle was destroyed.
pub trait Deregister: RegistrationLog {
    fn deregister(&mut self, id: u32)
        requires
            old(self).wf(),
        ensures
            final(self).wf(),
            final(self).events() == old(self).events().push(RegEvent::Deregistered { id }),
    ;
}

/// The handles in a registration record, in order.
pub open spec fn ids_of(s: Seq<(u32, CellPos, VoxelData)>) -> Seq<u32> {
    s.map_values(|e: (u32, CellPos, VoxelData)| e.0)
}

/// A registration pair for use without any outside mirror: every handle is
/// `0` and nothing is kept but a ghost record.
pub struct NoRegistration {
    pub log: Ghost<Seq<RegEvent>>,
}

impl NoRegistration {
    pub fn new() -> (r: NoRegistration)
        ensures
            r.events() == Seq::<RegEvent>::empty(),
    {
        NoRegistration { log: Ghost(Seq::empty()) }
    }
}

impl RegistrationLog for NoRegistration {
    open spec fn events(&self) -> Seq<RegEvent> {
        self.log@
    }
}

impl Register for NoRegistration {
    fn register(&mut self, cell: CellPos, data: VoxelData) -> (id: u32)
        ensures
            id == 0,
    {
        self.log = Ghost(self.log@.push(RegEvent::Registered { id: 0, cell, data }));
        0
    }
}

impl Deregister for NoRegistration {
    fn deregister(&mut self, id: u32) {
        self.log = Ghost(self.log@.push(RegEvent::Deregistered { id }));
    }
}

/// Hands out the handles `0, 1, 2, ...` in turn (wrapping after `u32::MAX`)
/// and keeps every handle given back.
pub struct SequentialIds {
    pub next: u32,
    pub ids: Vec<u32>,
    pub log: Ghost<Seq<RegEvent>>,
}

/// The number of handles a `u32` can tell apart.
pub open spec fn handle_space() -> int {
    0x1_0000_0000
}

impl SequentialIds {
    pub fn new() -> (r: SequentialIds)
        ensures
            r.next == 0,
            r.ids@ == Seq::<u32>::empty(),
            r.events() == Seq::<RegEvent>::empty(),
            r.wf(),
    {
        SequentialIds { next: 0, ids: Vec::new(), log: Ghost(Seq::empty()) }
    }
}

impl RegistrationLog for SequentialIds {
    open spec fn events(&self) -> Seq<RegEvent> {
        self.log@
    }

    /// The `k`-th registration received the handle `k` (modulo `2^32`), the
    /// next one will receive the number of registrations so far, and `ids`
    /// holds every handle given back.
    open spec fn wf(&self) -> bool {
        &&& self.next as int == (registrations(self.log@).len() as int) % handle_space()
        &&& forall|k: int|
            0 <= k < registrations(self.log@).len() ==> (#[trigger] registrations(self.log@)[k]).0 as int == k
                % handle_space()
        &&& self.ids@ == deregistrations(self.log@)
    }
}

impl Register for SequentialIds {
    fn register(&mut self, cell: CellPos, data: VoxelData) -> (id: u32)
        ensures
            id == old(self).next,
            final(self).next as int == (old(self).next as int + 1) % handle_space(),
    {
        let id = self.next;
        self.next = self.next.wrapping_add(1);
        let ghost before = self.log@;
        self.log = Ghost(self.log@.push(RegEvent::Registered { id, cell, data }));
        proof {
            lemma_record_register(before, id, cell, data);
            lemma_record_register_keeps(before, id, cell, data);
            let n = registrations(before).len() as int;
            assert(registrations(self.log@)[n] == (id, cell, data));
            assert(forall|k: int| 0 <= k < n ==> registrations(self.log@)[k] == registrations(before)[k]);
        }
        id
    }
}

impl Deregister for SequentialIds {
    fn deregister(&mut self, id: u32) {
        let ghost before = self.log@;
        self.ids.push(id);
        self.log = Ghost(self.log@.push(RegEvent::Deregistered { id }));
        proof {
            lemma_record_deregister(before, id);
            lemma_record_deregister_keeps(before, id);
        }
    }
}

} // verus!
