use vstd::prelude::*;
use vstd::multiset::Multiset;
use vstd::seq_lib::lemma_multiset_commutative;

use crate::seq_lemmas::{
    lemma_flatten_contains, lemma_flatten_unit_len, lemma_flatten_update_multiset,
    lemma_prefix_contains, lemma_prefix_push, lemma_prefix_trans,
};

use crate::cell::{is_octant_path, pow2, CellPos, MAX_DEPTH};
use crate::registration::{deregistrations, give_backs, ids_of, registrations, RegEvent, Deregister, Register, RegistrationLog};
use crate::tree::{uniform_hleaves, uniform_leaves, HTree, Tree, SVO};
use crate::voxel_data::VoxelData;

verus! {

broadcast use {vstd::std_specs::vec::group_vec_axioms, crate::registration::group_record};

/// The handles that a registration record has handed out, as a multiset.
pub open spec fn registered_ids<R: RegistrationLog>(r: R) -> Multiset<u32> {
    ids_of(registrations(r.events())).to_multiset()
}

/// The handles that a deregistration record has taken back, as a multiset.
pub open spec fn deregistered_ids<R: RegistrationLog>(d: R) -> Multiset<u32> {
    deregistrations(d.events()).to_multiset()
}

/// Handle bookkeeping across a change: the live handles before, plus those
/// registered, equal the live handles after, plus those deregistered.
/// `reg_*` and `dereg_*` are the whole records before and after.
pub open spec fn handles_accounted(
    live_before: Multiset<u32>,
    live_after: Multiset<u32>,
    reg_before: Multiset<u32>,
    reg_after: Multiset<u32>,
    dereg_before: Multiset<u32>,
    dereg_after: Multiset<u32>,
) -> bool {
    live_before.add(reg_after).add(dereg_before) =~= live_after.add(dereg_after).add(reg_before)
}

pub(crate) proof fn lemma_accounted_trans(
    h0: Multiset<u32>,
    h1: Multiset<u32>,
    h2: Multiset<u32>,
    r0: Multiset<u32>,
    r1: Multiset<u32>,
    r2: Multiset<u32>,
    d0: Multiset<u32>,
    d1: Multiset<u32>,
    d2: Multiset<u32>,
)
    requires
        handles_accounted(h0, h1, r0, r1, d0, d1),
        handles_accounted(h1, h2, r1, r2, d1, d2),
    ensures
        handles_accounted(h0, h2, r0, r2, d0, d2),
{
    assert forall|x: u32| #[trigger] h0.add(r2).add(d0).count(x) == h2.add(d2).add(r0).count(x) by {
        assert(h0.add(r1).add(d0).count(x) == h1.add(d1).add(r0).count(x));
        assert(h1.add(r2).add(d1).count(x) == h2.add(d2).add(r1).count(x));
    }
}

/// The children views of a node whose children vector is `v`.
pub(crate) open spec fn children_view(v: Seq<SVO>) -> Seq<Tree> {
    Seq::new(v.len() as nat, |i: int| v[i]@)
}

/// The handle lists of the first `n` children.
pub(crate) open spec fn children_handles(v: Seq<SVO>, n: int) -> Seq<Seq<u32>> {
    Seq::new(n as nat, |i: int| v[i].handles())
}

pub(crate) proof fn lemma_octants_view(v: Vec<SVO>)
    requires
        v.len() == 8,
    ensures
        SVO::Octants(v)@ == (Tree::Node { children: children_view(v@) }),
        SVO::Octants(v).handles() == children_handles(v@, 8).flatten(),
{
    let cs = seq![v[0]@, v[1]@, v[2]@, v[3]@, v[4]@, v[5]@, v[6]@, v[7]@];
    assert(SVO::Octants(v)@ == Tree::Node { children: cs });
    assert(cs =~= children_view(v@));
    let hs = seq![
        v[0].handles(),
        v[1].handles(),
        v[2].handles(),
        v[3].handles(),
        v[4].handles(),
        v[5].handles(),
        v[6].handles(),
        v[7].handles(),
    ];
    assert(SVO::Octants(v).handles() == hs.flatten());
    assert(hs =~= children_handles(v@, 8));
}

proof fn lemma_prefix_step(full: Seq<u8>, q: Seq<u8>)
    requires
        full.len() > 0,
        q.len() > 0,
    ensures
        full.is_prefix_of(q) <==> (full[0] == q[0] && full.drop_first().is_prefix_of(q.drop_first())),
{
    if full.is_prefix_of(q) {
        assert(full[0] == q.subrange(0, full.len() as int)[0]);
        assert(full.drop_first() =~= q.drop_first().subrange(0, full.len() - 1));
    }
    if full[0] == q[0] && full.drop_first().is_prefix_of(q.drop_first()) {
        assert forall|k: int| 0 <= k < full.len() implies full[k] == q[k] by {
            if k > 0 {
                assert(full.drop_first()[k - 1] == q.drop_first().subrange(0, full.len() - 1)[k - 1]);
            }
        }
        assert(full =~= q.subrange(0, full.len() as int));
    }
}

/// The data that all eight children share, when they are all leaves with
/// equal data.
fn combine_voxels(octants: &Vec<SVO>) -> (r: Option<VoxelData>)
    requires
        octants.len() == 8,
    ensures
        uniform_leaves(children_view(octants@)) ==> r == Some(children_view(octants@)[0]->Leaf_data),
        !uniform_leaves(children_view(octants@)) ==> r is None,
{
    let ghost cs = children_view(octants@);
    assert(cs[0] == octants@[0]@);
    let first = match octants[0].get_voxel_data() {
        Some(d) => d,
        None => {
            return None;
        },
    };
    let mut i: usize = 1;
    while i < 8
        invariant
            1 <= i <= 8,
            octants.len() == 8,
            cs == children_view(octants@),
            cs[0] == (Tree::Leaf { data: first }),
            forall|j: int| 0 <= j < i ==> #[trigger] cs[j] == cs[0],
        decreases 8 - i,
    {
        assert(cs[i as int] == octants@[i as int]@);
        match octants[i].get_voxel_data() {
            Some(d) => {
                if d != first {
                    return None;
                }
            },
            None => {
                return None;
            },
        }
        i = i + 1;
    }
    Some(first)
}

impl SVO {
    /// Deregisters every handle under this node, depth first in octant order.
    fn deregister_all<R: Deregister>(&self, reg: &mut R)
        requires
            old(reg).wf(),
            self@.wf(),
        ensures
            final(reg).wf(),
            final(reg).events() == old(reg).events() + give_backs(self.handles()),
            deregistrations(final(reg).events()) == deregistrations(old(reg).events()) + self.handles(),
            registrations(final(reg).events()) == registrations(old(reg).events()),
        decreases self@,
    {
        match self {
            SVO::Voxel { external_id, .. } => {
                reg.deregister(*external_id);
                assert(give_backs(self.handles()) =~= seq![RegEvent::Deregistered { id: *external_id }]);
                assert(reg.events() =~= old(reg).events() + give_backs(self.handles()));
            },
            SVO::Octants(v) => {
                proof {
                    lemma_octants_view(*v);
                    assert forall|j: int| 0 <= j < 8 implies (#[trigger] v@[j])@.wf() by {
                        assert(self@->children[j] == v@[j]@);
                    }
                }
                let mut i: usize = 0;
                proof {
                    assert(children_handles(v@, 0).flatten() =~= Seq::<u32>::empty());
                    assert(give_backs(Seq::<u32>::empty()) =~= Seq::<RegEvent>::empty());
                    assert(reg.events() =~= reg.events() + Seq::<RegEvent>::empty());
                    assert(deregistrations(reg.events()) =~= deregistrations(reg.events()) + Seq::<u32>::empty());
                }
                while i < v.len()
                    invariant
                        reg.wf(),
                        0 <= i <= v.len(),
                        v.len() == 8,
                        self@ == (Tree::Node { children: children_view(v@) }),
                        forall|j: int| 0 <= j < 8 ==> (#[trigger] v@[j])@.wf(),
                        deregistrations(reg.events()) == deregistrations(old(reg).events())
                            + children_handles(v@, i as int).flatten(),
                        registrations(reg.events()) == registrations(old(reg).events()),
                        reg.events() == old(reg).events() + give_backs(children_handles(v@, i as int).flatten()),
                    decreases v.len() - i,
                {
                    proof {
                        assert(children_view(v@)[i as int] == v@[i as int]@);
                        assert(decreases_to!(self@ => self@->Node_children));
                        assert(decreases_to!(self@->Node_children => self@->Node_children[i as int]));
                    }
                    v[i].deregister_all(reg);
                    proof {
                        assert(children_handles(v@, i + 1) =~= children_handles(v@, i as int).push(
                            v@[i as int].handles(),
                        ));
                        children_handles(v@, i as int).lemma_flatten_push(v@[i as int].handles());
                        let a = children_handles(v@, i as int).flatten();
                        let h = v@[i as int].handles();
                        assert(give_backs(a + h) =~= give_backs(a) + give_backs(h));
                        assert(reg.events() =~= old(reg).events() + give_backs(a + h));
                    }
                    i = i + 1;
                }
            },
        }
    }
}

/// Every leaf below `t`, whose cube is `cell`, was announced with its own
/// handle, cube and data in the registration record `log`.
pub open spec fn leaves_registered(t: SVO, cell: CellPos, log: Seq<(u32, CellPos, VoxelData)>) -> bool {
    forall|e: (u32, CellPos, VoxelData)| #[trigger] t.leaf_records(cell).contains(e) ==> log.contains(e)
}

/// The leaf records of the children of a node whose cube is `cell`.
pub(crate) open spec fn children_records(v: Seq<SVO>, cell: CellPos) -> Seq<Seq<(u32, CellPos, VoxelData)>> {
    Seq::new(8, |i: int| v[i].leaf_records(cell.child_spec(i as u8)))
}

pub(crate) proof fn lemma_octants_records(v: Vec<SVO>, cell: CellPos)
    requires
        v.len() == 8,
    ensures
        SVO::Octants(v).leaf_records(cell) == children_records(v@, cell).flatten(),
{
    let parts = seq![
        v[0].leaf_records(cell.child_spec(0)),
        v[1].leaf_records(cell.child_spec(1)),
        v[2].leaf_records(cell.child_spec(2)),
        v[3].leaf_records(cell.child_spec(3)),
        v[4].leaf_records(cell.child_spec(4)),
        v[5].leaf_records(cell.child_spec(5)),
        v[6].leaf_records(cell.child_spec(6)),
        v[7].leaf_records(cell.child_spec(7)),
    ];
    assert(SVO::Octants(v).leaf_records(cell) == parts.flatten());
    assert(parts =~= children_records(v@, cell));
}

proof fn lemma_records_step(
    v0: Seq<SVO>,
    ix: int,
    c1: SVO,
    cell: CellPos,
    log1: Seq<(u32, CellPos, VoxelData)>,
    log2: Seq<(u32, CellPos, VoxelData)>,
)
    requires
        v0.len() == 8,
        0 <= ix < 8,
        forall|e: (u32, CellPos, VoxelData)| #[trigger] children_records(v0, cell).flatten().contains(e) ==> log1.contains(e),
        log1.is_prefix_of(log2),
        leaves_registered(c1, cell.child_spec(ix as u8), log2),
    ensures
        forall|e: (u32, CellPos, VoxelData)|
            #[trigger] children_records(v0.update(ix, c1), cell).flatten().contains(e) ==> log2.contains(e),
{
    let p0 = children_records(v0, cell);
    let p1 = children_records(v0.update(ix, c1), cell);
    assert forall|e: (u32, CellPos, VoxelData)| #[trigger] p1.flatten().contains(e) implies log2.contains(e) by {
        lemma_flatten_contains(p1, e);
        let i = choose|i: int| 0 <= i < p1.len() && #[trigger] p1[i].contains(e);
        if i == ix {
            assert(p1[i] == c1.leaf_records(cell.child_spec(ix as u8)));
        } else {
            assert(p1[i] == p0[i]);
            lemma_flatten_contains(p0, e);
            lemma_prefix_contains(log1, log2, e);
        }
    }
}

/// Eight fresh leaves holding `data`, each registered at its own cube.
fn subdivide<R: Register + Deregister>(
    data: VoxelData,
    external_id: u32,
    reg: &mut R,
    cell: CellPos,
) -> (r: Vec<SVO>)
    requires
        old(reg).wf(),
        cell.wf(),
        cell.depth < MAX_DEPTH,
    ensures
        final(reg).wf(),
        r.len() == 8,
        forall|i: int| 0 <= i < 8 ==> #[trigger] r@[i] == (SVO::Voxel { data, external_id: r@[i]->Voxel_external_id }),
        // the parent's handle is given back before the children are registered
        final(reg).events() == old(reg).events().push(RegEvent::Deregistered { id: external_id }) + Seq::new(
            8,
            |i: int|
                RegEvent::Registered { id: r@[i]->Voxel_external_id, cell: cell.child_spec(i as u8), data },
        ),
        deregistrations(final(reg).events()) == deregistrations(old(reg).events()).push(external_id),
        registrations(final(reg).events()) == registrations(old(reg).events()) + Seq::new(
            8,
            |i: int| (r@[i]->Voxel_external_id, cell.child_spec(i as u8), data),
        ),
        SVO::Octants(r)@ == (Tree::Node { children: Seq::new(8, |i: int| Tree::Leaf { data }) }),
        ids_of(registrations(final(reg).events())) == ids_of(registrations(old(reg).events())) + SVO::Octants(
            r,
        ).handles(),
        registrations(old(reg).events()).is_prefix_of(registrations(final(reg).events())),
        leaves_registered(SVO::Octants(r), cell, registrations(final(reg).events())),
{
    reg.deregister(external_id);
    let mut v: Vec<SVO> = Vec::new();
    proof {
        assert(reg.events() =~= old(reg).events().push(RegEvent::Deregistered { id: external_id }) + Seq::new(
            0,
            |k: int|
                RegEvent::Registered { id: v@[k]->Voxel_external_id, cell: cell.child_spec(k as u8), data },
        ));
        assert(registrations(old(reg).events()) =~= registrations(old(reg).events()).subrange(0, registrations(old(reg).events()).len() as int));
        assert(registrations(old(reg).events()) =~= registrations(old(reg).events()) + Seq::new(
            0,
            |k: int| (v@[k]->Voxel_external_id, cell.child_spec(k as u8), data),
        ));
    }
    let mut i: u8 = 0;
    while i < 8
        invariant
            reg.wf(),
            i <= 8,
            v.len() == i,
            cell.wf(),
            cell.depth < MAX_DEPTH,
            forall|j: int| 0 <= j < i ==> #[trigger] v@[j]@ == (Tree::Leaf { data }),
            ids_of(registrations(reg.events())) == ids_of(registrations(old(reg).events()))
                + children_handles(v@, i as int).flatten(),
            registrations(old(reg).events()).is_prefix_of(registrations(reg.events())),
            forall|j: int|
                0 <= j < i ==> #[trigger] v@[j] == (SVO::Voxel { data, external_id: v@[j]->Voxel_external_id }),
            forall|j: int|
                0 <= j < i ==> registrations(reg.events()).contains(
                    (#[trigger] v@[j]->Voxel_external_id, cell.child_spec(j as u8), data),
                ),
            deregistrations(reg.events()) == deregistrations(old(reg).events()).push(external_id),
            reg.events() == old(reg).events().push(RegEvent::Deregistered { id: external_id }) + Seq::new(
                i as nat,
                |k: int|
                    RegEvent::Registered { id: v@[k]->Voxel_external_id, cell: cell.child_spec(k as u8), data },
            ),
            registrations(reg.events()) == registrations(old(reg).events()) + Seq::new(
                i as nat,
                |k: int| (v@[k]->Voxel_external_id, cell.child_spec(k as u8), data),
            ),
        decreases 8 - i,
    {
        let child_cell = cell.child(i);
        let ghost log_before = registrations(reg.events());
        let id = reg.register(child_cell, data);
        let ghost before = v@;
        v.push(SVO::Voxel { data, external_id: id });
        proof {
            assert(children_handles(v@, i + 1) =~= children_handles(before, i as int).push(seq![id]));
            children_handles(before, i as int).lemma_flatten_push(seq![id]);
            let r0 = registrations(old(reg).events());
            assert(ids_of(registrations(reg.events())) =~= ids_of(log_before).push(id));
            assert(ids_of(registrations(reg.events())) =~= ids_of(r0) + children_handles(v@, i + 1).flatten());
            lemma_prefix_push(log_before, (id, child_cell, data));
            lemma_prefix_trans(r0, log_before, registrations(reg.events()));
            assert(reg.events() =~= old(reg).events().push(RegEvent::Deregistered { id: external_id }) + Seq::new(
                (i + 1) as nat,
                |k: int|
                    RegEvent::Registered { id: v@[k]->Voxel_external_id, cell: cell.child_spec(k as u8), data },
            ));
            assert(registrations(reg.events()) =~= registrations(old(reg).events()) + Seq::new(
                (i + 1) as nat,
                |k: int| (v@[k]->Voxel_external_id, cell.child_spec(k as u8), data),
            ));
            assert forall|j: int| 0 <= j < i + 1 implies registrations(reg.events()).contains(
                (#[trigger] v@[j]->Voxel_external_id, cell.child_spec(j as u8), data),
            ) by {
                if j < i {
                    assert(v@[j] == before[j]);
                    lemma_prefix_contains(log_before, registrations(reg.events()), (v@[j]->Voxel_external_id, cell.child_spec(j as u8), data));
                } else {
                    assert(registrations(reg.events())[log_before.len() as int] == (id, child_cell, data));
                }
            }
        }
        i = i + 1;
    }
    proof {
        lemma_octants_view(v);
        assert(SVO::Octants(v)@->children =~= Seq::new(8, |i: int| Tree::Leaf { data }));
        lemma_octants_records(v, cell);
        let parts = children_records(v@, cell);
        assert forall|e: (u32, CellPos, VoxelData)| #[trigger] SVO::Octants(v).leaf_records(cell).contains(e) implies registrations(reg.events()).contains(e) by {
            lemma_flatten_contains(parts, e);
            let j = choose|j: int| 0 <= j < parts.len() && #[trigger] parts[j].contains(e);
            assert(parts[j] == v@[j].leaf_records(cell.child_spec(j as u8)));
            assert(v@[j].leaf_records(cell.child_spec(j as u8)) == seq![(v@[j]->Voxel_external_id, cell.child_spec(j as u8), data)]);
        }
    }
    v
}

proof fn lemma_record_handle(t: SVO, cell: CellPos, e: (u32, CellPos, VoxelData))
    requires
        t.leaf_records(cell).contains(e),
    ensures
        t.handles().contains(e.0),
    decreases t@,
{
    if let SVO::Octants(v) = t {
        if v.len() == 8 {
            lemma_octants_records(v, cell);
            lemma_octants_view(v);
            let parts = children_records(v@, cell);
            lemma_flatten_contains(parts, e);
            let j = choose|j: int| 0 <= j < parts.len() && #[trigger] parts[j].contains(e);
            assert(parts[j] == v@[j].leaf_records(cell.child_spec(j as u8)));
            assert(t@->children[j] == v@[j]@);
            assert(decreases_to!(t@ => t@->Node_children));
            assert(decreases_to!(t@->Node_children => t@->Node_children[j]));
            lemma_record_handle(v@[j], cell.child_spec(j as u8), e);
            let hparts = children_handles(v@, 8);
            assert(hparts[j] == v@[j].handles());
            lemma_flatten_contains(hparts, e.0);
        } else {
            assert(t.leaf_records(cell) == Seq::<(u32, CellPos, VoxelData)>::empty());
        }
    } else {
        let k = choose|k: int| 0 <= k < t.leaf_records(cell).len() && t.leaf_records(cell)[k] == e;
        assert(k == 0);
        assert(t.handles()[0] == e.0);
    }
}

proof fn lemma_uniform_handles_len(v: Vec<SVO>)
    requires
        v.len() == 8,
        uniform_leaves(children_view(v@)),
    ensures
        SVO::Octants(v).handles().len() == 8,
{
    lemma_octants_view(v);
    let parts = children_handles(v@, 8);
    assert forall|i: int| 0 <= i < parts.len() implies (#[trigger] parts[i]).len() == 1 by {
        assert(children_view(v@)[i] == children_view(v@)[0]);
        assert(v@[i]@ is Leaf);
    }
    lemma_flatten_unit_len(parts);
}

/// Registration bookkeeping of one step down the path: split the leaf (or
/// keep the node), change child `ix`, then recombine.
proof fn lemma_descend_bookkeeping(
    s0: SVO,
    full: Seq<u8>,
    cell: CellPos,
    v0: Seq<SVO>,
    c1: SVO,
    node1: SVO,
    r: SVO,
    reg0: Seq<(u32, CellPos, VoxelData)>,
    reg1: Seq<(u32, CellPos, VoxelData)>,
    reg2: Seq<(u32, CellPos, VoxelData)>,
    reg3: Seq<(u32, CellPos, VoxelData)>,
    dr0: Seq<u32>,
    dr1: Seq<u32>,
    dr2: Seq<u32>,
    dr3: Seq<u32>,
)
    requires
        full.len() >= 1,
        full[0] < 8,
        v0.len() == 8,
        node1 is Octants,
        node1->Octants_0.len() == 8,
        node1->Octants_0@ == v0.update(full[0] as int, c1),
        s0 is Voxel ==> {
            &&& dr1 == dr0.push(s0->Voxel_external_id)
            &&& reg0.is_prefix_of(reg1)
            &&& reg1.len() == reg0.len() + 8
            &&& forall|j: int| 0 <= j < 8 ==> (#[trigger] v0[j]) is Voxel
        },
        s0 is Octants ==> s0->Octants_0@ == v0 && s0->Octants_0.len() == 8 && dr1 == dr0 && reg1 == reg0,
        dr1.is_prefix_of(dr2),
        reg1.is_prefix_of(reg2),
        reg2.len() <= reg1.len() + 9 * (full.len() - 1) + 1,
        dr2.len() <= dr1.len() + 9 * (full.len() - 1) + v0[full[0] as int].handles_under(full.drop_first()).len(),
        forall|e: (u32, CellPos, VoxelData)|
            #[trigger] v0[full[0] as int].leaf_records(cell.child_spec(full[0])).contains(e) && !dr2.skip(
                dr1.len() as int,
            ).contains(e.0) ==> c1.leaf_records(cell.child_spec(full[0])).contains(e),
        r == node1 ==> dr3 == dr2 && reg3 == reg2,
        r != node1 ==> {
            &&& uniform_leaves(children_view(node1->Octants_0@))
            &&& dr3 == dr2 + node1.handles()
            &&& reg3 == reg2.push((r->Voxel_external_id, cell, r->Voxel_data))
        },
    ensures
        dr0.is_prefix_of(dr3),
        reg0.is_prefix_of(reg3),
        reg3.len() <= reg0.len() + 9 * full.len() + 1,
        dr3.len() <= dr0.len() + 9 * full.len() + s0.handles_under(full).len(),
        forall|e: (u32, CellPos, VoxelData)|
            #[trigger] s0.leaf_records(cell).contains(e) && !dr3.skip(dr0.len() as int).contains(e.0)
                ==> r.leaf_records(cell).contains(e),
{
    let ix = full[0] as int;
    let cc = cell.child_spec(full[0]);
    let v1 = node1->Octants_0@;
    if s0 is Octants {
        assert(dr0.is_prefix_of(dr1)) by {
            assert(dr0 =~= dr1.subrange(0, dr0.len() as int));
        }
        assert(reg0.is_prefix_of(reg1)) by {
            assert(reg0 =~= reg1.subrange(0, reg0.len() as int));
        }
    } else {
        lemma_prefix_push(dr0, s0->Voxel_external_id);
    }
    lemma_prefix_trans(dr0, dr1, dr2);
    lemma_prefix_trans(reg0, reg1, reg2);
    if r == node1 {
        assert(dr2 =~= dr3.subrange(0, dr2.len() as int));
        assert(reg2 =~= reg3.subrange(0, reg2.len() as int));
    } else {
        assert(dr2 =~= dr3.subrange(0, dr2.len() as int));
        lemma_prefix_push(reg2, (r->Voxel_external_id, cell, r->Voxel_data));
        lemma_uniform_handles_len(node1->Octants_0);
    }
    lemma_prefix_trans(dr0, dr2, dr3);
    lemma_prefix_trans(reg0, reg2, reg3);
    // the child's handles under the path are the node's
    if s0 is Voxel {
        assert(v0[ix] is Voxel);
        assert(s0.handles_under(full).len() == 1);
    } else {
        assert(s0.handles_under(full) == v0[ix].handles_under(full.drop_first()));
    }
    assert forall|e: (u32, CellPos, VoxelData)|
        #[trigger] s0.leaf_records(cell).contains(e) && !dr3.skip(dr0.len() as int).contains(e.0)
            implies r.leaf_records(cell).contains(e) by {
        if s0 is Voxel {
            let k = choose|k: int| 0 <= k < s0.leaf_records(cell).len() && s0.leaf_records(cell)[k] == e;
            assert(k == 0);
            assert(dr3[dr0.len() as int] == dr1[dr0.len() as int]);
            assert(dr3.skip(dr0.len() as int)[0] == e.0);
        } else {
            let sv = s0->Octants_0;
            lemma_octants_records(sv, cell);
            let p0 = children_records(v0, cell);
            assert(children_records(sv@, cell) == p0);
            lemma_flatten_contains(p0, e);
            let j = choose|j: int| 0 <= j < p0.len() && #[trigger] p0[j].contains(e);
            assert(p0[j] == v0[j].leaf_records(cell.child_spec(j as u8)));
            lemma_octants_records(node1->Octants_0, cell);
            let p1 = children_records(v1, cell);
            assert(p1[j] == v1[j].leaf_records(cell.child_spec(j as u8)));
            if j == ix {
                if dr2.skip(dr1.len() as int).contains(e.0) {
                    let k = choose|k: int| 0 <= k < dr2.skip(dr1.len() as int).len() && dr2.skip(dr1.len() as int)[k] == e.0;
                    assert(dr3.skip(dr0.len() as int)[k] == e.0);
                }
                assert(v1[j] == c1);
            } else {
                assert(v1[j] == v0[j]);
            }
            assert(p1[j].contains(e));
            lemma_flatten_contains(p1, e);
            assert(node1.leaf_records(cell).contains(e));
            if r != node1 {
                lemma_record_handle(node1, cell, e);
                let k = choose|k: int| 0 <= k < node1.handles().len() && node1.handles()[k] == e.0;
                assert(dr3[dr2.len() + k] == e.0);
                assert(dr3.skip(dr0.len() as int)[dr2.len() - dr0.len() + k] == e.0);
            }
        }
    }
}

/// What setting the region that `path` addresses to `d` does below a node
/// `t` whose cube is `cell`, when the leaves that it registers receive the
/// handles `ids` in turn: the new tree, the registrations in order, the
/// handles given back in order, and all calls in the order they are made.
///
/// A leaf that already holds `d` is left alone. At the end of the path the
/// node's handles are given back, depth first, and one leaf for its cube is
/// registered. Otherwise a leaf is split (its handle given back, then eight
/// leaves registered at the children's cubes), the child on the path is set,
/// and if the eight children are then leaves with equal data, their handles
/// are given back and one merged leaf is registered.
pub open spec fn set_outcome(t: HTree, path: Seq<u8>, d: VoxelData, cell: CellPos, ids: Seq<u32>) -> (
    HTree,
    Seq<(u32, CellPos, VoxelData)>,
    Seq<u32>,
    Seq<RegEvent>,
)
    decreases path.len(),
{
    if t is Leaf && t->Leaf_data == d {
        (t, Seq::empty(), Seq::empty(), Seq::empty())
    } else if path.len() == 0 || path[0] >= 8 {
        (
            HTree::Leaf { data: d, id: ids[0] },
            seq![(ids[0], cell, d)],
            t.handles(),
            give_backs(t.handles()).push(RegEvent::Registered { id: ids[0], cell, data: d }),
        )
    } else {
        let k: int = if t is Leaf { 8 } else { 0 };
        let cs0 = if t is Leaf {
            Seq::new(8, |i: int| HTree::Leaf { data: t->Leaf_data, id: ids[i] })
        } else {
            t->Node_children
        };
        let regs0 = if t is Leaf {
            Seq::new(8, |i: int| (ids[i], cell.child_spec(i as u8), t->Leaf_data))
        } else {
            Seq::empty()
        };
        let deregs0 = if t is Leaf {
            seq![t->Leaf_id]
        } else {
            Seq::empty()
        };
        let evs0 = if t is Leaf {
            seq![RegEvent::Deregistered { id: t->Leaf_id }] + Seq::new(
                8,
                |i: int| RegEvent::Registered { id: ids[i], cell: cell.child_spec(i as u8), data: t->Leaf_data },
            )
        } else {
            Seq::empty()
        };
        let ix = path[0] as int;
        let sub = set_outcome(cs0[ix], path.drop_first(), d, cell.child_spec(path[0]), ids.skip(k));
        let cs1 = cs0.update(ix, sub.0);
        let n = k + sub.1.len();
        if uniform_hleaves(cs1) {
            (
                HTree::Leaf { data: cs1[0]->Leaf_data, id: ids[n] },
                regs0 + sub.1 + seq![(ids[n], cell, cs1[0]->Leaf_data)],
                deregs0 + sub.2 + HTree::Node { children: cs1 }.handles(),
                (evs0 + sub.3 + give_backs(HTree::Node { children: cs1 }.handles())).push(
                    RegEvent::Registered { id: ids[n], cell, data: cs1[0]->Leaf_data },
                ),
            )
        } else {
            (HTree::Node { children: cs1 }, regs0 + sub.1, deregs0 + sub.2, evs0 + sub.3)
        }
    }
}

/// The outcome reads no more handles than it registers.
proof fn lemma_set_outcome_extend(
    t: HTree,
    path: Seq<u8>,
    d: VoxelData,
    cell: CellPos,
    ids: Seq<u32>,
    extra: Seq<u32>,
)
    requires
        set_outcome(t, path, d, cell, ids).1.len() <= ids.len(),
    ensures
        set_outcome(t, path, d, cell, ids + extra) == set_outcome(t, path, d, cell, ids),
    decreases path.len(),
{
    let all = ids + extra;
    if t is Leaf && t->Leaf_data == d {
    } else if path.len() == 0 || path[0] >= 8 {
        assert(all[0] == ids[0]);
    } else {
        let k: int = if t is Leaf { 8 } else { 0 };
        let o = set_outcome(t, path, d, cell, ids);
        let cs0 = if t is Leaf {
            Seq::new(8, |i: int| HTree::Leaf { data: t->Leaf_data, id: ids[i] })
        } else {
            t->Node_children
        };
        let cs0a = if t is Leaf {
            Seq::new(8, |i: int| HTree::Leaf { data: t->Leaf_data, id: all[i] })
        } else {
            t->Node_children
        };
        let ix = path[0] as int;
        let sub = set_outcome(cs0[ix], path.drop_first(), d, cell.child_spec(path[0]), ids.skip(k));
        if t is Leaf {
            assert(o.1.len() >= 8 + sub.1.len());
            assert(cs0a =~= cs0);
            assert(Seq::new(8, |i: int| (all[i], cell.child_spec(i as u8), t->Leaf_data)) =~= Seq::new(
                8,
                |i: int| (ids[i], cell.child_spec(i as u8), t->Leaf_data),
            ));
            assert(Seq::new(
                8,
                |i: int| RegEvent::Registered { id: all[i], cell: cell.child_spec(i as u8), data: t->Leaf_data },
            ) =~= Seq::new(
                8,
                |i: int| RegEvent::Registered { id: ids[i], cell: cell.child_spec(i as u8), data: t->Leaf_data },
            ));
        } else {
            assert(o.1.len() >= sub.1.len());
        }
        assert(all.skip(k) =~= ids.skip(k) + extra);
        lemma_set_outcome_extend(cs0[ix], path.drop_first(), d, cell.child_spec(path[0]), ids.skip(k), extra);
        let n = k + sub.1.len();
        if uniform_hleaves(cs0.update(ix, sub.0)) {
            assert(n < ids.len());
            assert(all[n] == ids[n]);
        }
    }
}

proof fn lemma_hview_handles(t: SVO)
    ensures
        t.hview().handles() == t.handles(),
    decreases t@,
{
    if let SVO::Octants(v) = t {
        if v.len() == 8 {
            lemma_octants_view(v);
            assert forall|j: int| 0 <= j < 8 implies (#[trigger] v@[j]).hview().handles() == v@[j].handles() by {
                assert(t@->children[j] == v@[j]@);
                assert(decreases_to!(t@ => t@->Node_children));
                assert(decreases_to!(t@->Node_children => t@->Node_children[j]));
                lemma_hview_handles(v@[j]);
            }
            assert(v@[0] == v[0]);
            assert(t.hview()->Node_children == seq![v[0].hview(), v[1].hview(), v[2].hview(), v[3].hview(), v[4].hview(), v[5].hview(), v[6].hview(), v[7].hview()]);
            assert(v@[1] == v[1] && v@[2] == v[2] && v@[3] == v[3] && v@[4] == v[4] && v@[5] == v[5] && v@[6] == v[6] && v@[7] == v[7]);
        }
    }
}

/// The handle-carrying children of a node whose children vector is `v`.
pub(crate) open spec fn children_hview(v: Seq<SVO>) -> Seq<HTree> {
    Seq::new(v.len() as nat, |i: int| v[i].hview())
}

proof fn lemma_octants_hview(v: Vec<SVO>)
    requires
        v.len() == 8,
    ensures
        SVO::Octants(v).hview() == (HTree::Node { children: children_hview(v@) }),
{
    let cs = seq![v[0].hview(), v[1].hview(), v[2].hview(), v[3].hview(), v[4].hview(), v[5].hview(), v[6].hview(), v[7].hview()];
    assert(SVO::Octants(v).hview() == HTree::Node { children: cs });
    assert(cs =~= children_hview(v@));
}

proof fn lemma_uniform_views(v: Seq<SVO>)
    requires
        v.len() == 8,
    ensures
        uniform_hleaves(children_hview(v)) <==> uniform_leaves(children_view(v)),
        uniform_leaves(children_view(v)) ==> children_hview(v)[0]->Leaf_data == children_view(v)[0]->Leaf_data,
{
    let h = children_hview(v);
    let c = children_view(v);
    assert forall|i: int| 0 <= i < 8 implies (h[i] is Leaf <==> c[i] is Leaf) && (h[i] is Leaf ==> h[i]->Leaf_data
        == c[i]->Leaf_data) by {
        assert(h[i] == v[i].hview());
        assert(c[i] == v[i]@);
    }
    if uniform_leaves(c) {
        assert forall|i: int| 0 <= i < 8 implies (#[trigger] h[i]) is Leaf && h[i]->Leaf_data == h[0]->Leaf_data by {
            assert(c[i] == c[0]);
        }
    }
    if uniform_hleaves(h) {
        assert forall|i: int| 0 <= i < 8 implies #[trigger] c[i] == c[0] by {
            assert(h[i] is Leaf);
        }
    }
}

proof fn lemma_descend_outcome(
    s0: SVO,
    full: Seq<u8>,
    d: VoxelData,
    cell: CellPos,
    v0: Seq<SVO>,
    c1: SVO,
    node1: SVO,
    r: SVO,
    reg0: Seq<(u32, CellPos, VoxelData)>,
    reg1: Seq<(u32, CellPos, VoxelData)>,
    reg2: Seq<(u32, CellPos, VoxelData)>,
    reg3: Seq<(u32, CellPos, VoxelData)>,
    dr0: Seq<u32>,
    dr1: Seq<u32>,
    dr2: Seq<u32>,
    dr3: Seq<u32>,
    ev0: Seq<RegEvent>,
    ev1: Seq<RegEvent>,
    ev2: Seq<RegEvent>,
    ev3: Seq<RegEvent>,
)
    requires
        full.len() >= 1,
        full[0] < 8,
        v0.len() == 8,
        !(s0 is Voxel && s0->Voxel_data == d),
        node1 is Octants,
        node1->Octants_0.len() == 8,
        node1->Octants_0@ == v0.update(full[0] as int, c1),
        s0 is Voxel ==> {
            &&& dr1 == dr0.push(s0->Voxel_external_id)
            &&& reg1 == reg0 + Seq::new(
                8,
                |i: int| (v0[i]->Voxel_external_id, cell.child_spec(i as u8), s0->Voxel_data),
            )
            &&& ev1 == ev0.push(RegEvent::Deregistered { id: s0->Voxel_external_id }) + Seq::new(
                8,
                |i: int|
                    RegEvent::Registered {
                        id: v0[i]->Voxel_external_id,
                        cell: cell.child_spec(i as u8),
                        data: s0->Voxel_data,
                    },
            )
            &&& forall|j: int|
                0 <= j < 8 ==> (#[trigger] v0[j]) == (SVO::Voxel {
                    data: s0->Voxel_data,
                    external_id: v0[j]->Voxel_external_id,
                })
        },
        s0 is Octants ==> s0->Octants_0@ == v0 && s0->Octants_0.len() == 8 && dr1 == dr0 && reg1 == reg0
            && ev1 == ev0,
        dr1.is_prefix_of(dr2),
        ev1.is_prefix_of(ev2),
        reg1.is_prefix_of(reg2),
        set_outcome(
            v0[full[0] as int].hview(),
            full.drop_first(),
            d,
            cell.child_spec(full[0]),
            ids_of(reg2.skip(reg1.len() as int)),
        ) == (c1.hview(), reg2.skip(reg1.len() as int), dr2.skip(dr1.len() as int), ev2.skip(ev1.len() as int)),
        r == node1 ==> dr3 == dr2 && reg3 == reg2 && ev3 == ev2 && !uniform_leaves(
            children_view(node1->Octants_0@),
        ),
        r != node1 ==> {
            &&& uniform_leaves(children_view(node1->Octants_0@))
            &&& r == (SVO::Voxel { data: r->Voxel_data, external_id: r->Voxel_external_id })
            &&& r->Voxel_data == children_view(node1->Octants_0@)[0]->Leaf_data
            &&& dr3 == dr2 + node1.handles()
            &&& reg3 == reg2.push((r->Voxel_external_id, cell, r->Voxel_data))
            &&& ev3 == (ev2 + give_backs(node1.handles())).push(
                RegEvent::Registered { id: r->Voxel_external_id, cell, data: r->Voxel_data },
            )
        },
    ensures
        set_outcome(s0.hview(), full, d, cell, ids_of(reg3.skip(reg0.len() as int))) == (
            r.hview(),
            reg3.skip(reg0.len() as int),
            dr3.skip(dr0.len() as int),
            ev3.skip(ev0.len() as int),
        ),
{
    let ix = full[0] as int;
    let cc = cell.child_spec(full[0]);
    let t = s0.hview();
    let v1 = node1->Octants_0@;
    let k: int = if s0 is Voxel { 8 } else { 0 };
    let rsub = reg1.skip(reg0.len() as int);
    let rc = reg2.skip(reg1.len() as int);
    let rm = reg3.skip(reg2.len() as int);
    let dsub = dr1.skip(dr0.len() as int);
    let dc = dr2.skip(dr1.len() as int);
    let dm = dr3.skip(dr2.len() as int);
    let esub = ev1.skip(ev0.len() as int);
    let ec = ev2.skip(ev1.len() as int);
    let em = ev3.skip(ev2.len() as int);
    assert(ev2 =~= ev1 + ec);
    if r == node1 {
        assert(em =~= Seq::<RegEvent>::empty());
    } else {
        assert(em =~= give_backs(node1.handles()).push(
            RegEvent::Registered { id: r->Voxel_external_id, cell, data: r->Voxel_data },
        ));
    }
    assert(ev3 =~= ev2 + em);
    let big_e = ev3.skip(ev0.len() as int);
    assert(big_e =~= esub + ec + em);
    assert(reg2 =~= reg1 + rc);
    assert(dr2 =~= dr1 + dc);
    if r == node1 {
        assert(rm =~= Seq::<(u32, CellPos, VoxelData)>::empty());
        assert(dm =~= Seq::<u32>::empty());
    } else {
        assert(rm =~= seq![(r->Voxel_external_id, cell, r->Voxel_data)]);
        assert(dm =~= node1.handles());
    }
    assert(reg3 =~= reg2 + rm);
    assert(dr3 =~= dr2 + dm);
    if s0 is Voxel {
        assert(reg1 =~= reg0 + rsub);
        assert(dsub =~= seq![s0->Voxel_external_id]);
    } else {
        assert(rsub =~= Seq::<(u32, CellPos, VoxelData)>::empty());
        assert(dsub =~= Seq::<u32>::empty());
    }
    let big_r = reg3.skip(reg0.len() as int);
    let big_d = dr3.skip(dr0.len() as int);
    assert(big_r =~= rsub + rc + rm);
    assert(big_d =~= dsub + dc + dm);
    let ids = ids_of(big_r);
    assert(rsub.len() == k);
    assert(ids.skip(k) =~= ids_of(rc) + ids_of(rm));
    assert(ids_of(rc).len() == rc.len());
    lemma_set_outcome_extend(v0[ix].hview(), full.drop_first(), d, cc, ids_of(rc), ids_of(rm));
    // the children before the change
    let cs0 = if t is Leaf {
        Seq::new(8, |i: int| HTree::Leaf { data: t->Leaf_data, id: ids[i] })
    } else {
        t->Node_children
    };
    if s0 is Voxel {
        assert forall|i: int| 0 <= i < 8 implies ids[i] == v0[i]->Voxel_external_id by {
            assert(big_r[i] == rsub[i]);
        }
        assert(cs0 =~= children_hview(v0)) by {
            assert forall|i: int| 0 <= i < 8 implies cs0[i] == children_hview(v0)[i] by {
                assert(v0[i] == SVO::Voxel { data: s0->Voxel_data, external_id: v0[i]->Voxel_external_id });
            }
        }
        assert(Seq::new(8, |i: int| (ids[i], cell.child_spec(i as u8), t->Leaf_data)) =~= rsub);
        assert(seq![RegEvent::Deregistered { id: t->Leaf_id }] + Seq::new(
            8,
            |i: int| RegEvent::Registered { id: ids[i], cell: cell.child_spec(i as u8), data: t->Leaf_data },
        ) =~= esub);
    } else {
        lemma_octants_hview(s0->Octants_0);
        assert(esub =~= Seq::<RegEvent>::empty());
    }
    let sub = set_outcome(cs0[ix], full.drop_first(), d, cc, ids.skip(k));
    assert(sub == (c1.hview(), rc, dc, ec));
    let cs1 = cs0.update(ix, c1.hview());
    assert(cs1 =~= children_hview(v1));
    lemma_uniform_views(v1);
    lemma_octants_hview(node1->Octants_0);
    lemma_hview_handles(node1);
    if r != node1 {
        assert(ids[k + rc.len()] == r->Voxel_external_id) by {
            assert(big_r[k + rc.len()] == rm[0]);
        }
        let x = RegEvent::Registered { id: r->Voxel_external_id, cell, data: r->Voxel_data };
        let g = give_backs(node1.handles());
        assert(esub + ec + g.push(x) =~= (esub + ec + g).push(x));
    } else {
        assert(esub + ec + Seq::<RegEvent>::empty() =~= esub + ec);
    }
}

/// The tree that recombination leaves: one leaf where all eight children
/// are leaves with the same data, the node itself otherwise.
pub open spec fn recombined(t: Tree) -> Tree {
    if t is Node && uniform_leaves(t->children) {
        Tree::Leaf { data: t->children[0]->Leaf_data }
    } else {
        t
    }
}

proof fn lemma_children_update(v0: Seq<SVO>, v1: Seq<SVO>, ix: int, c: SVO)
    requires
        v0.len() == 8,
        0 <= ix < 8,
        v1 == v0.update(ix, c),
    ensures
        children_view(v1) == children_view(v0).update(ix, c@),
        children_handles(v1, 8) == children_handles(v0, 8).update(ix, c.handles()),
{
    assert(children_view(v1) =~= children_view(v0).update(ix, c@));
    assert(children_handles(v1, 8) =~= children_handles(v0, 8).update(ix, c.handles()));
}

proof fn lemma_accounted_replace(hs: Seq<u32>, id: u32, r0: Seq<u32>, d0: Seq<u32>)
    ensures
        handles_accounted(
            hs.to_multiset(),
            seq![id].to_multiset(),
            r0.to_multiset(),
            r0.push(id).to_multiset(),
            d0.to_multiset(),
            (d0 + hs).to_multiset(),
        ),
{
    lemma_multiset_commutative(d0, hs);
    r0.to_multiset_ensures();
    Seq::<u32>::empty().to_multiset_ensures();
    assert(seq![id] =~= Seq::<u32>::empty().push(id));
    let h0 = hs.to_multiset();
    let h1 = seq![id].to_multiset();
    let ra = r0.push(id).to_multiset();
    let rb = r0.to_multiset();
    let da = (d0 + hs).to_multiset();
    let db = d0.to_multiset();
    assert forall|x: u32| #[trigger] h0.add(ra).add(db).count(x) == h1.add(da).add(rb).count(x) by {}
    assert(h0.add(ra).add(db) =~= h1.add(da).add(rb));
}

impl SVO {
    /// Gives back every handle under this node, depth first, then registers
    /// one leaf holding `data` for the node's cube `cell`.
    fn replace_with_leaf<R: Register + Deregister>(
        self,
        reg: &mut R,
        cell: CellPos,
        data: VoxelData,
    ) -> (r: SVO)
        requires
            old(reg).wf(),
            self@.wf(),
        ensures
            final(reg).wf(),
            r == (SVO::Voxel { data, external_id: r->Voxel_external_id }),
            // every handle below is given back before the one leaf is registered
            final(reg).events() == (old(reg).events() + give_backs(self.handles())).push(
                RegEvent::Registered { id: r->Voxel_external_id, cell, data },
            ),
            deregistrations(final(reg).events()) == deregistrations(old(reg).events()) + self.handles(),
            registrations(final(reg).events()) == registrations(old(reg).events()).push((r->Voxel_external_id, cell, data)),
            handles_accounted(
                self.handles().to_multiset(),
                r.handles().to_multiset(),
                registered_ids(*old(reg)),
                registered_ids(*final(reg)),
                deregistered_ids(*old(reg)),
                deregistered_ids(*final(reg)),
            ),
            registrations(old(reg).events()).is_prefix_of(registrations(final(reg).events())),
            deregistrations(old(reg).events()).is_prefix_of(deregistrations(final(reg).events())),
            leaves_registered(r, cell, registrations(final(reg).events())),
    {
        let ghost d0 = deregistrations(reg.events());
        let ghost r0 = registrations(reg.events());
        self.deregister_all(reg);
        let id = reg.register(cell, data);
        let r = SVO::Voxel { data, external_id: id };
        proof {
            assert(ids_of(registrations(reg.events())) =~= ids_of(r0).push(id));
            lemma_accounted_replace(self.handles(), id, ids_of(r0), d0);
            lemma_prefix_push(r0, (id, cell, data));
            assert(d0 =~= (d0 + self.handles()).subrange(0, d0.len() as int));
            assert(registrations(reg.events())[r0.len() as int] == (id, cell, data));
            assert(r.leaf_records(cell) == seq![(id, cell, data)]);
        }
        r
    }
}

impl SVO {
    /// If this node's eight children are leaves with the same data, deregisters
    /// them and replaces the node by one registered leaf with that data.
    pub fn recombine_svo<R: Register + Deregister>(
        self,
        reg: &mut R,
        cell: CellPos,
    ) -> (r: SVO)
        requires
            old(reg).wf(),
            self@.wf(),
        ensures
            final(reg).wf(),
            r@ == recombined(self@),
            r@.wf(),
            handles_accounted(
                self.handles().to_multiset(),
                r.handles().to_multiset(),
                registered_ids(*old(reg)),
                registered_ids(*final(reg)),
                deregistered_ids(*old(reg)),
                deregistered_ids(*final(reg)),
            ),
            r@ == self@ ==> {
                &&& r.handles() == self.handles()
                &&& registrations(final(reg).events()) == registrations(old(reg).events())
                &&& deregistrations(final(reg).events()) == deregistrations(old(reg).events())
                &&& final(reg).events() == old(reg).events()
            },
            r@ == self@ ==> r == self,
            // a merge gives back the eight handles, then registers one leaf
            r@ != self@ ==> {
                &&& r == (SVO::Voxel { data: r->Voxel_data, external_id: r->Voxel_external_id })
                &&& final(reg).events() == (old(reg).events() + give_backs(self.handles())).push(
                    RegEvent::Registered { id: r->Voxel_external_id, cell, data: r->Voxel_data },
                )
                &&& deregistrations(final(reg).events()) == deregistrations(old(reg).events()) + self.handles()
                &&& registrations(final(reg).events()) == registrations(old(reg).events()).push(
                    (r->Voxel_external_id, cell, r->Voxel_data),
                )
            },
            registrations(old(reg).events()).is_prefix_of(registrations(final(reg).events())),
            deregistrations(old(reg).events()).is_prefix_of(deregistrations(final(reg).events())),
            leaves_registered(self, cell, registrations(old(reg).events())) ==> leaves_registered(
                r,
                cell,
                registrations(final(reg).events()),
            ),
    {
        let combined = match &self {
            SVO::Octants(v) => {
                proof {
                    lemma_octants_view(*v);
                }
                combine_voxels(v)
            },
            SVO::Voxel { .. } => None,
        };
        match combined {
            Some(data) => self.replace_with_leaf(reg, cell, data),
            None => {
                proof {
                    assert(self.handles().to_multiset().add(registered_ids(*reg)).add(
                        deregistered_ids(*reg),
                    ) =~= self.handles().to_multiset().add(deregistered_ids(*reg)).add(
                        registered_ids(*reg),
                    ));
                    assert(registrations(reg.events()) =~= registrations(reg.events()).subrange(0, registrations(reg.events()).len() as int));
                    assert(deregistrations(reg.events()) =~= deregistrations(reg.events()).subrange(0, deregistrations(reg.events()).len() as int));
                }
                self
            },
        }
    }
}

proof fn lemma_accounted_refl(h: Multiset<u32>, r: Multiset<u32>, d: Multiset<u32>)
    ensures
        handles_accounted(h, h, r, r, d, d),
{
    assert(h.add(r).add(d) =~= h.add(d).add(r));
}

proof fn lemma_accounted_subdivide(
    id0: u32,
    hs: Seq<u32>,
    r0: Seq<u32>,
    d0: Seq<u32>,
)
    ensures
        handles_accounted(
            seq![id0].to_multiset(),
            hs.to_multiset(),
            r0.to_multiset(),
            (r0 + hs).to_multiset(),
            d0.to_multiset(),
            d0.push(id0).to_multiset(),
        ),
{
    lemma_multiset_commutative(r0, hs);
    d0.to_multiset_ensures();
    Seq::<u32>::empty().to_multiset_ensures();
    assert(seq![id0] =~= Seq::<u32>::empty().push(id0));
    let h0 = seq![id0].to_multiset();
    let h1 = hs.to_multiset();
    let ra = (r0 + hs).to_multiset();
    let rb = r0.to_multiset();
    let da = d0.push(id0).to_multiset();
    let db = d0.to_multiset();
    assert forall|x: u32| #[trigger] h0.add(ra).add(db).count(x) == h1.add(da).add(rb).count(x) by {}
    assert(h0.add(ra).add(db) =~= h1.add(da).add(rb));
}

proof fn lemma_accounted_child(
    parts: Seq<Seq<u32>>,
    ix: int,
    new_part: Seq<u32>,
    r0: Multiset<u32>,
    r1: Multiset<u32>,
    d0: Multiset<u32>,
    d1: Multiset<u32>,
)
    requires
        0 <= ix < parts.len(),
        handles_accounted(parts[ix].to_multiset(), new_part.to_multiset(), r0, r1, d0, d1),
    ensures
        handles_accounted(
            parts.flatten().to_multiset(),
            parts.update(ix, new_part).flatten().to_multiset(),
            r0,
            r1,
            d0,
            d1,
        ),
{
    lemma_flatten_update_multiset(parts, ix, new_part);
    let a = parts.flatten().to_multiset();
    let b = parts.update(ix, new_part).flatten().to_multiset();
    let c = parts[ix].to_multiset();
    let c1 = new_part.to_multiset();
    assert forall|x: u32| #[trigger] a.add(r1).add(d0).count(x) == b.add(d1).add(r0).count(x) by {
        assert(b.add(c).count(x) == a.add(c1).count(x));
        assert(c.add(r1).add(d0).count(x) == c1.add(d1).add(r0).count(x));
    }
    assert(a.add(r1).add(d0) =~= b.add(d1).add(r0));
}

/// What setting the region that `path` addresses to `d` below a node `t0`
/// may leave as `t1`: a well-formed tree with `d` under the path and the old
/// data elsewhere, no deeper than before or than the path, still coalesced
/// if it was, settled along the path, and unchanged when the path was
/// already settled.
pub open spec fn set_result(t0: Tree, path: Seq<u8>, d: VoxelData, t1: Tree) -> bool {
    &&& t1.wf()
    &&& forall|q: Seq<u8>|
        is_octant_path(q) && t0.within(q.len()) && path.len() <= q.len() ==> #[trigger] t1.value_at(q) == if path.is_prefix_of(q) {
            Some(d)
        } else {
            t0.value_at(q)
        }
    &&& forall|n: nat| t0.within(n) && path.len() <= n ==> #[trigger] t1.within(n)
    &&& t0.coalesced() ==> t1.coalesced()
    &&& t1.settled(path, d)
    &&& t0.settled(path, d) ==> t1 == t0
}

proof fn lemma_set_step(t0: Tree, cs0: Seq<Tree>, full: Seq<u8>, d: VoxelData, c1: Tree)
    requires
        t0.wf(),
        full.len() >= 1,
        is_octant_path(full),
        cs0.len() == 8,
        forall|j: int| 0 <= j < 8 ==> #[trigger] cs0[j].wf(),
        t0 is Node ==> t0 == (Tree::Node { children: cs0 }),
        t0 is Leaf ==> t0->Leaf_data != d && cs0 == Seq::new(8, |i: int| Tree::Leaf { data: t0->Leaf_data }),
        set_result(cs0[full[0] as int], full.drop_first(), d, c1),
    ensures
        set_result(t0, full, d, recombined(Tree::Node { children: cs0.update(full[0] as int, c1) })),
{
    let ix = full[0] as int;
    let rest = full.drop_first();
    let c0 = cs0[ix];
    let cs1 = cs0.update(ix, c1);
    let node1 = Tree::Node { children: cs1 };
    let r = recombined(node1);
    assert(0 <= ix < 8);
    assert forall|j: int| 0 <= j < 8 implies #[trigger] cs1[j].wf() by {}
    assert(r.wf());
    assert forall|q: Seq<u8>|
        is_octant_path(q) && t0.within(q.len()) && full.len() <= q.len() implies #[trigger] r.value_at(q)
        == if full.is_prefix_of(q) {
        Some(d)
    } else {
        t0.value_at(q)
    } by {
        let q0 = q[0] as int;
        let q1 = q.drop_first();
        assert(q[0] < 8);
        assert(is_octant_path(q1)) by {
            assert forall|k: int| 0 <= k < q1.len() implies #[trigger] q1[k] < 8 by {
                assert(q1[k] == q[k + 1]);
            }
        }
        lemma_prefix_step(full, q);
        assert(t0.value_at(q) == cs0[q0].value_at(q1));
        assert(node1.value_at(q) == cs1[q0].value_at(q1));
        if uniform_leaves(cs1) {
            assert(cs1[q0] == cs1[0]);
        }
        assert(r.value_at(q) == node1.value_at(q));
        if q0 == ix {
            assert(c0.within(q1.len()));
            assert(c1.value_at(q1) == if rest.is_prefix_of(q1) {
                Some(d)
            } else {
                c0.value_at(q1)
            });
        }
    }
    assert forall|n: nat| t0.within(n) && full.len() <= n implies #[trigger] r.within(n) by {
        assert forall|j: int| 0 <= j < cs1.len() implies cs1[j].within((n - 1) as nat) by {
            assert(cs0[j].within((n - 1) as nat));
            if j == ix {
                assert(c1.within((n - 1) as nat));
            }
        }
        assert(node1.within(n));
    }
    if t0.coalesced() {
        assert forall|j: int| 0 <= j < cs1.len() implies cs1[j].coalesced() by {
            assert(cs0[j].coalesced());
        }
    }
    if uniform_leaves(cs1) {
        assert(cs1[ix] == cs1[0]);
        assert(c1.settled(rest, d));
    } else {
        assert(full.drop_first() == rest);
        assert(cs1[ix] == c1);
    }
    assert(r.settled(full, d));
    if t0.settled(full, d) {
        assert(t0 is Node);
        assert(c0.settled(rest, d));
        assert(cs1 =~= cs0);
    }
}

impl SVO {
    /// Sets the region that `path[pos..]` addresses below this node, whose
    /// cube is `cell`, and recombines on the way back up.
    #[verifier::rlimit(60)]
    fn set_voxel_from<R: Register + Deregister>(
        self,
        reg: &mut R,
        path: &[u8],
        pos: usize,
        new_data: VoxelData,
        cell: CellPos,
    ) -> (r: SVO)
        requires
            old(reg).wf(),
            self@.wf(),
            cell.wf(),
            pos <= path.len(),
            is_octant_path(path@),
            cell.depth + (path.len() - pos) <= MAX_DEPTH,
        ensures
            final(reg).wf(),
            set_result(self@, path@.subrange(pos as int, path@.len() as int), new_data, r@),
            self@.settled(path@.subrange(pos as int, path@.len() as int), new_data) ==> {
                &&& r@ == self@
                &&& r.handles() == self.handles()
                &&& registrations(final(reg).events()) == registrations(old(reg).events())
                &&& deregistrations(final(reg).events()) == deregistrations(old(reg).events())
            },
            handles_accounted(
                self.handles().to_multiset(),
                r.handles().to_multiset(),
                registered_ids(*old(reg)),
                registered_ids(*final(reg)),
                deregistered_ids(*old(reg)),
                deregistered_ids(*final(reg)),
            ),
            registrations(old(reg).events()).is_prefix_of(registrations(final(reg).events())),
            leaves_registered(self, cell, registrations(old(reg).events())) ==> leaves_registered(
                r,
                cell,
                registrations(final(reg).events()),
            ),
            deregistrations(old(reg).events()).is_prefix_of(deregistrations(final(reg).events())),
            // at the end of the path: give back every handle below, then
            // register one leaf for this cube
            pos == path.len() && !(self is Voxel && self->Voxel_data == new_data) ==> {
                &&& r == (SVO::Voxel { data: new_data, external_id: r->Voxel_external_id })
                &&& final(reg).events() == (old(reg).events() + give_backs(self.handles())).push(
                    RegEvent::Registered { id: r->Voxel_external_id, cell, data: new_data },
                )
                &&& deregistrations(final(reg).events()) == deregistrations(old(reg).events()) + self.handles()
                &&& registrations(final(reg).events()) == registrations(old(reg).events()).push(
                    (r->Voxel_external_id, cell, new_data),
                )
            },
            // the number of calls grows with the path, not with the tree
            registrations(final(reg).events()).len() <= registrations(old(reg).events()).len() + 9 * (path.len() - pos)
                + 1,
            deregistrations(final(reg).events()).len() <= deregistrations(old(reg).events()).len() + 9 * (path.len()
                - pos) + self.handles_under(path@.subrange(pos as int, path@.len() as int)).len(),
            // a leaf whose handle was not given back stays, with its handle
            forall|e: (u32, CellPos, VoxelData)|
                #[trigger] self.leaf_records(cell).contains(e) && !deregistrations(final(reg).events()).skip(
                    deregistrations(old(reg).events()).len() as int,
                ).contains(e.0) ==> r.leaf_records(cell).contains(e),
            // the tree with its handles and both records, exactly
            set_outcome(
                self.hview(),
                path@.subrange(pos as int, path@.len() as int),
                new_data,
                cell,
                ids_of(registrations(final(reg).events()).skip(registrations(old(reg).events()).len() as int)),
            ) == (
                r.hview(),
                registrations(final(reg).events()).skip(registrations(old(reg).events()).len() as int),
                deregistrations(final(reg).events()).skip(deregistrations(old(reg).events()).len() as int),
                final(reg).events().skip(old(reg).events().len() as int),
            ),
            old(reg).events().is_prefix_of(final(reg).events()),
        decreases path.len() - pos,
    {
        let ghost full = path@.subrange(pos as int, path@.len() as int);
        let ghost t0 = self@;
        let ghost s0 = self;
        proof {
            lemma_accounted_refl(self.handles().to_multiset(), registered_ids(*reg), deregistered_ids(*reg));
        }
        if let SVO::Voxel { data, .. } = &self {
            if *data == new_data {
                proof {
                    assert(registrations(reg.events()).skip(registrations(reg.events()).len() as int) =~= Seq::<
                        (u32, CellPos, VoxelData),
                    >::empty());
                    assert(deregistrations(reg.events()).skip(deregistrations(reg.events()).len() as int) =~= Seq::<
                        u32,
                    >::empty());
                    assert(reg.events().skip(reg.events().len() as int) =~= Seq::<RegEvent>::empty());
                    assert(reg.events() =~= reg.events().subrange(0, reg.events().len() as int));
                }
                return self;
            }
        }
        if pos == path.len() {
            let r = self.replace_with_leaf(reg, cell, new_data);
            proof {
                assert forall|q: Seq<u8>| #[trigger] full.is_prefix_of(q) by {
                    assert(full =~= q.subrange(0, 0));
                }
                if t0.settled(full, new_data) {
                    assert(t0 is Leaf);
                }
                assert(self.handles_under(full) == self.handles());
                lemma_hview_handles(self);
                let rr = registrations(reg.events()).skip(registrations(old(reg).events()).len() as int);
                assert(rr =~= seq![(r->Voxel_external_id, cell, new_data)]);
                assert(ids_of(rr)[0] == r->Voxel_external_id);
                assert(deregistrations(reg.events()).skip(deregistrations(old(reg).events()).len() as int) =~= self.handles());
                assert(reg.events().skip(old(reg).events().len() as int) =~= give_backs(self.handles()).push(
                    RegEvent::Registered { id: r->Voxel_external_id, cell, data: new_data },
                ));
                assert(old(reg).events() =~= reg.events().subrange(0, old(reg).events().len() as int));
                assert forall|e: (u32, CellPos, VoxelData)| #[trigger] self.leaf_records(cell).contains(e)
                    implies deregistrations(reg.events()).skip(deregistrations(old(reg).events()).len() as int).contains(e.0) by {
                    lemma_record_handle(self, cell, e);
                    let k = choose|k: int| 0 <= k < self.handles().len() && self.handles()[k] == e.0;
                    assert(deregistrations(reg.events()).skip(deregistrations(old(reg).events()).len() as int)[k] == e.0);
                }
            }
            return r;
        }
        let ix = path[pos];
        let ghost reg0 = registrations(reg.events());
        let ghost dereg0 = deregistrations(reg.events());
        let ghost ev0 = reg.events();
        let ghost h_self = self.handles();
        let mut v = match self {
            SVO::Voxel { data, external_id } => {
                let v = subdivide(data, external_id, reg, cell);
                proof {
                    lemma_octants_view(v);
                    lemma_accounted_subdivide(external_id, SVO::Octants(v).handles(), ids_of(reg0), dereg0);
                }
                v
            },
            SVO::Octants(v) => v,
        };
        let ghost v0 = v@;
        let ghost node0 = SVO::Octants(v);
        let ghost reg1 = registrations(reg.events());
        let ghost dereg1 = deregistrations(reg.events());
        let ghost ev1 = reg.events();
        proof {
            lemma_octants_view(v);
            assert(handles_accounted(
                h_self.to_multiset(),
                node0.handles().to_multiset(),
                ids_of(reg0).to_multiset(),
                ids_of(reg1).to_multiset(),
                dereg0.to_multiset(),
                dereg1.to_multiset(),
            ));
            assert forall|j: int| 0 <= j < 8 implies (#[trigger] v0[j])@.wf() by {
                assert(node0@->children[j] == v0[j]@);
            }
        }
        let child = v.remove(ix as usize);
        let child_cell = cell.child(ix);
        let new_child = child.set_voxel_from(reg, path, pos + 1, new_data, child_cell);
        v.insert(ix as usize, new_child);
        let node1 = SVO::Octants(v);
        let ghost reg2 = registrations(reg.events());
        let ghost dereg2 = deregistrations(reg.events());
        let ghost ev2 = reg.events();
        proof {
            assert(node1->Octants_0@ =~= v0.update(ix as int, new_child));
            assert(child == v0[ix as int]);
            lemma_children_update(v0, node1->Octants_0@, ix as int, new_child);
            lemma_octants_view(node1->Octants_0);
            assert(children_handles(v0, 8)[ix as int] == child.handles());
            lemma_accounted_child(
                children_handles(v0, 8),
                ix as int,
                new_child.handles(),
                ids_of(reg1).to_multiset(),
                ids_of(reg2).to_multiset(),
                dereg1.to_multiset(),
                dereg2.to_multiset(),
            );
            lemma_accounted_trans(
                h_self.to_multiset(),
                node0.handles().to_multiset(),
                node1.handles().to_multiset(),
                ids_of(reg0).to_multiset(),
                ids_of(reg1).to_multiset(),
                ids_of(reg2).to_multiset(),
                dereg0.to_multiset(),
                dereg1.to_multiset(),
                dereg2.to_multiset(),
            );
            assert forall|j: int| 0 <= j < 8 implies (#[trigger] node1@->children[j]).wf() by {
                if j != ix {
                    assert(node1@->children[j] == node0@->children[j]);
                }
            }
        }
        let r = node1.recombine_svo(reg, cell);
        proof {
            let cs0 = children_view(v0);
            assert(path@.subrange(pos + 1, path@.len() as int) =~= full.drop_first());
            assert(full[0] == ix);
            assert(cs0[ix as int] == child@);
            assert(forall|j: int| 0 <= j < 8 ==> #[trigger] cs0[j].wf());
            if t0 is Leaf {
                assert(cs0 =~= Seq::new(8, |i: int| Tree::Leaf { data: t0->Leaf_data }));
            }
            lemma_set_step(t0, cs0, full, new_data, new_child@);
            assert(node1@ == (Tree::Node { children: cs0.update(ix as int, new_child@) }));
            if t0.settled(full, new_data) {
                assert(t0 is Node);
                assert(children_handles(v0, 8).update(ix as int, new_child.handles()) =~= children_handles(v0, 8));
                assert(node1.handles() == h_self);
            }
            let log0 = reg0;
            let log1 = reg1;
            let log2 = reg2;
            assert(log0.is_prefix_of(log1)) by {
                if t0 is Node {
                    assert(log0 =~= log1.subrange(0, log0.len() as int));
                }
            }
            lemma_prefix_trans(log0, log1, log2);
            lemma_prefix_trans(log0, log2, registrations(reg.events()));
            if leaves_registered(s0, cell, log0) {
                let parts0 = children_records(v0, cell);
                lemma_octants_records(node0->Octants_0, cell);
                assert(node0->Octants_0@ == v0);
                assert forall|e: (u32, CellPos, VoxelData)| #[trigger] parts0.flatten().contains(e) implies log1.contains(e) by {
                    if t0 is Leaf {
                        assert(node0.leaf_records(cell).contains(e));
                    } else {
                        assert(s0 == node0);
                        assert(s0.leaf_records(cell).contains(e));
                    }
                }
                assert forall|e: (u32, CellPos, VoxelData)| #[trigger] child.leaf_records(child_cell).contains(e) implies log1.contains(e) by {
                    assert(parts0[ix as int] == child.leaf_records(child_cell));
                    lemma_flatten_contains(parts0, e);
                }
                assert(leaves_registered(child, child_cell, log1));
                lemma_records_step(v0, ix as int, new_child, cell, log1, log2);
                lemma_octants_records(node1->Octants_0, cell);
                assert(leaves_registered(node1, cell, log2));
            }
            if r != node1 {
                assert(r@ != node1@);
                assert(node1@ == (Tree::Node { children: children_view(node1->Octants_0@) }));
            }
            assert(full.drop_first() =~= path@.subrange(pos + 1, path@.len() as int));
            if r == node1 {
                assert(r@ == node1@);
            } else {
                assert(r@ == Tree::Leaf { data: children_view(node1->Octants_0@)[0]->Leaf_data });
            }
            lemma_descend_outcome(
                s0,
                full,
                new_data,
                cell,
                v0,
                new_child,
                node1,
                r,
                reg0,
                reg1,
                reg2,
                registrations(reg.events()),
                dereg0,
                dereg1,
                dereg2,
                deregistrations(reg.events()),
                ev0,
                ev1,
                ev2,
                reg.events(),
            );
            if s0 is Voxel {
                assert(ev0 =~= ev1.subrange(0, ev0.len() as int));
            } else {
                assert(ev0 =~= ev1.subrange(0, ev0.len() as int));
            }
            if r == node1 {
                assert(ev2 =~= reg.events().subrange(0, ev2.len() as int));
            } else {
                assert(ev2 =~= reg.events().subrange(0, ev2.len() as int));
            }
            lemma_prefix_trans(ev0, ev1, ev2);
            lemma_prefix_trans(ev0, ev2, reg.events());
            lemma_descend_bookkeeping(
                s0,
                full,
                cell,
                v0,
                new_child,
                node1,
                r,
                reg0,
                reg1,
                reg2,
                registrations(reg.events()),
                dereg0,
                dereg1,
                dereg2,
                deregistrations(reg.events()),
            );
            lemma_accounted_trans(
                h_self.to_multiset(),
                node1.handles().to_multiset(),
                r.handles().to_multiset(),
                ids_of(reg0).to_multiset(),
                ids_of(reg2).to_multiset(),
                registered_ids(*reg),
                dereg0.to_multiset(),
                dereg2.to_multiset(),
                deregistered_ids(*reg),
            );
        }
        r
    }
}

impl SVO {
    /// Sets the region that `path` addresses to `new_data`, splitting leaves
    /// on the way down and recombining on the way back up. Every leaf that
    /// goes away is deregistered and every leaf that is made is registered,
    /// both through `reg`, whose record keeps the order of the calls.
    pub fn set_block<R: Register + Deregister>(
        &mut self,
        reg: &mut R,
        path: &[u8],
        new_data: VoxelData,
    )
        requires
            old(reg).wf(),
            old(self)@.wf(),
            is_octant_path(path@),
            path@.len() <= MAX_DEPTH,
        ensures
            final(reg).wf(),
            final(self)@.wf(),
            // `new_data` under the path, the old data everywhere else
            forall|q: Seq<u8>|
                is_octant_path(q) && old(self)@.within(q.len()) && path@.len() <= q.len()
                    ==> #[trigger] final(self)@.value_at(q) == if path@.is_prefix_of(q) {
                    Some(new_data)
                } else {
                    old(self)@.value_at(q)
                },
            forall|n: nat|
                old(self)@.within(n) && path@.len() <= n ==> #[trigger] final(self)@.within(n),
            // no node is left with eight equal leaves
            old(self)@.coalesced() ==> final(self)@.coalesced(),
            // a second identical call changes nothing and registers nothing
            final(self)@.settled(path@, new_data),
            old(self)@.settled(path@, new_data) ==> {
                &&& final(self)@ == old(self)@
                &&& final(self).handles() == old(self).handles()
                &&& registrations(final(reg).events()) == registrations(old(reg).events())
                &&& deregistrations(final(reg).events()) == deregistrations(old(reg).events())
            },
            // live handles before + registered == live handles after + deregistered
            handles_accounted(
                old(self).handles().to_multiset(),
                final(self).handles().to_multiset(),
                registered_ids(*old(reg)),
                registered_ids(*final(reg)),
                deregistered_ids(*old(reg)),
                deregistered_ids(*final(reg)),
            ),
            // registration only appends, and every live leaf was announced
            // with its own handle, cube and data
            registrations(old(reg).events()).is_prefix_of(registrations(final(reg).events())),
            leaves_registered(*old(self), CellPos { depth: 0, x: 0, y: 0, z: 0 }, registrations(old(reg).events()))
                ==> leaves_registered(
                *final(self),
                CellPos { depth: 0, x: 0, y: 0, z: 0 },
                registrations(final(reg).events()),
            ),
            deregistrations(old(reg).events()).is_prefix_of(deregistrations(final(reg).events())),
            // in this call: live before + registered == live after + given back
            old(self).handles().to_multiset().add(
                ids_of(registrations(final(reg).events()).skip(registrations(old(reg).events()).len() as int)).to_multiset(),
            ) == final(self).handles().to_multiset().add(
                deregistrations(final(reg).events()).skip(deregistrations(old(reg).events()).len() as int).to_multiset(),
            ),
            // the number of calls grows with the path, not with the tree
            registrations(final(reg).events()).len() <= registrations(old(reg).events()).len() + 9 * path@.len() + 1,
            deregistrations(final(reg).events()).len() <= deregistrations(old(reg).events()).len() + 9 * path@.len()
                + old(self).handles_under(path@).len(),
            // a leaf whose handle was not given back stays, with its handle
            forall|e: (u32, CellPos, VoxelData)|
                #[trigger] old(self).leaf_records(CellPos { depth: 0, x: 0, y: 0, z: 0 }).contains(e)
                    && !deregistrations(final(reg).events()).skip(
                    deregistrations(old(reg).events()).len() as int,
                ).contains(e.0) ==> final(self).leaf_records(CellPos { depth: 0, x: 0, y: 0, z: 0 }).contains(e),
            // exactly: the new tree with its handles, the registrations in
            // order and the handles given back in order, given the handles
            // that `register` returned
            set_outcome(
                old(self).hview(),
                path@,
                new_data,
                CellPos { depth: 0, x: 0, y: 0, z: 0 },
                ids_of(registrations(final(reg).events()).skip(registrations(old(reg).events()).len() as int)),
            ) == (
                final(self).hview(),
                registrations(final(reg).events()).skip(registrations(old(reg).events()).len() as int),
                deregistrations(final(reg).events()).skip(deregistrations(old(reg).events()).len() as int),
                final(reg).events().skip(old(reg).events().len() as int),
            ),
            old(reg).events().is_prefix_of(final(reg).events()),
    {
        let mut tree = SVO::Voxel { data: new_data, external_id: 0 };
        std::mem::swap(self, &mut tree);
        let root = CellPos::root();
        proof {
            assert(path@.subrange(0, path@.len() as int) =~= path@);
            assert(pow2(0) == 1);
        }
        let ghost r0 = registrations(reg.events());
        let ghost d0 = deregistrations(reg.events());
        let ghost h0 = tree.handles();
        *self = tree.set_voxel_from(reg, path, 0, new_data, root);
        proof {
            lemma_per_call(h0, self.handles(), r0, registrations(reg.events()), d0, deregistrations(reg.events()));
        }
    }
}

proof fn lemma_per_call(
    h0: Seq<u32>,
    h1: Seq<u32>,
    r0: Seq<(u32, CellPos, VoxelData)>,
    r1: Seq<(u32, CellPos, VoxelData)>,
    d0: Seq<u32>,
    d1: Seq<u32>,
)
    requires
        r0.is_prefix_of(r1),
        d0.is_prefix_of(d1),
        handles_accounted(
            h0.to_multiset(),
            h1.to_multiset(),
            ids_of(r0).to_multiset(),
            ids_of(r1).to_multiset(),
            d0.to_multiset(),
            d1.to_multiset(),
        ),
    ensures
        h0.to_multiset().add(ids_of(r1.skip(r0.len() as int)).to_multiset()) == h1.to_multiset().add(
            d1.skip(d0.len() as int).to_multiset(),
        ),
{
    let rd = r1.skip(r0.len() as int);
    let dd = d1.skip(d0.len() as int);
    assert(r1 =~= r0 + rd);
    assert(d1 =~= d0 + dd);
    assert(ids_of(r1) =~= ids_of(r0) + ids_of(rd));
    lemma_multiset_commutative(ids_of(r0), ids_of(rd));
    lemma_multiset_commutative(d0, dd);
    let a = h0.to_multiset();
    let b = h1.to_multiset();
    let ro = ids_of(r0).to_multiset();
    let rn = ids_of(rd).to_multiset();
    let dol = d0.to_multiset();
    let dn = dd.to_multiset();
    assert forall|x: u32| #[trigger] a.add(rn).count(x) == b.add(dn).count(x) by {
        assert(a.add(ids_of(r1).to_multiset()).add(dol).count(x) == b.add(d1.to_multiset()).add(ro).count(x));
    }
    assert(a.add(rn) =~= b.add(dn));
}

/// What one change does to the handles, when the handles live before it
/// are distinct and `register` hands out handles not seen before (the
/// premise that no multiset count passes one); `set_block` supplies the
/// balance between the four multisets: every handle it gives back was
/// live before or registered by it, none is given back twice, none that is
/// given back is still live, and the live handles after are exactly the
/// live ones before and the registered ones, less those given back.
pub proof fn lemma_call_handles(
    live_before: Multiset<u32>,
    live_after: Multiset<u32>,
    registered: Multiset<u32>,
    given_back: Multiset<u32>,
)
    requires
        live_before.add(registered) == live_after.add(given_back),
        forall|x: u32| #[trigger] live_before.add(registered).count(x) <= 1,
    ensures
        forall|x: u32| #[trigger] given_back.count(x) <= 1,
        forall|x: u32| #[trigger] given_back.contains(x) ==> live_before.add(registered).contains(x),
        forall|x: u32| #[trigger] given_back.contains(x) ==> !live_after.contains(x),
        forall|x: u32|
            #[trigger] live_after.contains(x) <==> live_before.add(registered).contains(x) && !given_back.contains(x),
{
    assert forall|x: u32| #[trigger] given_back.count(x) <= 1 by {
        assert(live_before.add(registered).count(x) <= 1);
        assert(live_before.add(registered).count(x) == live_after.add(given_back).count(x));
        assert(live_after.add(given_back).count(x) == live_after.count(x) + given_back.count(x));
    }
    assert forall|x: u32| #[trigger] given_back.contains(x) implies !live_after.contains(x) by {
        assert(live_before.add(registered).count(x) <= 1);
        assert(live_before.add(registered).count(x) == live_after.add(given_back).count(x));
        assert(live_after.add(given_back).count(x) == live_after.count(x) + given_back.count(x));
    }
    assert forall|x: u32| #[trigger] live_after.contains(x) <==> live_before.add(registered).contains(x)
        && !given_back.contains(x) by {
        assert(live_before.add(registered).count(x) <= 1);
        assert(live_before.add(registered).count(x) == live_after.add(given_back).count(x));
        assert(live_after.add(given_back).count(x) == live_after.count(x) + given_back.count(x));
    }
    assert forall|x: u32| #[trigger] given_back.contains(x) implies live_before.add(registered).contains(x) by {
        assert(live_before.add(registered).count(x) == live_after.add(given_back).count(x));
    }
}

/// Following `path` meets a leaf holding `d`, and no node met on the way
/// has eight leaves with equal data as children.
pub open spec fn settled_h(t: HTree, path: Seq<u8>, d: VoxelData) -> bool
    decreases path.len(),
{
    match t {
        HTree::Leaf { data, .. } => data == d,
        HTree::Node { children } => {
            &&& path.len() > 0
            &&& path[0] < 8
            &&& children.len() == 8
            &&& !uniform_hleaves(children)
            &&& settled_h(children[path[0] as int], path.drop_first(), d)
        },
    }
}

/// Every internal node has eight children.
pub open spec fn hwf(t: HTree) -> bool
    decreases t,
{
    match t {
        HTree::Leaf { .. } => true,
        HTree::Node { children } => children.len() == 8 && forall|i: int|
            #![trigger children[i]]
            0 <= i < 8 ==> hwf(children[i]),
    }
}

proof fn lemma_outcome_settled(t: HTree, path: Seq<u8>, d: VoxelData, cell: CellPos, ids: Seq<u32>)
    requires
        hwf(t),
        is_octant_path(path),
    ensures
        settled_h(set_outcome(t, path, d, cell, ids).0, path, d),
        hwf(set_outcome(t, path, d, cell, ids).0),
    decreases path.len(),
{
    if t is Leaf && t->Leaf_data == d {
    } else if path.len() == 0 || path[0] >= 8 {
    } else {
        let k: int = if t is Leaf { 8 } else { 0 };
        let cs0 = if t is Leaf {
            Seq::new(8, |i: int| HTree::Leaf { data: t->Leaf_data, id: ids[i] })
        } else {
            t->Node_children
        };
        let ix = path[0] as int;
        let rest = path.drop_first();
        assert(is_octant_path(rest)) by {
            assert forall|j: int| 0 <= j < rest.len() implies #[trigger] rest[j] < 8 by {
                assert(rest[j] == path[j + 1]);
            }
        }
        assert(hwf(cs0[ix]));
        lemma_outcome_settled(cs0[ix], rest, d, cell.child_spec(path[0]), ids.skip(k));
        let sub = set_outcome(cs0[ix], rest, d, cell.child_spec(path[0]), ids.skip(k));
        let cs1 = cs0.update(ix, sub.0);
        assert forall|j: int| 0 <= j < 8 implies hwf(cs1[j]) by {
            if j == ix {
                assert(cs1[j] == sub.0);
            } else {
                assert(cs1[j] == cs0[j]);
            }
        }
        assert(hwf(HTree::Node { children: cs1 }));
        if uniform_hleaves(cs1) {
            assert(cs1[ix] == sub.0);
            assert(cs1[ix]->Leaf_data == cs1[0]->Leaf_data);
        } else {
            assert(cs1[ix] == sub.0);
        }
    }
}

proof fn lemma_settled_outcome(t: HTree, path: Seq<u8>, d: VoxelData, cell: CellPos, ids: Seq<u32>)
    requires
        settled_h(t, path, d),
    ensures
        set_outcome(t, path, d, cell, ids) == (
            t,
            Seq::<(u32, CellPos, VoxelData)>::empty(),
            Seq::<u32>::empty(),
            Seq::<RegEvent>::empty(),
        ),
    decreases path.len(),
{
    if let HTree::Node { children: cs } = t {
        let ix = path[0] as int;
        lemma_settled_outcome(cs[ix], path.drop_first(), d, cell.child_spec(path[0]), ids);
        assert(ids.skip(0) =~= ids);
        assert(cs.update(ix, cs[ix]) =~= cs);
        assert(Seq::<(u32, CellPos, VoxelData)>::empty() + Seq::<(u32, CellPos, VoxelData)>::empty() =~= Seq::<
            (u32, CellPos, VoxelData),
        >::empty());
        assert(Seq::<u32>::empty() + Seq::<u32>::empty() =~= Seq::<u32>::empty());
        assert(Seq::<RegEvent>::empty() + Seq::<RegEvent>::empty() =~= Seq::<RegEvent>::empty());
    }
}

/// Setting a region twice in a row with the same data: the second time the
/// tree and its handles stay as they are, and nothing is registered or
/// given back, whatever handles either call receives.
pub proof fn lemma_set_twice(
    t: HTree,
    path: Seq<u8>,
    d: VoxelData,
    cell: CellPos,
    ids1: Seq<u32>,
    ids2: Seq<u32>,
)
    requires
        hwf(t),
        is_octant_path(path),
    ensures
        set_outcome(set_outcome(t, path, d, cell, ids1).0, path, d, cell, ids2) == (
            set_outcome(t, path, d, cell, ids1).0,
            Seq::<(u32, CellPos, VoxelData)>::empty(),
            Seq::<u32>::empty(),
            Seq::<RegEvent>::empty(),
        ),
{
    lemma_outcome_settled(t, path, d, cell, ids1);
    lemma_settled_outcome(set_outcome(t, path, d, cell, ids1).0, path, d, cell, ids2);
}

/// No internal node's eight children are all leaves with the same data.
pub open spec fn coalesced_h(t: HTree) -> bool
    decreases t,
{
    match t {
        HTree::Leaf { .. } => true,
        HTree::Node { children } => !uniform_hleaves(children) && forall|i: int|
            #![trigger children[i]]
            0 <= i < children.len() ==> coalesced_h(children[i]),
    }
}

/// Setting a region keeps a tree coalesced, so a tree grown from a single
/// leaf by such changes never has a node with eight equal leaves as children.
pub proof fn lemma_set_keeps_coalesced(t: HTree, path: Seq<u8>, d: VoxelData, cell: CellPos, ids: Seq<u32>)
    requires
        hwf(t),
        coalesced_h(t),
        is_octant_path(path),
    ensures
        coalesced_h(set_outcome(t, path, d, cell, ids).0),
    decreases path.len(),
{
    if t is Leaf && t->Leaf_data == d {
    } else if path.len() == 0 || path[0] >= 8 {
    } else {
        let k: int = if t is Leaf { 8 } else { 0 };
        let cs0 = if t is Leaf {
            Seq::new(8, |i: int| HTree::Leaf { data: t->Leaf_data, id: ids[i] })
        } else {
            t->Node_children
        };
        let ix = path[0] as int;
        let rest = path.drop_first();
        assert(is_octant_path(rest)) by {
            assert forall|j: int| 0 <= j < rest.len() implies #[trigger] rest[j] < 8 by {
                assert(rest[j] == path[j + 1]);
            }
        }
        assert(hwf(cs0[ix]));
        assert(coalesced_h(cs0[ix]));
        lemma_set_keeps_coalesced(cs0[ix], rest, d, cell.child_spec(path[0]), ids.skip(k));
        let sub = set_outcome(cs0[ix], rest, d, cell.child_spec(path[0]), ids.skip(k));
        let cs1 = cs0.update(ix, sub.0);
        assert forall|j: int| 0 <= j < cs1.len() implies coalesced_h(cs1[j]) by {
            if j == ix {
                assert(cs1[j] == sub.0);
            } else {
                assert(cs1[j] == cs0[j]);
            }
        }
    }
}

/// A well-formed octree's handle-carrying view is well formed too, and it
/// is coalesced exactly when the octree is.
pub proof fn lemma_hview_wf(t: SVO)
    requires
        t@.wf(),
    ensures
        hwf(t.hview()),
        coalesced_h(t.hview()) == t@.coalesced(),
    decreases t@,
{
    if let SVO::Octants(v) = t {
        lemma_octants_view(v);
        lemma_octants_hview(v);
        assert forall|j: int| 0 <= j < 8 implies hwf((#[trigger] v@[j]).hview()) && coalesced_h(v@[j].hview()) == v@[j]@.coalesced() by {
            assert(t@->children[j] == v@[j]@);
            assert(decreases_to!(t@ => t@->Node_children));
            assert(decreases_to!(t@->Node_children => t@->Node_children[j]));
            lemma_hview_wf(v@[j]);
        }
        lemma_uniform_views(v@);
        let h = children_hview(v@);
        assert forall|j: int| 0 <= j < 8 implies hwf(h[j]) by {
            assert(h[j] == v@[j].hview());
        }
        if t@.coalesced() {
            assert forall|j: int| 0 <= j < 8 implies coalesced_h(h[j]) by {
                assert(h[j] == v@[j].hview());
                assert(t@->children[j] == v@[j]@);
            }
        }
        if coalesced_h(t.hview()) {
            assert forall|j: int| 0 <= j < 8 implies t@->children[j].coalesced() by {
                assert(h[j] == v@[j].hview());
                assert(t@->children[j] == v@[j]@);
            }
        }
    }
}

/// Registration stays balanced: when the live handles are exactly those
/// registered and not yet deregistered, they still are after any change
/// whose handles are accounted for; then no handle is deregistered more
/// often than it was registered, and every live handle was registered.
pub proof fn lemma_registration_balance(
    live_before: Multiset<u32>,
    live_after: Multiset<u32>,
    reg_before: Multiset<u32>,
    reg_after: Multiset<u32>,
    dereg_before: Multiset<u32>,
    dereg_after: Multiset<u32>,
)
    requires
        live_before.add(dereg_before) == reg_before,
        handles_accounted(live_before, live_after, reg_before, reg_after, dereg_before, dereg_after),
    ensures
        live_after.add(dereg_after) == reg_after,
        forall|x: u32| #[trigger] dereg_after.count(x) <= reg_after.count(x),
        forall|x: u32| #[trigger] live_after.count(x) <= reg_after.count(x),
{
    assert forall|x: u32| #[trigger] live_after.add(dereg_after).count(x) == reg_after.count(x) by {
        assert(live_before.add(reg_after).add(dereg_before).count(x) == live_after.add(dereg_after).add(
            reg_before,
        ).count(x));
        assert(live_before.add(dereg_before).count(x) == reg_before.count(x));
    }
    assert(live_after.add(dereg_after) =~= reg_after);
    assert forall|x: u32| #[trigger] dereg_after.count(x) <= reg_after.count(x) by {
        assert(live_after.add(dereg_after).count(x) == reg_after.count(x));
    }
    assert forall|x: u32| #[trigger] live_after.count(x) <= reg_after.count(x) by {
        assert(live_after.add(dereg_after).count(x) == reg_after.count(x));
    }
}

} // verus!
