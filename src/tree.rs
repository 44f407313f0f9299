use vstd::prelude::*;

use crate::cell::CellPos;
use crate::voxel_data::VoxelData;

verus! {

/// The mathematical picture of an octree: the data of each leaf and the
/// shape, without the handles that leaves hold.
pub enum Tree {
    Leaf { data: VoxelData },
    Node { children: Seq<Tree> },
}

impl Tree {
    /// Every internal node has exactly eight children.
    pub open spec fn wf(self) -> bool
        decreases self,
    {
        match self {
            Tree::Leaf { .. } => true,
            Tree::Node { children } => children.len() == 8 && forall|i: int|
                #![trigger children[i]]
                0 <= i < children.len() ==> children[i].wf(),
        }
    }

    /// No internal node's eight children are all leaves holding the same data.
    pub open spec fn coalesced(self) -> bool
        decreases self,
    {
        match self {
            Tree::Leaf { .. } => true,
            Tree::Node { children } => !uniform_leaves(children) && forall|i: int|
                #![trigger children[i]]
                0 <= i < children.len() ==> children[i].coalesced(),
        }
    }

    /// No path from the root to a leaf is longer than `n`.
    pub open spec fn within(self, n: nat) -> bool
        decreases self,
    {
        match self {
            Tree::Leaf { .. } => true,
            Tree::Node { children } => n > 0 && forall|i: int|
                #![trigger children[i]]
                0 <= i < children.len() ==> children[i].within((n - 1) as nat),
        }
    }

    /// The data of the leaf that the octant path `q` leads into, if `q` is
    /// long enough to reach one.
    pub open spec fn value_at(self, q: Seq<u8>) -> Option<VoxelData>
        decreases q.len(),
    {
        match self {
            Tree::Leaf { data } => Some(data),
            Tree::Node { children } => if q.len() == 0 || q[0] >= 8 || children.len() != 8 {
                None
            } else {
                children[q[0] as int].value_at(q.drop_first())
            },
        }
    }

    /// Following `path` from this node meets a leaf holding `d`, and no
    /// internal node met on the way has eight equal leaves as children.
    pub open spec fn settled(self, path: Seq<u8>, d: VoxelData) -> bool
        decreases path.len(),
    {
        match self {
            Tree::Leaf { data } => data == d,
            Tree::Node { children } => {
                &&& path.len() > 0
                &&& path[0] < 8
                &&& children.len() == 8
                &&& !uniform_leaves(children)
                &&& children[path[0] as int].settled(path.drop_first(), d)
            },
        }
    }
}

/// Eight children that are all leaves with the same data.
pub open spec fn uniform_leaves(children: Seq<Tree>) -> bool {
    &&& children.len() == 8
    &&& children[0] is Leaf
    &&& forall|i: int| 0 <= i < 8 ==> #[trigger] children[i] == children[0]
}

/// An octree with the handle that each leaf holds.
pub enum HTree {
    Leaf { data: VoxelData, id: u32 },
    Node { children: Seq<HTree> },
}

impl HTree {
    /// The handles of all leaves, depth first in octant order.
    pub open spec fn handles(self) -> Seq<u32>
        decreases self,
    {
        match self {
            HTree::Leaf { id, .. } => seq![id],
            HTree::Node { children: cs } => if cs.len() == 8 {
                seq![
                    cs[0].handles(),
                    cs[1].handles(),
                    cs[2].handles(),
                    cs[3].handles(),
                    cs[4].handles(),
                    cs[5].handles(),
                    cs[6].handles(),
                    cs[7].handles(),
                ].flatten()
            } else {
                Seq::empty()
            },
        }
    }
}

/// Eight children that are all leaves with the same data.
pub open spec fn uniform_hleaves(cs: Seq<HTree>) -> bool {
    &&& cs.len() == 8
    &&& cs[0] is Leaf
    &&& forall|i: int| 0 <= i < 8 ==> (#[trigger] cs[i]) is Leaf && cs[i]->Leaf_data == cs[0]->Leaf_data
}

/// A sparse voxel octree. Each node covers a cube; a `Voxel` fills its cube
/// with one value and holds the handle that registration gave it, and
/// `Octants` splits its cube into eight children in octant order.
pub enum SVO {
    Voxel { data: VoxelData, external_id: u32 },
    Octants(Vec<SVO>),
}

impl View for SVO {
    type V = Tree;

    open spec fn view(&self) -> Tree
        decreases self,
    {
        match self {
            SVO::Voxel { data, .. } => Tree::Leaf { data: *data },
            SVO::Octants(v) => Tree::Node {
                children: if v.len() == 8 {
                    seq![v[0].view(), v[1].view(), v[2].view(), v[3].view(), v[4].view(), v[5].view(), v[6].view(), v[7].view()]
                } else {
                    Seq::empty()
                },
            },
        }
    }
}

impl SVO {
    /// The tree with the handle of each leaf.
    pub open spec fn hview(&self) -> HTree
        decreases self,
    {
        match self {
            SVO::Voxel { data, external_id } => HTree::Leaf { data: *data, id: *external_id },
            SVO::Octants(v) => HTree::Node {
                children: if v.len() == 8 {
                    seq![v[0].hview(), v[1].hview(), v[2].hview(), v[3].hview(), v[4].hview(), v[5].hview(), v[6].hview(), v[7].hview()]
                } else {
                    Seq::empty()
                },
            },
        }
    }

    /// The handles of all leaves, depth first in octant order.
    pub open spec fn handles(&self) -> Seq<u32>
        decreases self,
    {
        match self {
            SVO::Voxel { external_id, .. } => seq![*external_id],
            SVO::Octants(v) => if v.len() == 8 {
                seq![
                    v[0].handles(),
                    v[1].handles(),
                    v[2].handles(),
                    v[3].handles(),
                    v[4].handles(),
                    v[5].handles(),
                    v[6].handles(),
                    v[7].handles(),
                ].flatten()
            } else {
                Seq::empty()
            },
        }
    }

    /// Each leaf below this node, whose cube is `cell`, as its handle, its
    /// own cube and its data, depth first in octant order.
    pub open spec fn leaf_records(&self, cell: CellPos) -> Seq<(u32, CellPos, VoxelData)>
        decreases self,
    {
        match self {
            SVO::Voxel { data, external_id } => seq![(*external_id, cell, *data)],
            SVO::Octants(v) => if v.len() == 8 {
                seq![
                    v[0].leaf_records(cell.child_spec(0)),
                    v[1].leaf_records(cell.child_spec(1)),
                    v[2].leaf_records(cell.child_spec(2)),
                    v[3].leaf_records(cell.child_spec(3)),
                    v[4].leaf_records(cell.child_spec(4)),
                    v[5].leaf_records(cell.child_spec(5)),
                    v[6].leaf_records(cell.child_spec(6)),
                    v[7].leaf_records(cell.child_spec(7)),
                ].flatten()
            } else {
                Seq::empty()
            },
        }
    }

    /// The handles that a change at the end of `path` may give back: those
    /// under the node that the path reaches, or the handle of the leaf that
    /// it meets first.
    pub open spec fn handles_under(&self, path: Seq<u8>) -> Seq<u32>
        decreases path.len(),
    {
        match self {
            SVO::Voxel { .. } => self.handles(),
            SVO::Octants(v) => if path.len() == 0 || path[0] >= 8 || v.len() != 8 {
                self.handles()
            } else {
                v[path[0] as int].handles_under(path.drop_first())
            },
        }
    }

    /// A single leaf holding `data` and the handle `external_id`.
    pub fn new_voxel(data: VoxelData, external_id: u32) -> (r: SVO)
        ensures
            r == (SVO::Voxel { data, external_id }),
            r@ == (Tree::Leaf { data }),
            r.handles() == seq![external_id],
    {
        SVO::Voxel { data, external_id }
    }

    /// An internal node whose child `i` is `make_octant(i)`.
    pub fn new_octants<F: Fn(u8) -> SVO>(make_octant: F) -> (r: SVO)
        requires
            forall|i: u8| i < 8 ==> #[trigger] make_octant.requires((i,)),
        ensures
            r is Octants,
            r->Octants_0.len() == 8,
            forall|i: int| 0 <= i < 8 ==> make_octant.ensures((i as u8,), #[trigger] r->Octants_0[i]),
    {
        let mut v: Vec<SVO> = Vec::new();
        let mut i: u8 = 0;
        while i < 8
            invariant
                i <= 8,
                v.len() == i,
                forall|i: u8| i < 8 ==> #[trigger] make_octant.requires((i,)),
                forall|j: int| 0 <= j < i ==> make_octant.ensures((j as u8,), #[trigger] v[j]),
            decreases 8 - i,
        {
            let child = make_octant(i);
            v.push(child);
            i = i + 1;
        }
        SVO::Octants(v)
    }

    /// A node whose eight unregistered leaves hold the voxel types
    /// `1, 1, 1, 0, 1, 1, 0, 0` in octant order.
    pub fn example() -> (r: SVO)
        ensures
            r@ == (Tree::Node {
                children: seq![1i32, 1, 1, 0, 1, 1, 0, 0].map_values(
                    |t: i32| Tree::Leaf { data: VoxelData { voxel_type: t } },
                ),
            }),
            r@.wf(),
    {
        let types: [i32; 8] = [1, 1, 1, 0, 1, 1, 0, 0];
        let mut v: Vec<SVO> = Vec::new();
        let mut i: usize = 0;
        while i < 8
            invariant
                i <= 8,
                v.len() == i,
                types@ == seq![1i32, 1, 1, 0, 1, 1, 0, 0],
                forall|j: int| 0 <= j < i ==> (#[trigger] v@[j])@ == (Tree::Leaf { data: VoxelData { voxel_type: types@[j] } }),
            decreases 8 - i,
        {
            v.push(SVO::new_voxel(VoxelData::new(types[i]), 0));
            i = i + 1;
        }
        let r = SVO::Octants(v);
        assert(r@->children =~= seq![1i32, 1, 1, 0, 1, 1, 0, 0].map_values(
            |t: i32| Tree::Leaf { data: VoxelData { voxel_type: t } },
        ));
        assert forall|j: int| 0 <= j < 8 implies (#[trigger] r@->children[j]).wf() by {
            assert(r@->children[j] is Leaf);
        }
        r
    }

    /// The data of a leaf, or `None` for an internal node.
    pub fn get_voxel_data(&self) -> (r: Option<VoxelData>)
        ensures
            r == (match self@ {
                Tree::Leaf { data } => Some(data),
                Tree::Node { .. } => None::<VoxelData>,
            }),
    {
        match self {
            SVO::Voxel { data, .. } => Some(*data),
            SVO::Octants(_) => None,
        }
    }
}

} // verus!
