use vstd::prelude::*;

use crate::cell::{CellPos, MAX_DEPTH};
use crate::tree::{Tree, SVO};
use crate::voxel_data::VoxelData;

verus! {

/// Every leaf below a node whose cube is `cell`, in octant order, with its
/// own cube and data.
pub open spec fn leaf_list(t: Tree, cell: CellPos) -> Seq<(CellPos, VoxelData)>
    decreases t,
{
    match t {
        Tree::Leaf { data } => seq![(cell, data)],
        Tree::Node { children: cs } => if cs.len() == 8 {
            leaf_list(cs[0], cell.child_spec(0)) + leaf_list(cs[1], cell.child_spec(1)) + leaf_list(
                cs[2],
                cell.child_spec(2),
            ) + leaf_list(cs[3], cell.child_spec(3)) + leaf_list(cs[4], cell.child_spec(4)) + leaf_list(
                cs[5],
                cell.child_spec(5),
            ) + leaf_list(cs[6], cell.child_spec(6)) + leaf_list(cs[7], cell.child_spec(7))
        } else {
            Seq::empty()
        },
    }
}

/// The leaves of the first `k` children of a node whose cube is `cell`.
spec fn leaf_forest(cs: Seq<Tree>, cell: CellPos, k: int) -> Seq<(CellPos, VoxelData)>
    decreases k,
{
    if k <= 0 {
        Seq::empty()
    } else {
        leaf_forest(cs, cell, k - 1) + leaf_list(cs[k - 1], cell.child_spec((k - 1) as u8))
    }
}

proof fn lemma_leaf_forest_node(cs: Seq<Tree>, cell: CellPos)
    requires
        cs.len() == 8,
    ensures
        leaf_forest(cs, cell, 8) == leaf_list(Tree::Node { children: cs }, cell),
{
    reveal_with_fuel(leaf_forest, 9);
    assert(Seq::<(CellPos, VoxelData)>::empty() + leaf_list(cs[0], cell.child_spec(0)) =~= leaf_list(
        cs[0],
        cell.child_spec(0),
    ));
}

impl SVO {
    /// Whether no path from this node to a leaf is longer than `n`.
    pub fn within_depth(&self, n: u32) -> (r: bool)
        requires
            self@.wf(),
        ensures
            r == self@.within(n as nat),
        decreases self@,
    {
        match self {
            SVO::Voxel { .. } => true,
            SVO::Octants(v) => {
                if n == 0 {
                    return false;
                }
                let ghost cs = self@->children;
                proof {
                    assert(cs == seq![v[0]@, v[1]@, v[2]@, v[3]@, v[4]@, v[5]@, v[6]@, v[7]@]);
                }
                let mut i: usize = 0;
                while i < 8
                    invariant
                        0 <= i <= 8,
                        n > 0,
                        v.len() == 8,
                        cs.len() == 8,
                        self@ == (Tree::Node { children: cs }),
                        forall|j: int| 0 <= j < 8 ==> #[trigger] cs[j] == v@[j]@,
                        forall|j: int| 0 <= j < 8 ==> (#[trigger] cs[j]).wf(),
                        forall|j: int| 0 <= j < i ==> (#[trigger] cs[j]).within((n - 1) as nat),
                    decreases 8 - i,
                {
                    proof {
                        assert(decreases_to!(self@ => self@->Node_children));
                        assert(decreases_to!(self@->Node_children => self@->Node_children[i as int]));
                    }
                    if !v[i].within_depth(n - 1) {
                        return false;
                    }
                    i = i + 1;
                }
                true
            },
        }
    }

    /// Appends every leaf below this node, whose cube is `cell`.
    fn collect_leaves(&self, cell: CellPos, out: &mut Vec<(CellPos, VoxelData)>)
        requires
            self@.wf(),
            cell.wf(),
            self@.within((MAX_DEPTH - cell.depth) as nat),
        ensures
            final(out)@ == old(out)@ + leaf_list(self@, cell),
        decreases self@,
    {
        match self {
            SVO::Voxel { data, .. } => {
                out.push((cell, *data));
                assert(out@ =~= old(out)@ + leaf_list(self@, cell));
            },
            SVO::Octants(v) => {
                let ghost cs = self@->children;
                proof {
                    assert(cs == seq![v[0]@, v[1]@, v[2]@, v[3]@, v[4]@, v[5]@, v[6]@, v[7]@]);
                    assert(out@ =~= old(out)@ + leaf_forest(cs, cell, 0));
                }
                let mut i: u8 = 0;
                while i < 8
                    invariant
                        0 <= i <= 8,
                        v.len() == 8,
                        cs.len() == 8,
                        cell.wf(),
                        cell.depth < MAX_DEPTH,
                        self@ == (Tree::Node { children: cs }),
                        forall|j: int| 0 <= j < 8 ==> #[trigger] cs[j] == v@[j]@,
                        forall|j: int| 0 <= j < 8 ==> (#[trigger] cs[j]).wf(),
                        forall|j: int| 0 <= j < 8 ==> (#[trigger] cs[j]).within((MAX_DEPTH - cell.depth - 1) as nat),
                        out@ == old(out)@ + leaf_forest(cs, cell, i as int),
                    decreases 8 - i,
                {
                    proof {
                        assert(decreases_to!(self@ => self@->Node_children));
                        assert(decreases_to!(self@->Node_children => self@->Node_children[i as int]));
                    }
                    let child_cell = cell.child(i);
                    v[i as usize].collect_leaves(child_cell, out);
                    proof {
                        assert(out@ =~= old(out)@ + leaf_forest(cs, cell, i + 1));
                    }
                    i = i + 1;
                }
                proof {
                    lemma_leaf_forest_node(cs, cell);
                }
            },
        }
    }

    /// Every leaf of the tree in octant order, with its cube and data.
    pub fn leaves(&self) -> (r: Vec<(CellPos, VoxelData)>)
        requires
            self@.wf(),
            self@.within(MAX_DEPTH as nat),
        ensures
            r@ == leaf_list(self@, CellPos { depth: 0, x: 0, y: 0, z: 0 }),
    {
        let mut out: Vec<(CellPos, VoxelData)> = Vec::new();
        let root = CellPos::root();
        proof {
            assert(crate::cell::pow2(0) == 1);
        }
        self.collect_leaves(root, &mut out);
        assert(out@ =~= leaf_list(self@, root));
        out
    }
}

/// Whether a leaf record holds a non-empty voxel.
pub open spec fn solid() -> spec_fn((CellPos, VoxelData)) -> bool {
    |e: (CellPos, VoxelData)| !e.1.is_empty_spec()
}

impl SVO {
    /// Every non-empty leaf of the tree in octant order, with its cube and
    /// data: the leaves that a renderer draws.
    pub fn solid_leaves(&self) -> (r: Vec<(CellPos, VoxelData)>)
        requires
            self@.wf(),
            self@.within(MAX_DEPTH as nat),
        ensures
            r@ == leaf_list(self@, CellPos { depth: 0, x: 0, y: 0, z: 0 }).filter(solid()),
    {
        let all = self.leaves();
        let mut out: Vec<(CellPos, VoxelData)> = Vec::new();
        let mut i: usize = 0;
        proof {
            reveal(Seq::filter);
            assert(all@.take(0) =~= Seq::<(CellPos, VoxelData)>::empty());
        }
        while i < all.len()
            invariant
                i <= all.len(),
                out@ == all@.take(i as int).filter(solid()),
            decreases all.len() - i,
        {
            let (cell, data) = all[i];
            if !data.is_empty() {
                out.push((cell, data));
            }
            proof {
                reveal(Seq::filter);
                assert(all@.take(i + 1).drop_last() =~= all@.take(i as int));
                assert(all@.take(i + 1).last() == (cell, data));
            }
            i = i + 1;
        }
        assert(all@.take(all.len() as int) =~= all@);
        out
    }
}

} // verus!
