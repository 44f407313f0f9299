use vstd::prelude::*;

verus! {

/// The content of one homogeneous region. Voxel type `0` is the empty
/// sentinel, which ray queries pass through.
#[derive(Clone, Copy, Debug, PartialEq, Eq, Structural)]
pub struct VoxelData {
    pub voxel_type: i32,
}

/// The voxel type that marks an empty region.
pub const EMPTY_VOXEL_TYPE: i32 = 0;

impl VoxelData {
    pub fn new(voxel_type: i32) -> (r: VoxelData)
        ensures
            r.voxel_type == voxel_type,
    {
        VoxelData { voxel_type }
    }

    pub open spec fn is_empty_spec(self) -> bool {
        self.voxel_type == EMPTY_VOXEL_TYPE
    }

    /// Whether this is the empty sentinel.
    pub fn is_empty(&self) -> (r: bool)
        ensures
            r == self.is_empty_spec(),
    {
        self.voxel_type == EMPTY_VOXEL_TYPE
    }
}

} // verus!
