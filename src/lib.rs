use vstd::prelude::*;

pub mod cell;
pub mod codec;
pub mod ffi_types;
pub mod height_map;
pub mod leaves;
pub mod mouse;
pub mod registration;
mod seq_lemmas;
pub mod set_block;
pub mod tree;
pub mod voxel_data;

verus! {

} // verus!
