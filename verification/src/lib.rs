use vstd::prelude::*;

pub mod point;
pub mod extent;
pub mod array;
pub mod bytes;
pub mod codec;
pub mod compression;
pub mod storage;
pub mod compressible;
pub mod chunk_map;
pub mod small_key;
pub mod octree;
pub mod clipmap;

verus! {

/// Used in many generic algorithms to check if a voxel is considered empty.
pub trait IsEmpty {
    fn is_empty(&self) -> bool;
}

impl IsEmpty for bool {
    fn is_empty(&self) -> (r: bool)
        ensures
            r == !*self,
    {
        !*self
    }
}

} // verus!
