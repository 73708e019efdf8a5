use vstd::prelude::*;

use crate::raw_data::block_type::BlockType;

verus! {

/// One observed position of the bedrock floor or roof.
#[derive(Clone, Copy, Debug, PartialEq, Eq, Structural)]
pub struct Block {
    pub x: i32,
    pub y: i32,
    pub z: i32,
    pub block_type: BlockType,
}

impl Block {
    pub fn new(x: i32, y: i32, z: i32, block_type: BlockType) -> (r: Self)
        ensures
            r == (Block { x, y, z, block_type }),
    {
        Block { x, y, z, block_type }
    }
}

} // verus!
