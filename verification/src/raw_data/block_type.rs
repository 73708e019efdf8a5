use vstd::prelude::*;

verus! {

/// What was seen at a position.
#[allow(non_camel_case_types)]
#[derive(Clone, Copy, Debug, PartialEq, Eq, Structural)]
pub enum BlockType {
    BEDROCK,
    OTHER,
}

} // verus!
