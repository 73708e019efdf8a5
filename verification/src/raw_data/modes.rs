use vstd::prelude::*;

verus! {

/// How the server places bedrock.
#[allow(non_camel_case_types)]
#[derive(Clone, Copy, Debug, PartialEq, Eq, Structural)]
pub enum BedrockGeneration {
    /// Every position draws its own random number.
    Normal,
    /// All positions of a column on one surface share a random number.
    Paper1_18,
}

impl Default for BedrockGeneration {
    fn default() -> (r: Self)
        ensures
            r == BedrockGeneration::Normal,
    {
        BedrockGeneration::Normal
    }
}

/// Which seeds a search reports.
#[derive(Clone, Copy, Debug, PartialEq, Eq, Structural)]
pub enum OutputMode {
    WorldSeed,
    StructureSeed,
}

impl Default for OutputMode {
    fn default() -> (r: Self)
        ensures
            r == OutputMode::WorldSeed,
    {
        OutputMode::WorldSeed
    }
}

} // verus!
