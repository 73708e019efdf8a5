use vstd::prelude::*;

verus! {

/// What a search reports while it runs.
#[derive(Clone, Copy, Debug, PartialEq, Eq, Structural)]
pub enum CrackProgress {
    /// A seed that explains the blocks.
    Seed(u64),
    /// That many further seeds were searched.
    Progress(u64),
}

} // verus!
