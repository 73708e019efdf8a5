//! The entries in which blocks are typed in, and what is searched for them.
use std::sync::Arc;
use vstd::prelude::*;

use crate::block_data;
use crate::plan;
use crate::plan::estimate_result_amount;
use crate::raw_data::block::Block;
use crate::raw_data::block_type::BlockType;
use crate::raw_data::modes::BedrockGeneration;
use crate::raw_data::modes::OutputMode;
use crate::text;

verus! {

/// One entry: whether nothing is typed in, the block that it stands for where it stands for one,
/// and whether it is marked as repeating or contradicting an entry above it.
#[derive(Clone, Copy, Debug, PartialEq, Eq, Structural)]
pub struct BlockEntry {
    pub empty: bool,
    pub position: Option<Block>,
    pub duplicate: bool,
}

impl BlockEntry {
    /// An entry in which nothing is typed in.
    pub open spec fn blank() -> BlockEntry {
        BlockEntry { empty: true, position: None, duplicate: false }
    }

    /// The block of the entry, if there is one, can be estimated.
    pub open spec fn wf(self) -> bool {
        self.position matches Some(b) ==> plan::measurable(b)
    }

    /// An entry in which nothing is typed in.
    pub fn new() -> (r: Self)
        ensures
            r == BlockEntry::blank(),
    {
        BlockEntry { empty: true, position: None, duplicate: false }
    }
}

/// What happens to an entry.
#[derive(Clone, Copy, Debug, PartialEq, Eq, Structural)]
pub enum BlockMessage {
    /// The entry is removed.
    Deleted,
    /// Something else is typed in.
    Changed { empty: bool, position: Option<Block> },
}

/// What happens to the tab.
#[derive(Clone, Debug)]
pub enum BdrkMessage {
    Block(usize, BlockMessage),
    CrackerMode(BedrockGeneration),
    OutputMode(OutputMode),
    /// A file with seeds is to be picked.
    LoadSeedList,
    /// The content of the file that was picked, if one was.
    LoadedSeedList(Option<String>),
    ToggleGpu(bool),
}

/// What happens to one of the tabs of the window.
#[derive(Clone, Debug)]
pub enum TabMessage {
    BdrkMessage(BdrkMessage),
}

impl vstd::std_specs::convert::FromSpecImpl<TabMessage> for BdrkMessage {
    open spec fn obeys_from_spec() -> bool {
        true
    }

    open spec fn from_spec(tab_msg: TabMessage) -> Self {
        match tab_msg {
            TabMessage::BdrkMessage(msg) => msg,
        }
    }
}

impl From<TabMessage> for BdrkMessage {
    fn from(tab_msg: TabMessage) -> Self {
        match tab_msg {
            TabMessage::BdrkMessage(msg) => msg,
        }
    }
}

/// What is to be done after a message.
#[derive(Clone, Copy, Debug, PartialEq, Eq, Structural)]
pub enum TabCommand {
    Nothing,
    /// Let a file with seeds be picked, and send its content as `BdrkMessage::LoadedSeedList`.
    PickSeedList,
}

/// What is to be done after a message.
pub open spec fn command_after(message: BdrkMessage) -> TabCommand {
    if message is LoadSeedList {
        TabCommand::PickSeedList
    } else {
        TabCommand::Nothing
    }
}

/// The blocks stand in one column and on one surface.
pub open spec fn same_column(a: Block, b: Block) -> bool {
    a.x == b.x && a.z == b.z && (a.y > 5) == (b.y > 5)
}

/// Of two different blocks in one column and on one surface, the bedrock lies on the outer side:
/// below on the floor, above on the roof.
pub open spec fn bedrock_outside(a: Block, b: Block) -> bool {
    let (bedrock, other) = if a.block_type == BlockType::BEDROCK {
        (a, b)
    } else {
        (b, a)
    };
    if a.y > 5 {
        bedrock.y > other.y
    } else {
        bedrock.y < other.y
    }
}

/// The blocks contradict each other, or one adds nothing to the other: they are in the same
/// place, or, where a column shares one random number, they are of one type or the wrong way
/// round.
pub open spec fn conflict(a: Block, b: Block, mode: BedrockGeneration) -> bool {
    same_column(a, b) && (a.y == b.y || mode == BedrockGeneration::Paper1_18 && (a.block_type
        == b.block_type || !bedrock_outside(a, b)))
}

/// The block conflicts with one of several.
pub open spec fn conflicts(block: Block, others: Seq<Block>, mode: BedrockGeneration) -> bool {
    exists|i: int| 0 <= i < others.len() && conflict(block, #[trigger] others[i], mode)
}

/// The blocks of entries, without those that conflict with a block above that was taken.
pub open spec fn taken(entries: Seq<BlockEntry>, mode: BedrockGeneration) -> Seq<Block>
    decreases entries.len(),
{
    if entries.len() == 0 {
        Seq::empty()
    } else {
        let above = taken(entries.drop_last(), mode);
        match entries.last().position {
            Some(b) => if conflicts(b, above, mode) {
                above
            } else {
                above.push(b)
            },
            None => above,
        }
    }
}

/// An entry, marked if its block conflicts with a block above that was taken. An entry without a
/// block keeps its mark.
pub open spec fn marked(
    entries: Seq<BlockEntry>,
    i: int,
    mode: BedrockGeneration,
) -> BlockEntry {
    match entries[i].position {
        Some(b) => BlockEntry {
            duplicate: conflicts(b, taken(entries.take(i), mode), mode),
            ..entries[i]
        },
        None => entries[i],
    }
}

/// All entries, marked.
pub open spec fn all_marked(entries: Seq<BlockEntry>, mode: BedrockGeneration) -> Seq<BlockEntry> {
    Seq::new(entries.len(), |i: int| marked(entries, i, mode))
}

/// The entries, with an empty one at the end.
pub open spec fn with_entry(entries: Seq<BlockEntry>) -> Seq<BlockEntry> {
    if entries.len() > 0 && entries.last().empty {
        entries
    } else {
        entries.push(BlockEntry::blank())
    }
}

/// The number of seeds that blocks are expected to leave, one at least.
pub open spec fn estimate(blocks: Seq<Block>) -> u64 {
    let power = block_data::filter_power(
        plan::filters_of(blocks, BedrockGeneration::Normal),
    );
    if power == 0 {
        1
    } else {
        power
    }
}

/// The state of the tab.
#[derive(Debug)]
pub struct BdrkTab {
    pub estimated_seeds: u64,
    pub blocks: Vec<BlockEntry>,
    pub valid_blocks: Vec<Block>,
    pub mode: BedrockGeneration,
    pub output_mode: OutputMode,
    pub seed_list: Arc<Vec<u64>>,
    pub use_gpu: bool,
}

impl Default for BdrkTab {
    fn default() -> (r: Self)
        ensures
            r.wf(),
            r.estimated_seeds == 0,
            r.blocks@.len() == 0,
            r.valid_blocks@.len() == 0,
            r.mode == BedrockGeneration::Normal,
            r.output_mode == OutputMode::WorldSeed,
            r.seed_list@.len() == 0,
            !r.use_gpu,
    {
        BdrkTab {
            estimated_seeds: 0,
            blocks: Vec::new(),
            valid_blocks: Vec::new(),
            mode: BedrockGeneration::Normal,
            output_mode: OutputMode::WorldSeed,
            seed_list: Arc::new(Vec::new()),
            use_gpu: false,
        }
    }
}

impl BdrkTab {
    /// The blocks of all entries can be estimated.
    pub open spec fn wf(self) -> bool {
        forall|i: int| 0 <= i < self.blocks@.len() ==> (#[trigger] self.blocks@[i]).wf()
    }

    /// The tab before anything is typed in.
    pub fn new() -> (r: Self)
        ensures
            r.wf(),
            r.estimated_seeds == 0x1_0000_0000_0000,
            r.blocks@ == seq![BlockEntry::blank()],
            r.valid_blocks@ == Seq::<Block>::empty(),
            r.mode == BedrockGeneration::Normal,
            r.output_mode == OutputMode::WorldSeed,
            r.seed_list@ == Seq::<u64>::empty(),
            !r.use_gpu,
    {
        let mut blocks: Vec<BlockEntry> = Vec::new();
        blocks.push(BlockEntry::new());
        BdrkTab {
            estimated_seeds: 0x1_0000_0000_0000,
            blocks,
            valid_blocks: Vec::new(),
            mode: BedrockGeneration::Normal,
            output_mode: OutputMode::WorldSeed,
            seed_list: Arc::new(Vec::new()),
            use_gpu: false,
        }
    }

    /// Whether a block conflicts with one of the blocks that were taken.
    pub fn check_invalid(block: &Block, valid_blocks: &[Block], mode: BedrockGeneration) -> (r: bool)
        ensures
            r == conflicts(*block, valid_blocks@, mode),
    {
        let mut i: usize = 0;
        while i < valid_blocks.len()
            invariant
                i <= valid_blocks@.len(),
                forall|k: int|
                    0 <= k < i ==> !conflict(*block, #[trigger] valid_blocks@[k], mode),
            decreases valid_blocks@.len() - i,
        {
            let valid_block: Block = valid_blocks[i];
            if block.x == valid_block.x && block.z == valid_block.z && (block.y > 5) == (
            valid_block.y > 5) {
                if block.y == valid_block.y {
                    assert(conflict(*block, valid_blocks@[i as int], mode));
                    return true;
                }
                if mode == BedrockGeneration::Paper1_18 {
                    if block.block_type == valid_block.block_type {
                        assert(conflict(*block, valid_blocks@[i as int], mode));
                        return true;
                    }
                    let (mut y1, mut y2): (i32, i32) = (valid_block.y, block.y);
                    if (y1 > 5) != (block.block_type == BlockType::OTHER) {
                        y1 = block.y;
                        y2 = valid_block.y;
                    }
                    if y1 <= y2 {
                        assert(conflict(*block, valid_blocks@[i as int], mode));
                        return true;
                    }
                }
            }
            i += 1;
        }
        false
    }

    /// Adds an empty entry unless the last one is empty.
    pub fn add_entry(&mut self)
        requires
            old(self).wf(),
        ensures
            final(self).wf(),
            final(self).blocks@ == with_entry(old(self).blocks@),
            final(self).estimated_seeds == old(self).estimated_seeds,
            final(self).valid_blocks@ == old(self).valid_blocks@,
            final(self).mode == old(self).mode,
            final(self).output_mode == old(self).output_mode,
            final(self).seed_list@ == old(self).seed_list@,
            final(self).use_gpu == old(self).use_gpu,
    {
        if self.blocks.len() > 0 {
            if !self.blocks[self.blocks.len() - 1].empty {
                self.blocks.push(BlockEntry::new());
            }
        } else {
            self.blocks.push(BlockEntry::new());
        }
    }

    /// Takes the blocks of the entries, and marks entries that conflict with one above.
    pub fn update_invalid_states(&mut self)
        requires
            old(self).wf(),
        ensures
            final(self).wf(),
            final(self).blocks@ == all_marked(old(self).blocks@, old(self).mode),
            final(self).valid_blocks@ == taken(old(self).blocks@, old(self).mode),
            forall|i: int|
                0 <= i < final(self).valid_blocks@.len() ==> plan::measurable(
                    #[trigger] final(self).valid_blocks@[i],
                ),
            final(self).estimated_seeds == old(self).estimated_seeds,
            final(self).mode == old(self).mode,
            final(self).output_mode == old(self).output_mode,
            final(self).seed_list@ == old(self).seed_list@,
            final(self).use_gpu == old(self).use_gpu,
    {
        let ghost entries = self.blocks@;
        let mut valid_blocks: Vec<Block> = Vec::new();
        let mut i: usize = 0;
        proof {
            assert(entries.take(0) == Seq::<BlockEntry>::empty());
        }
        while i < self.blocks.len()
            invariant
                i <= self.blocks@.len() == entries.len(),
                entries == old(self).blocks@,
                old(self).wf(),
                forall|k: int|
                    0 <= k < i ==> #[trigger] self.blocks@[k] == marked(entries, k, self.mode),
                forall|k: int| i <= k < entries.len() ==> #[trigger] self.blocks@[k] == entries[k],
                valid_blocks@ == taken(entries.take(i as int), self.mode),
                forall|k: int|
                    0 <= k < valid_blocks@.len() ==> plan::measurable(#[trigger] valid_blocks@[k]),
                self.estimated_seeds == old(self).estimated_seeds,
                self.valid_blocks@ == old(self).valid_blocks@,
                self.mode == old(self).mode,
                self.output_mode == old(self).output_mode,
                self.seed_list@ == old(self).seed_list@,
                self.use_gpu == old(self).use_gpu,
            decreases entries.len() - i,
        {
            let entry: BlockEntry = self.blocks[i];
            proof {
                assert(entry == entries[i as int]);
                assert(entry.wf());
                assert(entries.take(i + 1).drop_last() == entries.take(i as int));
                assert(entries.take(i + 1).last() == entry);
            }
            match entry.position {
                Some(block) => {
                    let invalid: bool = Self::check_invalid(
                        &block,
                        valid_blocks.as_slice(),
                        self.mode,
                    );
                    if !invalid {
                        valid_blocks.push(block);
                    }
                    self.blocks.set(
                        i,
                        BlockEntry {
                            empty: entry.empty,
                            position: entry.position,
                            duplicate: invalid,
                        },
                    );
                },
                None => {},
            }
            i += 1;
        }
        proof {
            assert(entries.take(i as int) == entries);
            assert(self.blocks@ == all_marked(entries, self.mode));
            assert forall|k: int| 0 <= k < self.blocks@.len() implies (
            #[trigger] self.blocks@[k]).wf() by {
                assert(entries[k].wf());
            }
        }
        self.valid_blocks = valid_blocks;
    }

    /// What the entries, the taken blocks and the estimate become once the entries are these.
    pub open spec fn refreshed(self, entries: Seq<BlockEntry>) -> bool {
        let all = with_entry(entries);
        &&& self.blocks@ == all_marked(all, self.mode)
        &&& self.valid_blocks@ == taken(all, self.mode)
        &&& self.estimated_seeds == estimate(taken(all, self.mode))
    }

    /// Brings the marks, the taken blocks and the estimate up to date.
    pub fn update_blocks(&mut self)
        requires
            old(self).wf(),
        ensures
            final(self).wf(),
            final(self).refreshed(old(self).blocks@),
            final(self).mode == old(self).mode,
            final(self).output_mode == old(self).output_mode,
            final(self).seed_list@ == old(self).seed_list@,
            final(self).use_gpu == old(self).use_gpu,
    {
        self.add_entry();
        self.update_invalid_states();
        let estimated: u64 = estimate_result_amount(self.valid_blocks.as_slice());
        self.estimated_seeds = if estimated == 0 {
            1
        } else {
            estimated
        };
    }

    /// Replaces the entries by those of a configuration.
    pub fn load_config(&mut self, entries: Vec<BlockEntry>)
        requires
            forall|i: int| 0 <= i < entries@.len() ==> (#[trigger] entries@[i]).wf(),
        ensures
            final(self).wf(),
            final(self).refreshed(entries@),
            final(self).mode == old(self).mode,
            final(self).output_mode == old(self).output_mode,
            final(self).seed_list@ == old(self).seed_list@,
            final(self).use_gpu == old(self).use_gpu,
    {
        self.blocks = entries;
        self.update_blocks();
    }

    /// The message of the button for the seed list, which loads a list where none is loaded and
    /// unloads it otherwise.
    pub fn seed_list_message(&self) -> (r: BdrkMessage)
        ensures
            r == (if self.seed_list@.len() == 0 {
                BdrkMessage::LoadSeedList
            } else {
                BdrkMessage::LoadedSeedList(None)
            }),
    {
        if self.seed_list.len() == 0 {
            BdrkMessage::LoadSeedList
        } else {
            BdrkMessage::LoadedSeedList(None)
        }
    }

    /// The message can be handled: an entry that is removed exists, and a block that is typed
    /// into an entry can be estimated.
    pub open spec fn accepts(self, message: BdrkMessage) -> bool {
        match message {
            BdrkMessage::Block(index, BlockMessage::Deleted) => index < self.blocks@.len(),
            BdrkMessage::Block(index, BlockMessage::Changed { empty, position }) => {
                index < self.blocks@.len() ==> (BlockEntry {
                    empty,
                    position,
                    duplicate: false,
                }).wf()
            },
            _ => true,
        }
    }

    /// Handles a message.
    pub fn update(&mut self, message: BdrkMessage) -> (r: TabCommand)
        requires
            old(self).wf(),
            old(self).accepts(message),
        ensures
            final(self).wf(),
            r == command_after(message),
            final(self).settings() == old(self).settings_after(message),
            match old(self).entries_after(message) {
                Some(entries) => final(self).refreshed(entries),
                None => {
                    &&& final(self).blocks@ == old(self).blocks@
                    &&& final(self).valid_blocks@ == old(self).valid_blocks@
                    &&& final(self).estimated_seeds == old(self).estimated_seeds
                },
            },
    {
        match message {
            BdrkMessage::Block(index, BlockMessage::Deleted) => {
                let ghost before = self.blocks@;
                self.blocks.remove(index);
                proof {
                    assert forall|k: int| 0 <= k < self.blocks@.len() implies (
                    #[trigger] self.blocks@[k]).wf() by {
                        if k < index {
                            assert(before[k].wf());
                        } else {
                            assert(before[k + 1].wf());
                        }
                    }
                }
                self.update_blocks();
            },
            BdrkMessage::Block(index, BlockMessage::Changed { empty, position }) => {
                if index < self.blocks.len() {
                    let duplicate: bool = self.blocks[index].duplicate;
                    self.blocks.set(index, BlockEntry { empty, position, duplicate });
                    self.update_blocks();
                }
            },
            BdrkMessage::CrackerMode(mode) => {
                self.mode = mode;
                self.update_blocks();
            },
            BdrkMessage::OutputMode(mode) => {
                self.output_mode = mode;
            },
            BdrkMessage::LoadSeedList => {
                return TabCommand::PickSeedList;
            },
            BdrkMessage::LoadedSeedList(seed_file) => {
                match seed_file {
                    Some(seeds) => {
                        self.seed_list = Arc::new(text::parse_seed_list(seeds.as_str()));
                    },
                    None => {
                        self.seed_list = Arc::new(Vec::new());
                    },
                }
            },
            BdrkMessage::ToggleGpu(val) => {
                self.use_gpu = val;
            },
        }
        TabCommand::Nothing
    }

    /// The modes, whether the graphics processor is used, and the list of seeds.
    pub open spec fn settings(self) -> (BedrockGeneration, OutputMode, bool, Seq<u64>) {
        (self.mode, self.output_mode, self.use_gpu, self.seed_list@)
    }

    /// The settings that a message leaves.
    pub open spec fn settings_after(self, message: BdrkMessage) -> (
        BedrockGeneration,
        OutputMode,
        bool,
        Seq<u64>,
    ) {
        (
            match message {
                BdrkMessage::CrackerMode(mode) => mode,
                _ => self.mode,
            },
            match message {
                BdrkMessage::OutputMode(mode) => mode,
                _ => self.output_mode,
            },
            match message {
                BdrkMessage::ToggleGpu(val) => val,
                _ => self.use_gpu,
            },
            match message {
                BdrkMessage::LoadedSeedList(Some(file)) => text::numbers(
                    text::lines(text::utf8(file@)),
                ),
                BdrkMessage::LoadedSeedList(None) => Seq::empty(),
                _ => self.seed_list@,
            },
        )
    }

    /// The entries that a message leaves, before they are marked, where it touches them or the way
    /// in which they are compared.
    pub open spec fn entries_after(self, message: BdrkMessage) -> Option<Seq<BlockEntry>> {
        match message {
            BdrkMessage::Block(index, BlockMessage::Deleted) => Some(
                self.blocks@.remove(index as int),
            ),
            BdrkMessage::Block(index, BlockMessage::Changed { empty, position }) => {
                if index < self.blocks@.len() {
                    Some(
                        self.blocks@.update(
                            index as int,
                            BlockEntry {
                                empty,
                                position,
                                duplicate: self.blocks@[index as int].duplicate,
                            },
                        ),
                    )
                } else {
                    None
                }
            },
            BdrkMessage::CrackerMode(mode) => Some(self.blocks@),
            _ => None,
        }
    }
}

} // verus!
