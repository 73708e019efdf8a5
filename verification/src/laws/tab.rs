//! What holds of the entries of a tab.
use vstd::prelude::*;

use crate::block_data;
use crate::laws::filters;
use crate::plan;
use crate::raw_data::block::Block;
use crate::raw_data::block_type::BlockType;
use crate::raw_data::modes::BedrockGeneration;
use crate::raw_data::modes::OutputMode;
use crate::tab;
use crate::tab::BdrkMessage;
use crate::tab::BdrkTab;
use crate::tab::BlockEntry;
use crate::tab::BlockMessage;
use crate::tab::TabCommand;
use crate::text;

verus! {

/// It does not matter which of two blocks is compared with the other.
pub proof fn law_conflicts_are_mutual(a: Block, b: Block, mode: BedrockGeneration)
    ensures
        tab::conflict(a, b, mode) == tab::conflict(b, a, mode),
{
}

/// No two of the blocks that are taken conflict.
pub proof fn law_taken_blocks_do_not_conflict(
    entries: Seq<BlockEntry>,
    mode: BedrockGeneration,
    i: int,
    j: int,
)
    requires
        0 <= i < tab::taken(entries, mode).len(),
        0 <= j < tab::taken(entries, mode).len(),
        i != j,
    ensures
        !tab::conflict(tab::taken(entries, mode)[i], tab::taken(entries, mode)[j], mode),
    decreases entries.len(),
{
    let blocks = tab::taken(entries, mode);
    let above = tab::taken(entries.drop_last(), mode);
    law_conflicts_are_mutual(blocks[i], blocks[j], mode);
    if i < above.len() && j < above.len() {
        law_taken_blocks_do_not_conflict(entries.drop_last(), mode, i, j);
    }
}

/// Every block that is not taken conflicts with one that is.
pub proof fn law_left_out_blocks_conflict(
    entries: Seq<BlockEntry>,
    mode: BedrockGeneration,
    i: int,
)
    requires
        0 <= i < entries.len(),
        entries[i].position is Some,
    ensures
        tab::taken(entries, mode).contains(entries[i].position->0) || tab::conflicts(
            entries[i].position->0,
            tab::taken(entries, mode),
            mode,
        ),
    decreases entries.len(),
{
    let above = tab::taken(entries.drop_last(), mode);
    let all = tab::taken(entries, mode);
    let b = entries[i].position->0;
    assert forall|k: int| 0 <= k < above.len() implies above[k] == all[k] by {}
    if i < entries.len() - 1 {
        law_left_out_blocks_conflict(entries.drop_last(), mode, i);
        if above.contains(b) {
            let k = above.index_of(b);
            assert(all[k] == b);
        } else {
            let k = choose|k: int|
                0 <= k < above.len() && tab::conflict(b, #[trigger] above[k], mode);
            assert(tab::conflict(b, all[k], mode));
        }
    } else if tab::conflicts(b, above, mode) {
        assert(all == above);
    } else {
        assert(all[above.len() as int] == b);
    }
}

/// After the marks are brought up to date, an entry with a block is marked exactly if its block
/// conflicts with a block taken from the entries above it, and marking again changes nothing.
pub proof fn law_marking_twice_is_marking_once(entries: Seq<BlockEntry>, mode: BedrockGeneration)
    ensures
        tab::taken(tab::all_marked(entries, mode), mode) == tab::taken(entries, mode),
        tab::all_marked(tab::all_marked(entries, mode), mode) == tab::all_marked(entries, mode),
{
    let once = tab::all_marked(entries, mode);
    lemma_marks_do_not_matter(once, entries, mode);
    let twice = tab::all_marked(once, mode);
    assert forall|i: int| 0 <= i < once.len() implies twice[i] == once[i] by {
        lemma_marks_do_not_matter(once.take(i), entries.take(i), mode);
    }
    assert(twice == once);
}

proof fn lemma_marks_do_not_matter(
    a: Seq<BlockEntry>,
    b: Seq<BlockEntry>,
    mode: BedrockGeneration,
)
    requires
        a.len() == b.len(),
        forall|i: int| 0 <= i < a.len() ==> (#[trigger] a[i]).position == b[i].position,
    ensures
        tab::taken(a, mode) == tab::taken(b, mode),
    decreases a.len(),
{
    if a.len() > 0 {
        assert(a.last() == a[a.len() - 1]);
        lemma_marks_do_not_matter(a.drop_last(), b.drop_last(), mode);
    }
}

/// The last entry is empty, so that a further block can be typed in.
pub proof fn law_last_entry_is_empty(entries: Seq<BlockEntry>, mode: BedrockGeneration)
    ensures
        tab::with_entry(entries).len() > 0,
        tab::with_entry(entries).last().empty,
        tab::all_marked(tab::with_entry(entries), mode).last().empty,
        tab::with_entry(tab::with_entry(entries)) == tab::with_entry(entries),
{
}

/// Where a column shares one draw, two different blocks of its random layers conflict exactly if
/// the draws that explain the one and those that explain the other do not overlap.
pub proof fn law_conflicts_are_contradictions(a: Block, b: Block)
    requires
        tab::same_column(a, b),
        a.block_type != b.block_type,
        1 <= a.y <= 4 && 1 <= b.y <= 4 || 123 <= a.y <= 126 && 123 <= b.y <= 126,
    ensures
        ({
            let f = block_data::filter_of(a, BedrockGeneration::Paper1_18);
            let g = block_data::filter_of(b, BedrockGeneration::Paper1_18);
            &&& f.pos_hash == g.pos_hash
            &&& tab::conflict(a, b, BedrockGeneration::Paper1_18) <==> !(f.lower_bound
                < g.upper_bound && g.lower_bound < f.upper_bound)
        }),
{
    filters::law_thresholds_are_exact(block_data::fifths(a.y as int));
    filters::law_thresholds_are_exact(block_data::fifths(b.y as int));
}

/// Two blocks in the same place conflict in every mode, whatever their types. Where each position
/// draws its own number, no others do. Where a column shares a number, two blocks of a column on
/// one surface conflict exactly if they are in the same place, of the same type, or the bedrock
/// does not lie below the other one on the floor or above it on the roof. Blocks of different
/// columns or surfaces never conflict.
pub proof fn law_which_blocks_conflict(a: Block, b: Block, mode: BedrockGeneration)
    ensures
        a.x == b.x && a.y == b.y && a.z == b.z ==> tab::conflict(a, b, mode),
        mode == BedrockGeneration::Normal ==> (tab::conflict(a, b, mode) <==> a.x == b.x && a.y
            == b.y && a.z == b.z),
        a.x != b.x || a.z != b.z || (a.y > 5 && b.y <= 5) || (a.y <= 5 && b.y > 5)
            ==> !tab::conflict(a, b, mode),
        mode == BedrockGeneration::Paper1_18 && a.x == b.x && a.z == b.z && a.block_type
            == b.block_type && ((a.y > 5 && b.y > 5) || (a.y <= 5 && b.y <= 5)) ==> tab::conflict(
            a,
            b,
            mode,
        ),
        mode == BedrockGeneration::Paper1_18 && a.x == b.x && a.z == b.z && a.block_type
            == BlockType::BEDROCK && b.block_type == BlockType::OTHER && a.y <= 5 && b.y <= 5 ==> (
        tab::conflict(a, b, mode) <==> a.y >= b.y),
        mode == BedrockGeneration::Paper1_18 && a.x == b.x && a.z == b.z && a.block_type
            == BlockType::BEDROCK && b.block_type == BlockType::OTHER && a.y > 5 && b.y > 5 ==> (
        tab::conflict(a, b, mode) <==> a.y <= b.y),
        tab::conflict(a, b, mode) == tab::conflict(b, a, mode),
{
}

/// A block conflicts with several exactly if it conflicts with one of them.
pub proof fn law_conflicts_add_up(
    block: Block,
    others: Seq<Block>,
    other: Block,
    mode: BedrockGeneration,
)
    ensures
        !tab::conflicts(block, Seq::empty(), mode),
        tab::conflicts(block, others.push(other), mode) <==> tab::conflicts(block, others, mode)
            || tab::conflict(block, other, mode),
{
    let all = others.push(other);
    if tab::conflicts(block, others, mode) {
        let k = choose|k: int|
            0 <= k < others.len() && tab::conflict(block, #[trigger] others[k], mode);
        assert(all[k] == others[k]);
    }
    if tab::conflict(block, other, mode) {
        assert(all[others.len() as int] == other);
    }
    if tab::conflicts(block, all, mode) {
        let k = choose|k: int| 0 <= k < all.len() && tab::conflict(block, #[trigger] all[k], mode);
        if k < others.len() {
            assert(others[k] == all[k]);
        }
    }
}

/// No two of the blocks that are taken are in the same place.
pub proof fn law_taken_blocks_are_in_different_places(
    entries: Seq<BlockEntry>,
    mode: BedrockGeneration,
    i: int,
    j: int,
)
    requires
        0 <= i < tab::taken(entries, mode).len(),
        0 <= j < tab::taken(entries, mode).len(),
        i != j,
    ensures
        ({
            let (a, b) = (tab::taken(entries, mode)[i], tab::taken(entries, mode)[j]);
            a.x != b.x || a.y != b.y || a.z != b.z
        }),
{
    law_taken_blocks_do_not_conflict(entries, mode, i, j);
    law_which_blocks_conflict(tab::taken(entries, mode)[i], tab::taken(entries, mode)[j], mode);
}

/// A further entry changes nothing of the entries above it. It is marked, and its block left out,
/// exactly if it has a block that conflicts with a block taken above; otherwise its block is taken
/// too, as the last one. An entry without a block is left as it is.
pub proof fn law_entries_are_taken_in_their_order(
    entries: Seq<BlockEntry>,
    entry: BlockEntry,
    mode: BedrockGeneration,
)
    ensures
        tab::taken(Seq::empty(), mode) == Seq::<Block>::empty(),
        tab::all_marked(Seq::empty(), mode) == Seq::<BlockEntry>::empty(),
        entry.position is None ==> {
            &&& tab::taken(entries.push(entry), mode) == tab::taken(entries, mode)
            &&& tab::all_marked(entries.push(entry), mode) == tab::all_marked(entries, mode).push(
                entry,
            )
        },
        entry.position is Some ==> {
            let block = entry.position->0;
            let hit = tab::conflicts(block, tab::taken(entries, mode), mode);
            &&& hit ==> tab::taken(entries.push(entry), mode) == tab::taken(entries, mode)
            &&& !hit ==> tab::taken(entries.push(entry), mode) == tab::taken(entries, mode).push(
                block,
            )
            &&& tab::all_marked(entries.push(entry), mode) == tab::all_marked(entries, mode).push(
                BlockEntry { empty: entry.empty, position: entry.position, duplicate: hit },
            )
        },
{
    let all = entries.push(entry);
    assert(all.drop_last() == entries);
    assert(all.last() == entry);
    assert(all.take(entries.len() as int) == entries);
    assert(tab::taken(Seq::<BlockEntry>::empty(), mode) == Seq::<Block>::empty());
    assert(tab::all_marked(Seq::<BlockEntry>::empty(), mode) == Seq::<BlockEntry>::empty());
    let new = tab::all_marked(all, mode);
    let old_marks = tab::all_marked(entries, mode);
    assert forall|i: int| 0 <= i < entries.len() implies new[i] == old_marks[i] by {
        assert(all.take(i) == entries.take(i));
        assert(all[i] == entries[i]);
    }
    assert(new == old_marks.push(tab::marked(all, entries.len() as int, mode)));
}

/// Entries stay as they are but for an empty one without block and mark that is added where the
/// last one is not empty, or where there is none.
pub proof fn law_one_empty_entry_is_added_where_it_is_missing(
    entries: Seq<BlockEntry>,
    entry: BlockEntry,
)
    ensures
        ({
            let blank = BlockEntry { empty: true, position: None, duplicate: false };
            &&& tab::with_entry(Seq::empty()) == seq![blank]
            &&& entry.empty ==> tab::with_entry(entries.push(entry)) == entries.push(entry)
            &&& !entry.empty ==> tab::with_entry(entries.push(entry)) == entries.push(entry).push(
                blank,
            )
        }),
{
    assert(entries.push(entry).last() == entry);
    assert(Seq::<BlockEntry>::empty().push(BlockEntry::blank()) == seq![BlockEntry::blank()]);
}

/// The estimate is the number of seeds that the blocks leave where every position draws its own
/// number, but never less than one.
pub proof fn law_estimates_are_at_least_one(blocks: Seq<Block>)
    ensures
        ({
            let left = block_data::filter_power(plan::filters_of(blocks, BedrockGeneration::Normal));
            &&& tab::estimate(blocks) >= 1
            &&& left >= 1 ==> tab::estimate(blocks) == left
            &&& left == 0 ==> tab::estimate(blocks) == 1
        }),
{
}

/// Once a tab is up to date, what it shows follows from its entries: the marks, the taken blocks
/// and their estimate. It ends with an empty entry.
pub proof fn law_tabs_follow_their_entries(bdrk: BdrkTab, entries: Seq<BlockEntry>)
    requires
        bdrk.refreshed(entries),
    ensures
        bdrk.valid_blocks@ == tab::taken(tab::with_entry(entries), bdrk.mode),
        bdrk.blocks@ == tab::all_marked(tab::with_entry(entries), bdrk.mode),
        bdrk.estimated_seeds == tab::estimate(bdrk.valid_blocks@),
        bdrk.blocks@.len() > 0 && bdrk.blocks@.last().empty,
        bdrk.valid_blocks@ == tab::taken(bdrk.blocks@, bdrk.mode),
        tab::all_marked(bdrk.blocks@, bdrk.mode) == bdrk.blocks@,
{
    law_last_entry_is_empty(entries, bdrk.mode);
    law_marking_twice_is_marking_once(tab::with_entry(entries), bdrk.mode);
}

/// What a message does to the entries: one that is removed is gone and those behind it move up; one
/// that is changed gets what was typed in and keeps its mark; a change beyond the entries, and
/// messages that are not about blocks or the way they are compared, leave them alone. A message is
/// accepted unless it removes an entry that is not there, or types a block that cannot be
/// estimated into one that is.
pub proof fn law_messages_change_single_entries(
    bdrk: BdrkTab,
    index: usize,
    empty: bool,
    position: Option<Block>,
    mode: BedrockGeneration,
    output: OutputMode,
    file: Option<String>,
    on: bool,
)
    ensures
        ({
            let entries = bdrk.blocks@;
            let n = entries.len();
            let deleted = BdrkMessage::Block(index, BlockMessage::Deleted);
            let changed = BdrkMessage::Block(index, BlockMessage::Changed { empty, position });
            &&& bdrk.accepts(deleted) <==> index < n
            &&& index < n ==> bdrk.entries_after(deleted) == Some(
                entries.take(index as int) + entries.skip(index + 1),
            )
            &&& bdrk.accepts(changed) <==> index >= n || position is None || plan::measurable(
                position->0,
            )
            &&& index < n ==> bdrk.entries_after(changed) == Some(
                entries.take(index as int).push(
                    BlockEntry { empty, position, duplicate: entries[index as int].duplicate },
                ) + entries.skip(index + 1),
            )
            &&& index >= n ==> bdrk.entries_after(changed) is None
            &&& bdrk.entries_after(BdrkMessage::CrackerMode(mode)) == Some(entries)
            &&& bdrk.entries_after(BdrkMessage::OutputMode(output)) is None
            &&& bdrk.entries_after(BdrkMessage::LoadSeedList) is None
            &&& bdrk.entries_after(BdrkMessage::LoadedSeedList(file)) is None
            &&& bdrk.entries_after(BdrkMessage::ToggleGpu(on)) is None
            &&& bdrk.accepts(BdrkMessage::CrackerMode(mode))
            &&& bdrk.accepts(BdrkMessage::OutputMode(output))
            &&& bdrk.accepts(BdrkMessage::LoadSeedList)
            &&& bdrk.accepts(BdrkMessage::LoadedSeedList(file))
            &&& bdrk.accepts(BdrkMessage::ToggleGpu(on))
        }),
{
    let entries = bdrk.blocks@;
    if index < entries.len() {
        assert(entries.remove(index as int) == entries.take(index as int) + entries.skip(index + 1));
        let e = BlockEntry { empty, position, duplicate: entries[index as int].duplicate };
        assert(entries.update(index as int, e) == entries.take(index as int).push(e) + entries.skip(
            index + 1,
        ));
    }
}

/// A message changes the setting that it names and no other. A file that was picked replaces the
/// list by the seeds of all its lines, even if there are none; without a file the list is empty.
/// Only the message that asks for a file has one picked.
pub proof fn law_messages_change_single_settings(
    bdrk: BdrkTab,
    index: usize,
    message: BlockMessage,
    mode: BedrockGeneration,
    output: OutputMode,
    file: String,
    on: bool,
)
    ensures
        ({
            let (m, o, g, l) = (bdrk.mode, bdrk.output_mode, bdrk.use_gpu, bdrk.seed_list@);
            let seeds = text::numbers(text::lines(text::utf8(file@)));
            let block = BdrkMessage::Block(index, message);
            let crack = BdrkMessage::CrackerMode(mode);
            let out = BdrkMessage::OutputMode(output);
            let loaded = BdrkMessage::LoadedSeedList(Some(file));
            let unloaded = BdrkMessage::LoadedSeedList(None);
            let toggle = BdrkMessage::ToggleGpu(on);
            &&& bdrk.settings() == (m, o, g, l)
            &&& bdrk.settings_after(block) == (m, o, g, l)
            &&& bdrk.settings_after(crack) == (mode, o, g, l)
            &&& bdrk.settings_after(out) == (m, output, g, l)
            &&& bdrk.settings_after(BdrkMessage::LoadSeedList) == (m, o, g, l)
            &&& bdrk.settings_after(loaded) == (m, o, g, seeds)
            &&& bdrk.settings_after(unloaded) == (m, o, g, Seq::<u64>::empty())
            &&& bdrk.settings_after(toggle) == (m, o, on, l)
            &&& tab::command_after(BdrkMessage::LoadSeedList) == TabCommand::PickSeedList
            &&& tab::command_after(block) == TabCommand::Nothing
            &&& tab::command_after(crack) == TabCommand::Nothing
            &&& tab::command_after(out) == TabCommand::Nothing
            &&& tab::command_after(loaded) == TabCommand::Nothing
            &&& tab::command_after(unloaded) == TabCommand::Nothing
            &&& tab::command_after(toggle) == TabCommand::Nothing
        }),
{
}

} // verus!
