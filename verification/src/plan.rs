//! Laying out a search: which checks each surface gets, and which seeds each worker searches.
use vstd::arithmetic::div_mod::*;
use vstd::arithmetic::power2::*;
use vstd::prelude::*;

use crate::binary64;
use crate::binary64::Binary64;
use crate::block_data;
use crate::block_data::get_filter_power;
use crate::block_data::BlockFilter;
use crate::block_data::CheckObject;
use crate::cross;
use crate::cross::passes_checks;
use crate::raw_data::block::Block;
use crate::raw_data::modes::BedrockGeneration;

verus! {

/// The number of seeds that a worker searches between two progress reports.
pub const CHUNK_SIZE: u64 = 0x200_0000;

/// The number of low bits that a coarse check leaves open.
pub const COARSE_BITS: u64 = 12;

/// Some draw explains the block.
pub open spec fn measurable(b: Block) -> bool {
    block_data::layer_in_range(b.y) && block_data::filter_of(
        b,
        BedrockGeneration::Normal,
    ).satisfiable()
}

/// Some draw explains the block and some other draw does not.
pub open spec fn checkable(b: Block) -> bool {
    block_data::layer_in_range(b.y) && block_data::filter_of(b, BedrockGeneration::Normal).narrows(
        0,
    )
}

/// Whether some draw explains a block, so that it can be estimated.
pub fn is_measurable(b: &Block) -> (r: bool)
    ensures
        r == measurable(*b),
{
    if b.y < -0x7FFF_FFFA {
        return false;
    }
    let filter: BlockFilter = BlockFilter::from(b, BedrockGeneration::Normal);
    filter.lower_bound < filter.upper_bound
}

/// Whether a block can be turned into a check.
pub fn is_checkable(b: &Block) -> (r: bool)
    ensures
        r == checkable(*b),
{
    if b.y < -0x7FFF_FFFA {
        return false;
    }
    BlockFilter::from(b, BedrockGeneration::Normal).allows_check(0)
}

/// The filters for blocks.
pub open spec fn filters_of(blocks: Seq<Block>, mode: BedrockGeneration) -> Seq<BlockFilter> {
    blocks.map_values(|b: Block| block_data::filter_of(b, mode))
}

/// The checks on all bits that filters make.
pub open spec fn full_checks(filters: Seq<BlockFilter>) -> Seq<CheckObject> {
    filters.map_values(|f: BlockFilter| f.check_of(0))
}

/// The coarse checks of the filters that can make one.
pub open spec fn coarse_checks_of(filters: Seq<BlockFilter>) -> Seq<CheckObject> {
    filters.filter(|f: BlockFilter| f.narrows(COARSE_BITS)).map_values(
        |f: BlockFilter| f.check_of(COARSE_BITS),
    )
}

/// The blocks of the floor.
pub open spec fn floor_part(blocks: Seq<Block>) -> Seq<Block> {
    blocks.filter(|b: Block| b.y < 64)
}

/// The blocks of the roof.
pub open spec fn roof_part(blocks: Seq<Block>) -> Seq<Block> {
    blocks.filter(|b: Block| b.y >= 64)
}

/// The blocks that a list of seeds is checked against on the floor.
pub open spec fn list_floor_part(blocks: Seq<Block>) -> Seq<Block> {
    blocks.filter(|b: Block| b.y <= 5)
}

/// The blocks that a list of seeds is checked against on the roof.
pub open spec fn list_roof_part(blocks: Seq<Block>) -> Seq<Block> {
    blocks.filter(|b: Block| b.y > 5)
}

/// The floor is expected to leave at most as many seeds as the roof.
pub open spec fn floor_first(floor: Seq<BlockFilter>, roof: Seq<BlockFilter>) -> bool {
    block_data::filter_power(floor) <= block_data::filter_power(roof)
}

/// Whether the floor is the primary surface, the filters of the primary surface, and those of the
/// other one.
pub open spec fn surfaces(blocks: Seq<Block>, mode: BedrockGeneration) -> (
    bool,
    Seq<BlockFilter>,
    Seq<BlockFilter>,
) {
    let floor = filters_of(floor_part(blocks), mode);
    let roof = filters_of(roof_part(blocks), mode);
    if floor_first(floor, roof) {
        (true, floor, roof)
    } else {
        (false, roof, floor)
    }
}

/// Extending a sequence by one element, as filters and maps see it.
pub(crate) proof fn lemma_step<A, B>(s: Seq<A>, i: int, p: spec_fn(A) -> bool, f: spec_fn(A) -> B)
    requires
        0 <= i < s.len(),
    ensures
        s.take(i + 1) == s.take(i).push(s[i]),
        p(s[i]) ==> s.take(i + 1).filter(p) == s.take(i).filter(p).push(s[i]),
        !p(s[i]) ==> s.take(i + 1).filter(p) == s.take(i).filter(p),
        p(s[i]) ==> s.take(i + 1).filter(p).map_values(f) == s.take(i).filter(p).map_values(f).push(
            f(s[i]),
        ),
        s.take(i + 1).map_values(f) == s.take(i).map_values(f).push(f(s[i])),
{
    reveal(Seq::filter);
    let t = s.take(i + 1);
    assert(t.drop_last() == s.take(i));
    assert(t.last() == s[i]);
    assert(s.take(i + 1) == s.take(i).push(s[i]));
    assert(s.take(i + 1).map_values(f) == s.take(i).map_values(f).push(f(s[i])));
    if p(s[i]) {
        assert(s.take(i + 1).filter(p).map_values(f) == s.take(i).filter(p).map_values(f).push(
            f(s[i]),
        ));
    }
}

/// The expected number of seeds that blocks leave, taken as independent.
pub fn estimate_result_amount(blocks: &[Block]) -> (r: u64)
    requires
        forall|i: int| 0 <= i < blocks@.len() ==> measurable(#[trigger] blocks@[i]),
    ensures
        r == block_data::filter_power(filters_of(blocks@, BedrockGeneration::Normal)),
{
    let mut filters: Vec<BlockFilter> = Vec::new();
    let mut i: usize = 0;
    while i < blocks.len()
        invariant
            i <= blocks@.len(),
            forall|i: int| 0 <= i < blocks@.len() ==> measurable(#[trigger] blocks@[i]),
            filters@ == filters_of(blocks@.take(i as int), BedrockGeneration::Normal),
            forall|k: int| 0 <= k < filters@.len() ==> (#[trigger] filters@[k]).wf(),
            forall|k: int| 0 <= k < filters@.len() ==> (#[trigger] filters@[k]).satisfiable(),
        decreases blocks@.len() - i,
    {
        proof {
            lemma_step(
                blocks@,
                i as int,
                |b: Block| true,
                |b: Block| block_data::filter_of(b, BedrockGeneration::Normal),
            );
            assert(measurable(blocks@[i as int]));
        }
        filters.push(BlockFilter::from(&blocks[i], BedrockGeneration::Normal));
        i += 1;
    }
    proof {
        assert(blocks@.take(i as int) == blocks@);
    }
    get_filter_power(filters.as_slice())
}

/// Splits blocks into the filters of the floor and of the roof.
pub fn split_floor_roof(blocks: &[Block], mode: BedrockGeneration) -> (r: (
    Vec<BlockFilter>,
    Vec<BlockFilter>,
))
    requires
        forall|i: int|
            0 <= i < blocks@.len() ==> block_data::layer_in_range((#[trigger] blocks@[i]).y),
    ensures
        r.0@ == filters_of(floor_part(blocks@), mode),
        r.1@ == filters_of(roof_part(blocks@), mode),
{
    let mut floor_blocks: Vec<BlockFilter> = Vec::new();
    let mut roof_blocks: Vec<BlockFilter> = Vec::new();
    let mut i: usize = 0;
    proof {
        reveal(Seq::filter);
        assert(blocks@.take(0) == Seq::<Block>::empty());
    }
    while i < blocks.len()
        invariant
            i <= blocks@.len(),
            forall|i: int|
                0 <= i < blocks@.len() ==> block_data::layer_in_range((#[trigger] blocks@[i]).y),
            floor_blocks@ == filters_of(floor_part(blocks@.take(i as int)), mode),
            roof_blocks@ == filters_of(roof_part(blocks@.take(i as int)), mode),
        decreases blocks@.len() - i,
    {
        proof {
            let f = |b: Block| block_data::filter_of(b, mode);
            lemma_step(blocks@, i as int, |b: Block| b.y < 64, f);
            lemma_step(blocks@, i as int, |b: Block| b.y >= 64, f);
        }
        let filter: BlockFilter = BlockFilter::from(&blocks[i], mode);
        if blocks[i].y < 64 {
            floor_blocks.push(filter);
        } else {
            roof_blocks.push(filter);
        }
        i += 1;
    }
    proof {
        assert(blocks@.take(i as int) == blocks@);
    }
    (floor_blocks, roof_blocks)
}

/// The checks of a search on a graphics processor.
pub struct GpuPlan {
    /// Whether the floor filters at least as well as the roof.
    pub is_floor_primary: bool,
    /// Checks of the primary surface that decide 2^12 seeds at once.
    pub coarse_checks: Vec<CheckObject>,
    /// Checks of the primary surface on single seeds.
    pub fine_checks: Vec<CheckObject>,
    /// Checks of the other surface, for the cross comparison.
    pub secondary_checks: Vec<CheckObject>,
}

/// The filters can make a check on all bits.
pub open spec fn all_checkable(filters: Seq<BlockFilter>) -> bool {
    forall|i: int|
        0 <= i < filters.len() ==> (#[trigger] filters[i]).wf() && filters[i].narrows(0)
}

/// The filters of checkable blocks can make a check on all bits.
pub(crate) proof fn lemma_filters_checkable(
    blocks: Seq<Block>,
    mode: BedrockGeneration,
    p: spec_fn(Block) -> bool,
)
    requires
        forall|i: int| 0 <= i < blocks.len() ==> checkable(#[trigger] blocks[i]),
    ensures
        all_checkable(filters_of(blocks.filter(p), mode)),
{
    let part = blocks.filter(p);
    let filters = filters_of(part, mode);
    assert forall|i: int| 0 <= i < filters.len() implies (#[trigger] filters[i]).wf()
        && filters[i].narrows(0) by {
        blocks.lemma_filter_contains_rev(p, part[i]);
        let k = blocks.index_of(part[i]);
        assert(checkable(blocks[k]));
        block_data::lemma_filter_wf(part[i], mode);
    }
}

/// The checks on all bits.
fn make_full_checks(filters: &Vec<BlockFilter>) -> (r: Vec<CheckObject>)
    requires
        all_checkable(filters@),
    ensures
        r@ == full_checks(filters@),
{
    let mut r: Vec<CheckObject> = Vec::new();
    let mut i: usize = 0;
    while i < filters.len()
        invariant
            i <= filters@.len(),
            all_checkable(filters@),
            r@ == full_checks(filters@.take(i as int)),
        decreases filters@.len() - i,
    {
        proof {
            lemma_step(filters@, i as int, |f: BlockFilter| true, |f: BlockFilter| f.check_of(0));
        }
        let mut filter: BlockFilter = filters[i];
        r.push(filter.create_check(0));
        i += 1;
    }
    proof {
        assert(filters@.take(i as int) == filters@);
    }
    r
}

/// The coarse checks, of those filters that can make one.
fn make_coarse_checks(filters: &Vec<BlockFilter>) -> (r: Vec<CheckObject>)
    requires
        all_checkable(filters@),
    ensures
        r@ == coarse_checks_of(filters@),
{
    let mut r: Vec<CheckObject> = Vec::new();
    let mut i: usize = 0;
    proof {
        reveal(Seq::filter);
        assert(filters@.take(0) == Seq::<BlockFilter>::empty());
    }
    while i < filters.len()
        invariant
            i <= filters@.len(),
            all_checkable(filters@),
            r@ == coarse_checks_of(filters@.take(i as int)),
        decreases filters@.len() - i,
    {
        proof {
            lemma_step(
                filters@,
                i as int,
                |f: BlockFilter| f.narrows(COARSE_BITS),
                |f: BlockFilter| f.check_of(COARSE_BITS),
            );
        }
        let mut filter: BlockFilter = filters[i];
        if filter.allows_check(COARSE_BITS) {
            r.push(filter.create_check(COARSE_BITS));
        }
        i += 1;
    }
    proof {
        assert(filters@.take(i as int) == filters@);
    }
    r
}

/// Chooses the primary surface, the one that is expected to leave fewer seeds, and makes the
/// checks for both surfaces.
pub fn plan_gpu_search(blocks: &[Block], mode: BedrockGeneration) -> (r: GpuPlan)
    requires
        forall|i: int| 0 <= i < blocks@.len() ==> checkable(#[trigger] blocks@[i]),
    ensures
        ({
            let (is_floor_primary, primary, secondary) = surfaces(blocks@, mode);
            &&& r.is_floor_primary == is_floor_primary
            &&& r.coarse_checks@ == coarse_checks_of(primary)
            &&& r.fine_checks@ == full_checks(primary)
            &&& r.secondary_checks@ == full_checks(secondary)
        }),
{
    proof {
        lemma_filters_checkable(blocks@, mode, |b: Block| b.y < 64);
        lemma_filters_checkable(blocks@, mode, |b: Block| b.y >= 64);
        assert forall|i: int| 0 <= i < blocks@.len() implies block_data::layer_in_range(
            (#[trigger] blocks@[i]).y,
        ) by {
            assert(checkable(blocks@[i]));
        }
    }
    let (floor_filters, roof_filters): (Vec<BlockFilter>, Vec<BlockFilter>) = split_floor_roof(
        blocks,
        mode,
    );
    let floor_power: u64 = get_filter_power(floor_filters.as_slice());
    let roof_power: u64 = get_filter_power(roof_filters.as_slice());
    let is_floor_primary: bool = floor_power <= roof_power;
    let (primary_filters, secondary_filters): (Vec<BlockFilter>, Vec<BlockFilter>) =
        if is_floor_primary {
        (floor_filters, roof_filters)
    } else {
        (roof_filters, floor_filters)
    };
    GpuPlan {
        is_floor_primary,
        coarse_checks: make_coarse_checks(&primary_filters),
        fine_checks: make_full_checks(&primary_filters),
        secondary_checks: make_full_checks(&secondary_filters),
    }
}

/// The checks for a search in a list of seeds: those of the roof and those of the floor.
pub fn list_checks(blocks: &[Block], mode: BedrockGeneration) -> (r: (
    Vec<CheckObject>,
    Vec<CheckObject>,
))
    requires
        forall|i: int| 0 <= i < blocks@.len() ==> checkable(#[trigger] blocks@[i]),
    ensures
        r.0@ == full_checks(filters_of(list_roof_part(blocks@), mode)),
        r.1@ == full_checks(filters_of(list_floor_part(blocks@), mode)),
{
    let mut roof_blocks: Vec<CheckObject> = Vec::new();
    let mut floor_blocks: Vec<CheckObject> = Vec::new();
    let mut i: usize = 0;
    proof {
        reveal(Seq::filter);
        assert(blocks@.take(0) == Seq::<Block>::empty());
    }
    while i < blocks.len()
        invariant
            i <= blocks@.len(),
            forall|i: int| 0 <= i < blocks@.len() ==> checkable(#[trigger] blocks@[i]),
            roof_blocks@ == full_checks(
                filters_of(blocks@.take(i as int).filter(|b: Block| b.y > 5), mode),
            ),
            floor_blocks@ == full_checks(
                filters_of(blocks@.take(i as int).filter(|b: Block| b.y <= 5), mode),
            ),
        decreases blocks@.len() - i,
    {
        proof {
            let f = |b: Block| block_data::filter_of(b, mode);
            lemma_step(blocks@, i as int, |b: Block| b.y > 5, f);
            lemma_step(blocks@, i as int, |b: Block| b.y <= 5, f);
            assert(checkable(blocks@[i as int]));
        }
        let mut filter: BlockFilter = BlockFilter::from(&blocks[i], mode);
        let check: CheckObject = filter.create_check(0);
        if blocks[i].y > 5 {
            roof_blocks.push(check);
        } else {
            floor_blocks.push(check);
        }
        proof {
            let next = blocks@.take(i + 1);
            assert(roof_blocks@ == full_checks(
                filters_of(next.filter(|b: Block| b.y > 5), mode),
            ));
            assert(floor_blocks@ == full_checks(
                filters_of(next.filter(|b: Block| b.y <= 5), mode),
            ));
        }
        i += 1;
    }
    proof {
        assert(blocks@.take(i as int) == blocks@);
    }
    (roof_blocks, floor_blocks)
}

/// The first seed of a worker's share, as a multiple of 2^12: the shares are as equal as whole
/// multiples allow.
pub open spec fn share_start(thread: int, thread_count: int) -> int {
    ((thread * 0x10_0000_0000) / thread_count) * 0x1000
}

/// The seeds that a worker searches, from the first to the one after the last.
pub fn thread_range(thread: u64, thread_count: u64) -> (r: (u64, u64))
    requires
        thread < thread_count,
        thread_count < 0x1000_0000,
    ensures
        r.0 == share_start(thread as int, thread_count as int),
        r.1 == share_start(thread + 1, thread_count as int),
        r.0 <= r.1 <= 0x1_0000_0000_0000,
{
    let start_bits: u64 = (thread * 0x10_0000_0000) / thread_count;
    let end_bits: u64 = ((thread + 1) * 0x10_0000_0000) / thread_count;
    proof {
        lemma_share(thread as int, thread_count as int);
        let (a, b) = (start_bits, end_bits);
        assert(a <= 0x10_0000_0000u64 ==> a << 12 == a * 0x1000) by (bit_vector);
        assert(b <= 0x10_0000_0000u64 ==> b << 12 == b * 0x1000) by (bit_vector);
    }
    (start_bits << 12, end_bits << 12)
}

proof fn lemma_share(thread: int, thread_count: int)
    requires
        0 <= thread < thread_count,
    ensures
        0 <= (thread * 0x10_0000_0000) / thread_count <= ((thread + 1) * 0x10_0000_0000)
            / thread_count <= 0x10_0000_0000,
{
    lemma_div_is_ordered(0, thread * 0x10_0000_0000, thread_count);
    lemma_div_is_ordered(thread * 0x10_0000_0000, (thread + 1) * 0x10_0000_0000, thread_count);
    lemma_div_is_ordered((thread + 1) * 0x10_0000_0000, thread_count * 0x10_0000_0000, thread_count);
    lemma_div_multiples_vanish(0x10_0000_0000, thread_count);
    lemma_div_of0(thread_count);
}

/// The part of a worker's share that is still to be searched.
pub struct ChunkWalk {
    pub current: u64,
    pub limit: u64,
}

/// The chunks in which a share is searched.
pub open spec fn chunks_of(current: int, limit: int) -> Seq<(int, int)>
    decreases limit - current,
{
    if current >= limit {
        Seq::empty()
    } else {
        let end = if current + CHUNK_SIZE <= limit {
            current + CHUNK_SIZE
        } else {
            limit
        };
        seq![(current, end)] + chunks_of(end, limit)
    }
}

impl ChunkWalk {
    /// The chunks that are still to be searched.
    pub open spec fn left(self) -> Seq<(int, int)> {
        chunks_of(self.current as int, self.limit as int)
    }

    /// The share is one of 48-bit seeds, and consists of blocks of 2^12 seeds.
    pub open spec fn wf(self) -> bool {
        &&& self.limit <= 0x1_0000_0000_0000
        &&& self.current % 0x1000 == 0
        &&& self.limit % 0x1000 == 0
    }

    /// Starts at the beginning of a worker's share.
    pub fn new(thread: u64, thread_count: u64) -> (r: Self)
        requires
            thread < thread_count,
            thread_count < 0x1000_0000,
        ensures
            r.current == share_start(thread as int, thread_count as int),
            r.limit == share_start(thread + 1, thread_count as int),
            r.wf(),
    {
        let (current, limit): (u64, u64) = thread_range(thread, thread_count);
        proof {
            let n = thread_count as int;
            lemma_mod_multiples_basic((thread * 0x10_0000_0000) / n, 0x1000);
            lemma_mod_multiples_basic(((thread + 1) * 0x10_0000_0000) / n, 0x1000);
        }
        ChunkWalk { current, limit }
    }

    /// The next chunk, from its first seed to the one after its last.
    pub fn next_chunk(&mut self) -> (r: Option<(u64, u64)>)
        requires
            old(self).wf(),
        ensures
            final(self).wf(),
            final(self).limit == old(self).limit,
            match r {
                None => old(self).left().len() == 0 && final(self).current == old(self).current,
                Some((start, end)) => {
                    &&& old(self).left() == seq![(start as int, end as int)] + final(self).left()
                    &&& start == old(self).current
                    &&& end == final(self).current
                    &&& start < end <= final(self).limit
                    &&& (end - start) % 0x1000 == 0
                },
            },
    {
        if self.current >= self.limit {
            return None;
        }
        let start: u64 = self.current;
        let end: u64 = if self.limit - start <= CHUNK_SIZE {
            self.limit
        } else {
            start + CHUNK_SIZE
        };
        self.current = end;
        Some((start, end))
    }

    /// Takes the answer to the report of a chunk: where nobody listens any more, nothing is left to
    /// be searched.
    pub fn answered(&mut self, heard: bool)
        requires
            old(self).wf(),
        ensures
            final(self).wf(),
            heard ==> *final(self) == *old(self),
            !heard ==> final(self).left().len() == 0,
            final(self).limit == old(self).limit,
    {
        if !heard {
            self.current = self.limit;
        }
    }
}

/// The first seeds of the blocks of 2^12 seeds in a chunk.
pub open spec fn starts_of(start: u64, end: u64) -> Seq<u64> {
    Seq::new(((end - start) / 0x1000) as nat, |i: int| (start + i * 0x1000) as u64)
}

/// The seeds of a chunk whose low 12 bits are zero, each of which stands for the 2^12 seeds that
/// agree with it but in these bits.
pub fn block_starts(start: u64, end: u64) -> (r: Vec<u64>)
    requires
        start <= end <= 0x1_0000_0000_0000,
        (end - start) % 0x1000 == 0,
    ensures
        r@ == starts_of(start, end),
{
    let mut r: Vec<u64> = Vec::new();
    let mut upper_bits: u64 = start;
    while upper_bits < end
        invariant
            start <= upper_bits <= end <= 0x1_0000_0000_0000,
            (end - start) % 0x1000 == 0,
            upper_bits == start + r@.len() * 0x1000,
            r@ == Seq::new(r@.len(), |i: int| (start + i * 0x1000) as u64),
        decreases end - upper_bits,
    {
        r.push(upper_bits);
        upper_bits += 0x1000;
    }
    r
}

/// The seeds that follow `upper_bits`, `count` of them from it on, and pass all checks, in
/// ascending order.
pub open spec fn block_candidates_of(checks: Seq<CheckObject>, upper_bits: u64, count: nat) -> Seq<
    u64,
> {
    Seq::new(count, |i: int| (upper_bits + i) as u64).filter(
        |seed: u64| cross::passes_all(checks, seed),
    )
}

/// Searches the 2^12 seeds that agree with `upper_bits` but in the low bits.
pub fn block_candidates(checks: &[CheckObject], upper_bits: u64) -> (r: Vec<u64>)
    requires
        upper_bits <= u64::MAX - 0x1000,
    ensures
        r@ == block_candidates_of(checks@, upper_bits, 0x1000),
{
    let mut r: Vec<u64> = Vec::new();
    let mut low: u64 = 0;
    let ghost p = |seed: u64| cross::passes_all(checks@, seed);
    proof {
        reveal(Seq::filter);
        assert(Seq::new(0, |i: int| (upper_bits + i) as u64) == Seq::<u64>::empty());
    }
    while low < 0x1000
        invariant
            low <= 0x1000,
            upper_bits <= u64::MAX - 0x1000,
            p == (|seed: u64| cross::passes_all(checks@, seed)),
            r@ == block_candidates_of(checks@, upper_bits, low as nat),
        decreases 0x1000 - low,
    {
        let seed: u64 = upper_bits + low;
        proof {
            let f = |i: int| (upper_bits + i) as u64;
            let s = Seq::new((low + 1) as nat, f);
            lemma_step(s, low as int, p, |x: u64| x);
            assert(s.take(low as int) == Seq::new(low as nat, f));
            assert(s.take(low + 1) == s);
        }
        if passes_checks(checks, seed) {
            r.push(seed);
        }
        low += 1;
    }
    r
}

/// What a coarse check on a block of 2^12 seeds, and then checks on its single seeds, let pass.
pub open spec fn found_in_block(
    coarse_checks: Seq<CheckObject>,
    fine_checks: Seq<CheckObject>,
    upper_bits: u64,
) -> Seq<u64> {
    if cross::passes_all(coarse_checks, upper_bits) {
        block_candidates_of(fine_checks, upper_bits, 0x1000)
    } else {
        Seq::empty()
    }
}

/// Searches the 2^12 seeds that agree with `upper_bits` but in the low bits, if the coarse checks
/// let them pass at all.
pub fn search_block(
    coarse_checks: &[CheckObject],
    fine_checks: &[CheckObject],
    upper_bits: u64,
) -> (r: Vec<u64>)
    requires
        upper_bits <= u64::MAX - 0x1000,
    ensures
        r@ == found_in_block(coarse_checks@, fine_checks@, upper_bits),
{
    if passes_checks(coarse_checks, upper_bits) {
        block_candidates(fine_checks, upper_bits)
    } else {
        Vec::new()
    }
}

/// How many seeds of a list each worker gets: the quotient in binary64 arithmetic, rounded up,
/// or all seeds where there is no worker to divide by.
pub open spec fn list_chunk(len: nat, thread_count: nat) -> nat {
    if thread_count == 0 {
        u64::MAX as nat
    } else {
        binary64::to_int_up(
            binary64::over(binary64::of_int(len), binary64::of_int(thread_count)),
        )
    }
}

/// A list cut into pieces of `size`, the last of which may be shorter.
pub open spec fn pieces(seeds: Seq<u64>, size: nat) -> Seq<Seq<u64>>
    decreases seeds.len(),
{
    if seeds.len() == 0 || size == 0 {
        Seq::empty()
    } else if seeds.len() <= size {
        seq![seeds]
    } else {
        seq![seeds.take(size as int)] + pieces(seeds.skip(size as int), size)
    }
}

/// A list of seeds gives every worker at least one seed.
proof fn lemma_list_chunk_pos(len: nat, thread_count: nat)
    requires
        0 < len <= u64::MAX,
        thread_count <= u64::MAX,
    ensures
        list_chunk(len, thread_count) > 0,
{
    if thread_count > 0 {
        let unit = binary64::unit();
        lemma_pow2_pos(1074);
        lemma2_to64();
        lemma_pow2_strictly_increases(64, 1074);
        let a = binary64::of_int(len);
        let b = binary64::of_int(thread_count);
        binary64::lemma_int_range(len);
        binary64::lemma_int_range(thread_count);
        assert(a * unit >= b) by (nonlinear_arith)
            requires
                a >= unit,
                b <= pow2(64) * unit,
                unit >= pow2(64),
        ;
        binary64::lemma_at_least_smallest(a * unit, b);
        let v = binary64::over(a, b);
        lemma_fundamental_div_mod(v as int, unit as int);
        if v % unit == 0 {
            assert(v / unit > 0) by (nonlinear_arith)
                requires
                    v == unit * (v / unit) + v % unit,
                    v % unit == 0,
                    v > 0,
            ;
        }
    }
}

/// How many seeds of a list each worker gets.
pub fn list_chunk_size(len: usize, thread_count: u64) -> (r: u64)
    requires
        len > 0,
    ensures
        r == list_chunk(len as nat, thread_count as nat),
        r > 0,
{
    proof {
        lemma_list_chunk_pos(len as nat, thread_count as nat);
    }
    if thread_count == 0 {
        return u64::MAX;
    }
    Binary64::from_u64(len as u64).div(Binary64::from_u64(thread_count)).to_u64_up()
}

/// Cuts a list of seeds into the parts of the workers. A list that is empty cannot be cut.
pub fn split_seed_list(seed_list: &[u64], thread_count: u64) -> (r: Vec<Vec<u64>>)
    requires
        seed_list@.len() > 0,
    ensures
        r@.map_values(|v: Vec<u64>| v@) == pieces(
            seed_list@,
            list_chunk(seed_list@.len(), thread_count as nat),
        ),
{
    let size: u64 = list_chunk_size(seed_list.len(), thread_count);
    let mut r: Vec<Vec<u64>> = Vec::new();
    let mut piece: Vec<u64> = Vec::new();
    let mut i: usize = 0;
    let mut start: usize = 0;
    let ghost mut done: Seq<Seq<u64>> = Seq::empty();
    proof {
        assert(seed_list@.skip(0) == seed_list@);
        assert(Seq::<Seq<u64>>::empty() + pieces(seed_list@, size as nat) == pieces(
            seed_list@,
            size as nat,
        ));
    }
    while i < seed_list.len()
        invariant
            start <= i <= seed_list@.len(),
            i - start < size,
            size > 0,
            piece@ == seed_list@.subrange(start as int, i as int),
            r@.map_values(|v: Vec<u64>| v@) == done,
            i == seed_list@.len() ==> start == i,
            pieces(seed_list@, size as nat) == done + pieces(
                seed_list@.skip(start as int),
                size as nat,
            ),
        decreases seed_list@.len() - i,
    {
        piece.push(seed_list[i]);
        i += 1;
        proof {
            assert(piece@ == seed_list@.subrange(start as int, i as int));
        }
        if piece.len() as u64 == size || i == seed_list.len() {
            proof {
                let rest = seed_list@.skip(start as int);
                let cut = seed_list@.subrange(start as int, i as int);
                if rest.len() <= size {
                    assert(rest == cut);
                    assert(seed_list@.skip(i as int) == Seq::<u64>::empty());
                    assert(pieces(rest, size as nat) == seq![cut] + pieces(
                        Seq::empty(),
                        size as nat,
                    ));
                } else {
                    assert(rest.take(size as int) == cut);
                    assert(rest.skip(size as int) == seed_list@.skip(i as int));
                }
                assert(pieces(rest, size as nat) == seq![cut] + pieces(
                    seed_list@.skip(i as int),
                    size as nat,
                ));
                assert(done + (seq![cut] + pieces(seed_list@.skip(i as int), size as nat))
                    == done.push(cut) + pieces(seed_list@.skip(i as int), size as nat));
                done = done.push(cut);
            }
            let ghost before = r@;
            r.push(piece);
            proof {
                assert(r@ == before.push(piece));
                assert(r@.map_values(|v: Vec<u64>| v@) == done);
            }
            piece = Vec::new();
            start = i;
        }
    }
    proof {
        assert(seed_list@.skip(start as int) == Seq::<u64>::empty());
        assert(done + pieces(Seq::empty(), size as nat) == done);
    }
    r
}

} // verus!
