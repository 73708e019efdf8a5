//! The search on the graphics processor covers every seed once.
use vstd::arithmetic::div_mod::*;
use vstd::prelude::*;

use crate::block_data::BlockFilter;
use crate::block_data::CheckObject;
use crate::cross;
use crate::cross::GpuCrossComparisonSender;
use crate::gpu;
use crate::gpu::StatsReadback;
use crate::gpu_search;
use crate::gpu_search::GpuRange;
use crate::gpu_search::PassResult;
use crate::gpu_search::MAX_COARSE;
use crate::gpu_search::MAX_FINE;
use crate::gpu_search::RANGE_LEN;
use crate::gpu_search::SHORTEST_SPLIT;
use crate::gpu_search::TOTAL_UPPER;
use crate::java;
use crate::java::MASK48;
use crate::laws::cross as worlds;
use crate::laws::search;
use crate::plan;
use crate::raw_data::block::Block;
use crate::raw_data::modes::BedrockGeneration;
use crate::raw_data::modes::OutputMode;
use crate::shader;

verus! {

/// Splitting a number into words and joining them gives the number, and the other way round.
pub proof fn law_words_join_to_the_number(val: u64, low: u32, high: u32)
    ensures
        gpu::joined(gpu::low_word(val), gpu::high_word(val)) == val,
        gpu::joined(low, high) <= u64::MAX,
        gpu::low_word(gpu::joined(low, high) as u64) == low,
        gpu::high_word(gpu::joined(low, high) as u64) == high,
{
}

/// Different words have different bytes, in either byte order.
pub proof fn law_bytes_determine_words(a: Seq<u32>, b: Seq<u32>)
    ensures
        gpu::little_endian(a) == gpu::little_endian(b) ==> a == b,
        gpu::big_endian(a) == gpu::big_endian(b) ==> a == b,
{
    if gpu::little_endian(a) == gpu::little_endian(b) {
        assert(gpu::little_endian(a).len() == 4 * a.len());
        assert(gpu::little_endian(b).len() == 4 * b.len());
        assert forall|i: int| 0 <= i < a.len() implies a[i] == b[i] by {
            let x = gpu::little_endian(a);
            let y = gpu::little_endian(b);
            assert(x[4 * i] == y[4 * i] && x[4 * i + 1] == y[4 * i + 1]);
            assert(x[4 * i + 2] == y[4 * i + 2] && x[4 * i + 3] == y[4 * i + 3]);
            lemma_same_bytes(a[i], b[i]);
        }
        assert(a == b);
    }
    if gpu::big_endian(a) == gpu::big_endian(b) {
        assert(gpu::big_endian(a).len() == 4 * a.len());
        assert(gpu::big_endian(b).len() == 4 * b.len());
        assert forall|i: int| 0 <= i < a.len() implies a[i] == b[i] by {
            let x = gpu::big_endian(a);
            let y = gpu::big_endian(b);
            assert(x[4 * i] == y[4 * i] && x[4 * i + 1] == y[4 * i + 1]);
            assert(x[4 * i + 2] == y[4 * i + 2] && x[4 * i + 3] == y[4 * i + 3]);
            lemma_same_bytes(a[i], b[i]);
        }
        assert(a == b);
    }
}

/// A machine reads back what it wrote: words with the same bytes in memory are the same words.
pub proof fn law_memory_determines_words(a: Seq<u32>, b: Seq<u32>, bytes: Seq<u8>)
    requires
        gpu::in_memory(a, bytes),
        gpu::in_memory(b, bytes),
    ensures
        a == b,
{
    law_bytes_determine_words(a, b);
}

/// A machine reads back the seeds that it wrote.
pub proof fn law_memory_determines_seeds(a: Seq<u64>, b: Seq<u64>, bytes: Seq<u8>)
    requires
        gpu::in_memory(gpu::words_of_seeds(a), bytes),
        gpu::in_memory(gpu::words_of_seeds(b), bytes),
    ensures
        a == b,
{
    let (x, y) = (gpu::words_of_seeds(a), gpu::words_of_seeds(b));
    law_memory_determines_words(x, y, bytes);
    assert(x.len() == 2 * a.len() && y.len() == 2 * b.len());
    assert forall|i: int| 0 <= i < a.len() implies a[i] == b[i] by {
        assert(x[2 * i] == y[2 * i] && x[2 * i + 1] == y[2 * i + 1]);
        assert(gpu::low_word(a[i]) == gpu::low_word(b[i]));
        assert(gpu::high_word(a[i]) == gpu::high_word(b[i]));
        law_words_join_to_the_number(a[i], 0, 0);
        law_words_join_to_the_number(b[i], 0, 0);
    }
    assert(a == b);
}

/// The buffer of checks determines the checks.
pub proof fn law_memory_determines_checks(
    a: Seq<CheckObject>,
    b: Seq<CheckObject>,
    bytes: Seq<u8>,
)
    requires
        gpu::in_memory(gpu::words_of_checks(a), bytes),
        gpu::in_memory(gpu::words_of_checks(b), bytes),
    ensures
        a == b,
{
    let (x, y) = (gpu::words_of_checks(a), gpu::words_of_checks(b));
    law_memory_determines_words(x, y, bytes);
    assert(x.len() == 8 * a.len() && y.len() == 8 * b.len());
    assert forall|i: int| 0 <= i < a.len() implies a[i] == b[i] by {
        let (v, w) = (gpu::words_of_check(a[i]), gpu::words_of_check(b[i]));
        assert forall|k: int| 0 <= k < 8 implies v[k] == w[k] by {
            assert(x[8 * i + k] == y[8 * i + k]);
            assert((8 * i + k) / 8 == i && (8 * i + k) % 8 == k);
        }
        assert(v[0] == w[0] && v[1] == w[1] && v[2] == w[2]);
        assert(v[3] == w[3] && v[4] == w[4] && v[5] == w[5]);
        law_words_join_to_the_number(a[i].pos_hash, 0, 0);
        law_words_join_to_the_number(b[i].pos_hash, 0, 0);
        law_words_join_to_the_number(a[i].condition, 0, 0);
        law_words_join_to_the_number(b[i].condition, 0, 0);
        law_words_join_to_the_number(a[i].offset, 0, 0);
        law_words_join_to_the_number(b[i].offset, 0, 0);
    }
    assert(a == b);
}

proof fn lemma_same_bytes(a: u32, b: u32)
    requires
        forall|k: int| 0 <= k < 4 ==> #[trigger] gpu::byte_of(a, k) == gpu::byte_of(b, k),
    ensures
        a == b,
{
    assert(gpu::byte_of(a, 0) == gpu::byte_of(b, 0));
    assert(gpu::byte_of(a, 1) == gpu::byte_of(b, 1));
    assert(gpu::byte_of(a, 2) == gpu::byte_of(b, 2));
    assert(gpu::byte_of(a, 3) == gpu::byte_of(b, 3));
}

/// The stack after passes, each of which overflowed or not.
pub open spec fn run(stack: Seq<GpuRange>, overflows: Seq<bool>) -> Seq<GpuRange>
    decreases overflows.len(),
{
    if overflows.len() == 0 || stack.len() == 0 {
        stack
    } else {
        run(gpu_search::after_pass(stack, overflows[0]), overflows.drop_first())
    }
}

/// The ranges that were searched or given up in these passes.
pub open spec fn handled(stack: Seq<GpuRange>, overflows: Seq<bool>) -> Seq<GpuRange>
    decreases overflows.len(),
{
    if overflows.len() == 0 || stack.len() == 0 {
        Seq::empty()
    } else {
        let later = handled(gpu_search::after_pass(stack, overflows[0]), overflows.drop_first());
        if overflows[0] && stack.last().len > SHORTEST_SPLIT {
            later
        } else {
            seq![stack.last()] + later
        }
    }
}

/// The range holds these upper bits.
pub open spec fn covers(range: GpuRange, upper: int) -> bool {
    range.start <= upper < range.end()
}

/// A pass keeps the waiting ranges tiled, and takes its range from their end unless it halves it.
proof fn lemma_pass(stack: Seq<GpuRange>, overflow: bool)
    requires
        gpu_search::tiled(stack),
        gpu_search::frontier(stack) <= TOTAL_UPPER,
        stack.len() > 0,
    ensures
        gpu_search::tiled(gpu_search::after_pass(stack, overflow)),
        overflow && stack.last().len > SHORTEST_SPLIT ==> gpu_search::frontier(
            gpu_search::after_pass(stack, overflow),
        ) == gpu_search::frontier(stack),
        !(overflow && stack.last().len > SHORTEST_SPLIT) ==> gpu_search::frontier(
            gpu_search::after_pass(stack, overflow),
        ) == stack.last().start,
{
    let range = stack.last();
    let rest = stack.drop_last();
    if overflow && range.len > SHORTEST_SPLIT {
        let one = rest.push(range.lower_half());
        let two = one.push(range.upper_half());
        assert(one.drop_last() == rest);
        assert(two.drop_last() == one);
        assert(gpu_search::tiled(one));
    }
}

/// Of the upper bits between where the waiting ranges end after some passes and where they ended
/// before, each lies in exactly one range that was searched or given up. No others do.
pub proof fn law_ranges_are_handled_once(stack: Seq<GpuRange>, overflows: Seq<bool>, upper: int)
    requires
        gpu_search::tiled(stack),
        gpu_search::frontier(stack) <= TOTAL_UPPER,
    ensures
        gpu_search::tiled(run(stack, overflows)),
        gpu_search::frontier(run(stack, overflows)) <= gpu_search::frontier(stack),
        (exists|k: int|
            0 <= k < handled(stack, overflows).len() && covers(
                #[trigger] handled(stack, overflows)[k],
                upper,
            )) <==> gpu_search::frontier(run(stack, overflows)) <= upper < gpu_search::frontier(
            stack,
        ),
        forall|j: int, k: int|
            0 <= j < handled(stack, overflows).len() && 0 <= k < handled(stack, overflows).len()
                && covers(#[trigger] handled(stack, overflows)[j], upper) && covers(
                #[trigger] handled(stack, overflows)[k],
                upper,
            ) ==> j == k,
    decreases overflows.len(),
{
    if overflows.len() > 0 && stack.len() > 0 {
        let next = gpu_search::after_pass(stack, overflows[0]);
        let rest = overflows.drop_first();
        lemma_pass(stack, overflows[0]);
        law_ranges_are_handled_once(next, rest, upper);
        let later = handled(next, rest);
        let all = handled(stack, overflows);
        if !(overflows[0] && stack.last().len > SHORTEST_SPLIT) {
            assert(all[0] == stack.last());
            assert forall|k: int| 0 <= k < later.len() implies all[k + 1] == #[trigger] later[k] by {
            }
            assert forall|k: int| 0 < k < all.len() implies #[trigger] all[k] == later[k - 1] by {
            }
            if exists|k: int| 0 <= k < later.len() && covers(#[trigger] later[k], upper) {
                let k = choose|k: int| 0 <= k < later.len() && covers(#[trigger] later[k], upper);
                assert(covers(all[k + 1], upper));
            }
            if exists|k: int| 0 <= k < all.len() && covers(#[trigger] all[k], upper) {
                let k = choose|k: int| 0 <= k < all.len() && covers(#[trigger] all[k], upper);
                if k > 0 {
                    assert(covers(later[k - 1], upper));
                }
            }
        }
    }
}

/// The number of upper bits in ranges.
pub open spec fn total_len(ranges: Seq<GpuRange>) -> int
    decreases ranges.len(),
{
    if ranges.len() == 0 {
        0
    } else {
        ranges[0].len + total_len(ranges.drop_first())
    }
}

/// The lengths of the ranges that were searched or given up add up to what no longer waits. So
/// the progress of a whole search in which no range is given up adds up to 2^36 times 2^12 seeds.
pub proof fn law_handled_lengths_add_up(stack: Seq<GpuRange>, overflows: Seq<bool>)
    requires
        gpu_search::tiled(stack),
        gpu_search::frontier(stack) <= TOTAL_UPPER,
    ensures
        total_len(handled(stack, overflows)) == gpu_search::frontier(stack)
            - gpu_search::frontier(run(stack, overflows)),
    decreases overflows.len(),
{
    if overflows.len() > 0 && stack.len() > 0 {
        let next = gpu_search::after_pass(stack, overflows[0]);
        let rest = overflows.drop_first();
        lemma_pass(stack, overflows[0]);
        law_handled_lengths_add_up(next, rest);
        if !(overflows[0] && stack.last().len > SHORTEST_SPLIT) {
            let all = handled(stack, overflows);
            assert(all[0] == stack.last());
            assert(all.drop_first() == handled(next, rest));
        }
    }
}

/// The number of passes that waiting ranges can take at most.
pub open spec fn passes_left(stack: Seq<GpuRange>) -> int
    decreases stack.len(),
{
    if stack.len() == 0 {
        0
    } else {
        passes_left(stack.drop_last()) + 2 * (stack.last().len as int / 0x2_0000) - 1
    }
}

proof fn lemma_passes_nonneg(stack: Seq<GpuRange>)
    requires
        gpu_search::tiled(stack),
    ensures
        passes_left(stack) >= 0,
        stack.len() > 0 ==> passes_left(stack) > 0,
    decreases stack.len(),
{
    if stack.len() > 0 {
        lemma_passes_nonneg(stack.drop_last());
    }
}

/// However often passes overflow, the search ends: after as many passes as the waiting ranges can
/// take, none waits.
pub proof fn law_search_ends(stack: Seq<GpuRange>, overflows: Seq<bool>)
    requires
        gpu_search::tiled(stack),
        gpu_search::frontier(stack) <= TOTAL_UPPER,
        overflows.len() >= passes_left(stack),
    ensures
        run(stack, overflows).len() == 0,
    decreases overflows.len(),
{
    lemma_passes_nonneg(stack);
    if stack.len() > 0 {
        let next = gpu_search::after_pass(stack, overflows[0]);
        let range = stack.last();
        let rest = stack.drop_last();
        lemma_pass(stack, overflows[0]);
        if overflows[0] && range.len > SHORTEST_SPLIT {
            let one = rest.push(range.lower_half());
            assert(one.drop_last() == rest);
            assert(next.drop_last() == one);
            assert(one.last() == range.lower_half() && next.last() == range.upper_half());
            let (a, b) = (range.lower_half().len as int, range.upper_half().len as int);
            assert(passes_left(one) == passes_left(rest) + 2 * (a / 0x2_0000) - 1);
            assert(passes_left(next) == passes_left(one) + 2 * (b / 0x2_0000) - 1);
            assert(a + b == range.len);
        }
        assert(passes_left(next) < passes_left(stack));
        law_search_ends(next, overflows.drop_first());
    }
}

/// A search over all seeds starts with tiled ranges up to 2^36, which take 1048512 passes at most.
pub proof fn law_first_ranges_hold_all_seeds()
    ensures
        gpu_search::tiled(gpu_search::first_ranges(64)),
        gpu_search::frontier(gpu_search::first_ranges(64)) == TOTAL_UPPER,
        passes_left(gpu_search::first_ranges(64)) == 1048512,
{
    lemma_first_ranges(64);
}

proof fn lemma_first_ranges(count: nat)
    requires
        count <= 64,
    ensures
        gpu_search::tiled(gpu_search::first_ranges(count)),
        gpu_search::frontier(gpu_search::first_ranges(count)) == count * RANGE_LEN,
        passes_left(gpu_search::first_ranges(count)) == count * 16383,
    decreases count,
{
    let s = gpu_search::first_ranges(count);
    if count > 0 {
        lemma_first_ranges((count - 1) as nat);
        assert(s.drop_last() == gpu_search::first_ranges((count - 1) as nat));
    }
}

/// The coarse pass loses nothing: where it drops the upper bits, no seed with them passes the checks
/// on all bits. So the processor finds what a search without a coarse pass finds.
pub proof fn law_coarse_pass_loses_nothing(filters: Seq<BlockFilter>, upper: int)
    requires
        plan::all_checkable(filters),
        0 <= upper < TOTAL_UPPER,
        !cross::passes_all(plan::coarse_checks_of(filters), (upper * 0x1000) as u64),
    ensures
        plan::block_candidates_of(plan::full_checks(filters), (upper * 0x1000) as u64, 0x1000)
            == Seq::<u64>::empty(),
{
    search::law_coarse_check_of_a_block_changes_nothing(filters, upper);
}

/// The number of invocations of the coarse pass in one direction.
pub open spec fn row() -> int {
    65535 * 256int
}

/// The index that an invocation of the coarse pass computes from its position.
pub open spec fn coarse_index(column: int, line: int) -> int {
    column + line * row()
}

/// Every index of a range has exactly one invocation of the coarse pass, and no invocation
/// computes an index beyond 32 bits.
pub proof fn law_coarse_pass_reaches_every_index(index: int, column: int, line: int)
    requires
        0 <= index < RANGE_LEN,
        0 <= column < row(),
        0 <= line < 65,
    ensures
        coarse_index(column, line) <= u32::MAX,
        index / row() < 65,
        coarse_index(index % row(), index / row()) == index,
        coarse_index(column, line) == index ==> column == index % row() && line == index / row(),
{
}

/// Every coarse result has exactly one workgroup of the fine pass.
pub proof fn law_fine_pass_reaches_every_result(count: int, result: int)
    requires
        0 <= result < count <= MAX_COARSE,
    ensures
        ({
            let (x, y, z) = shader::fine_groups(count);
            &&& z == 1
            &&& 0 < x <= 65535
            &&& y <= 65535
            &&& 0 <= result % x < x
            &&& 0 <= result / x < y
            &&& result % x + (result / x) * x == result
            &&& forall|column: int, line: int|
                0 <= column < x && 0 <= line && #[trigger] group_index(column, line, x) == result
                    ==> column == result % x && line == result / x
        }),
{
    let (x, y, z) = shader::fine_groups(count);
    lemma_fundamental_div_mod(result, x);
    lemma_fundamental_div_mod(count + x - 1, x);
    if count <= 65535 {
        lemma_fundamental_div_mod_converse(count + x - 1, x, 1, x - 1);
    }
    let q = result / x;
    let r = result % x;
    let rem = (count + x - 1) % x;
    assert(x * q == q * x) by (nonlinear_arith);
    assert(q < y) by (nonlinear_arith)
        requires
            result == x * q + r,
            0 <= r,
            result < count,
            count + x - 1 == x * y + rem,
            0 <= rem < x,
    ;
    assert(0 <= q) by (nonlinear_arith)
        requires
            result == x * q + r,
            r < x,
            result >= 0,
            x > 0,
    ;
    assert forall|column: int, line: int|
        0 <= column < x && 0 <= line && #[trigger] group_index(column, line, x)
            == result implies column == result % x && line == result / x by {
        lemma_fundamental_div_mod_converse(result, x, line, column);
    }
}

/// The index that a workgroup of the fine pass computes from its position.
pub open spec fn group_index(column: int, line: int, columns: int) -> int {
    column + line * columns
}

/// The 256 invocations of a workgroup reach each of the 2^12 low parts once in 16 rounds.
pub proof fn law_fine_pass_reaches_every_seed(lower: int, lane: int, round: int)
    requires
        0 <= lower < 0x1000,
        0 <= lane < 256,
        0 <= round < 16,
    ensures
        0 <= lane + round * 256 < 0x1000,
        lower / 256 < 16,
        lower % 256 + (lower / 256) * 256 == lower,
        lane + round * 256 == lower ==> lane == lower % 256 && round == lower / 256,
{
}

/// The ranges that were searched in these passes.
pub open spec fn searched(stack: Seq<GpuRange>, overflows: Seq<bool>) -> Seq<GpuRange>
    decreases overflows.len(),
{
    if overflows.len() == 0 || stack.len() == 0 {
        Seq::empty()
    } else {
        let later = searched(gpu_search::after_pass(stack, overflows[0]), overflows.drop_first());
        if overflows[0] {
            later
        } else {
            seq![stack.last()] + later
        }
    }
}

/// The ranges that were given up in these passes.
pub open spec fn given_up(stack: Seq<GpuRange>, overflows: Seq<bool>) -> Seq<GpuRange>
    decreases overflows.len(),
{
    if overflows.len() == 0 || stack.len() == 0 {
        Seq::empty()
    } else {
        let later = given_up(gpu_search::after_pass(stack, overflows[0]), overflows.drop_first());
        if overflows[0] && stack.last().len <= SHORTEST_SPLIT {
            seq![stack.last()] + later
        } else {
            later
        }
    }
}

/// One of the ranges holds these upper bits.
pub open spec fn covered(ranges: Seq<GpuRange>, upper: int) -> bool {
    exists|k: int| 0 <= k < ranges.len() && covers(#[trigger] ranges[k], upper)
}

proof fn lemma_covered_prepend(first: GpuRange, later: Seq<GpuRange>, upper: int)
    ensures
        covered(seq![first] + later, upper) <==> covers(first, upper) || covered(later, upper),
{
    let all = seq![first] + later;
    assert(all[0] == first);
    if covered(later, upper) {
        let k = choose|k: int| 0 <= k < later.len() && covers(#[trigger] later[k], upper);
        assert(all[k + 1] == later[k]);
    }
    if covered(all, upper) {
        let k = choose|k: int| 0 <= k < all.len() && covers(#[trigger] all[k], upper);
        if k > 0 {
            assert(later[k - 1] == all[k]);
        }
    }
}

/// What no longer waits was either searched or given up.
pub proof fn law_searched_or_given_up(stack: Seq<GpuRange>, overflows: Seq<bool>, upper: int)
    requires
        gpu_search::tiled(stack),
        gpu_search::frontier(stack) <= TOTAL_UPPER,
    ensures
        gpu_search::frontier(run(stack, overflows)) <= gpu_search::frontier(stack),
        covered(given_up(stack, overflows), upper) ==> gpu_search::frontier(run(stack, overflows))
            <= upper < gpu_search::frontier(stack),
        covered(searched(stack, overflows), upper) <==> gpu_search::frontier(
            run(stack, overflows),
        ) <= upper < gpu_search::frontier(stack) && !covered(given_up(stack, overflows), upper),
    decreases overflows.len(),
{
    if overflows.len() > 0 && stack.len() > 0 {
        let next = gpu_search::after_pass(stack, overflows[0]);
        let rest = overflows.drop_first();
        lemma_pass(stack, overflows[0]);
        law_searched_or_given_up(next, rest, upper);
        lemma_covered_prepend(stack.last(), searched(next, rest), upper);
        lemma_covered_prepend(stack.last(), given_up(next, rest), upper);
        assert(stack.last().len > 0);
    }
}

/// An invocation of the coarse pass over a range keeps its index, and the fine pass keeps the seed
/// for that index.
pub open spec fn kept_at(
    range: GpuRange,
    index: int,
    coarse_checks: Seq<CheckObject>,
    fine_checks: Seq<CheckObject>,
    seed: u64,
) -> bool {
    let first = (range.start + index) * 0x1000;
    &&& 0 <= index < range.len
    &&& cross::passes_all(coarse_checks, (first % java::states()) as u64)
    &&& plan::block_candidates_of(fine_checks, first as u64, 0x1000).contains(seed)
}

/// Passes over ranges find a seed.
pub open spec fn passes_find(
    ranges: Seq<GpuRange>,
    coarse_checks: Seq<CheckObject>,
    fine_checks: Seq<CheckObject>,
    seed: u64,
) -> bool {
    exists|k: int, index: int|
        0 <= k < ranges.len() && #[trigger] kept_at(
            ranges[k],
            index,
            coarse_checks,
            fine_checks,
            seed,
        )
}

/// A search on the graphics processor that has come to its end found exactly the seeds of 48 bits
/// that pass the fine checks and whose block passes the coarse checks, but for those in ranges
/// that were given up.
pub proof fn law_passes_find_exactly_the_passing_seeds(
    coarse: Seq<CheckObject>,
    fine: Seq<CheckObject>,
    overflows: Seq<bool>,
    seed: u64,
)
    requires
        run(gpu_search::first_ranges(64), overflows).len() == 0,
    ensures
        passes_find(
            searched(gpu_search::first_ranges(64), overflows),
            coarse,
            fine,
            seed,
        ) <==> {
            &&& seed <= MASK48
            &&& cross::passes_all(coarse, (seed - seed % 0x1000) as u64)
            &&& cross::passes_all(fine, seed)
            &&& !covered(given_up(gpu_search::first_ranges(64), overflows), seed as int / 0x1000)
        },
{
    let first = gpu_search::first_ranges(64);
    let ranges = searched(first, overflows);
    law_first_ranges_hold_all_seeds();
    if passes_find(ranges, coarse, fine, seed) {
        let (k, index) = choose|k: int, index: int|
            0 <= k < ranges.len() && #[trigger] kept_at(ranges[k], index, coarse, fine, seed);
        let upper = ranges[k].start + index;
        assert(covers(ranges[k], upper));
        law_searched_or_given_up(first, overflows, upper);
        search::lemma_block_contains(fine, (upper * 0x1000) as u64, seed);
        assert(seed as int / 0x1000 == upper);
        lemma_small_mod((upper * 0x1000) as nat, java::states() as nat);
        assert((seed - seed % 0x1000) as u64 == upper * 0x1000);
    }
    let upper = seed as int / 0x1000;
    if seed <= MASK48 && cross::passes_all(coarse, (seed - seed % 0x1000) as u64)
        && cross::passes_all(fine, seed) && !covered(given_up(first, overflows), upper) {
        law_searched_or_given_up(first, overflows, upper);
        let k = choose|k: int| 0 <= k < ranges.len() && covers(#[trigger] ranges[k], upper);
        let index = upper - ranges[k].start;
        assert((seed - seed % 0x1000) as u64 == upper * 0x1000);
        lemma_small_mod((upper * 0x1000) as nat, java::states() as nat);
        search::lemma_block_contains(fine, (upper * 0x1000) as u64, seed);
        assert(kept_at(ranges[k], index, coarse, fine, seed));
    }
}

/// The seeds that both passes keep in a range are those that some invocation keeps.
pub proof fn law_kept_seeds_are_those_of_the_invocations(
    range: GpuRange,
    coarse: Seq<CheckObject>,
    fine: Seq<CheckObject>,
    seed: u64,
)
    ensures
        shader::kept_seeds(range, coarse, fine).contains(seed) <==> exists|index: int| #[trigger]
            kept_at(range, index, coarse, fine, seed),
{
    let all = Seq::new(range.len as nat, |i: int| i as u32);
    let p = |i: u32|
        cross::passes_all(coarse, (((range.start + i) * 0x1000) % java::states()) as u64);
    let kept = shader::kept_indices(range, coarse, range.len as nat);
    assert(kept == all.filter(p));
    lemma_seeds_at(range, fine, kept, seed);
    if shader::kept_seeds(range, coarse, fine).contains(seed) {
        let k = choose|k: int| 0 <= k < kept.len() && found_at(range, fine, #[trigger] kept[k], seed);
        all.lemma_filter_contains_rev(p, kept[k]);
        all.lemma_filter_pred(p, k);
        let i = all.index_of(kept[k]);
        assert(all[i] == kept[k]);
        assert(kept_at(range, i, coarse, fine, seed));
    }
    if exists|index: int| #[trigger] kept_at(range, index, coarse, fine, seed) {
        let index = choose|index: int| #[trigger] kept_at(range, index, coarse, fine, seed);
        assert(all[index] == index as u32);
        all.lemma_filter_contains(p, index);
        let k = kept.index_of(index as u32);
        assert(found_at(range, fine, kept[k], seed));
    }
}

/// The fine pass keeps a seed for an index.
spec fn found_at(range: GpuRange, fine: Seq<CheckObject>, index: u32, seed: u64) -> bool {
    plan::block_candidates_of(fine, ((range.start + index) * 0x1000) as u64, 0x1000).contains(seed)
}

proof fn lemma_seeds_at(range: GpuRange, fine: Seq<CheckObject>, indices: Seq<u32>, seed: u64)
    ensures
        shader::seeds_at(range, fine, indices).contains(seed) <==> exists|k: int|
            0 <= k < indices.len() && found_at(range, fine, #[trigger] indices[k], seed),
    decreases indices.len(),
{
    if indices.len() > 0 {
        let before = indices.drop_last();
        lemma_seeds_at(range, fine, before, seed);
        let a = shader::seeds_at(range, fine, before);
        let b = plan::block_candidates_of(
            fine,
            ((range.start + indices.last()) * 0x1000) as u64,
            0x1000,
        );
        cross::lemma_contains_concat(a, b, seed);
        if a.contains(seed) {
            let k = choose|k: int|
                0 <= k < before.len() && found_at(range, fine, #[trigger] before[k], seed);
            assert(indices[k] == before[k]);
        }
        if b.contains(seed) {
            assert(found_at(range, fine, indices[indices.len() - 1], seed));
        }
        if exists|k: int| 0 <= k < indices.len() && found_at(range, fine, #[trigger] indices[k], seed) {
            let k = choose|k: int|
                0 <= k < indices.len() && found_at(range, fine, #[trigger] indices[k], seed);
            if k < before.len() {
                assert(before[k] == indices[k]);
            }
        }
    }
}

/// A pass with the buffers of the search overflows exactly if more indices or more seeds of its
/// range are kept than the buffers hold. In a range that is not halved only the seeds can be too
/// many.
pub proof fn law_passes_overflow_where_buffers_are_too_small(
    range: GpuRange,
    coarse: Seq<CheckObject>,
    fine: Seq<CheckObject>,
    stats: StatsReadback,
)
    requires
        shader::counters(range, coarse, fine, MAX_COARSE as nat, MAX_FINE as nat, stats),
    ensures
        gpu_search::overflows(Some(stats)) <==> shader::kept_indices(
            range,
            coarse,
            range.len as nat,
        ).len() > MAX_COARSE || shader::kept_seeds(range, coarse, fine).len() > MAX_FINE,
        range.len <= SHORTEST_SPLIT ==> (gpu_search::overflows(Some(stats)) <==> shader::kept_seeds(
            range,
            coarse,
            fine,
        ).len() > MAX_FINE),
{
    let all = Seq::new(range.len as nat, |i: int| i as u32);
    let p = |i: u32|
        cross::passes_all(coarse, (((range.start + i) * 0x1000) % java::states()) as u64);
    all.lemma_filter_len(p);
}

/// A pass that does not overflow reads back all seeds that it keeps, and their number.
pub proof fn law_passes_without_overflow_count_every_seed(
    range: GpuRange,
    coarse: Seq<CheckObject>,
    fine: Seq<CheckObject>,
    stats: StatsReadback,
)
    requires
        shader::counters(range, coarse, fine, MAX_COARSE as nat, MAX_FINE as nat, stats),
        !gpu_search::overflows(Some(stats)),
    ensures
        gpu_search::pass_result(range, Some(stats)) == (PassResult::Searched {
            results: shader::kept_seeds(range, coarse, fine).len() as u32,
            progress: (range.len * 0x1000) as u64,
        }),
        shader::kept_seeds(range, coarse, fine).len() <= MAX_FINE,
{
    let n = shader::kept_seeds(range, coarse, fine).len();
    law_passes_overflow_where_buffers_are_too_small(range, coarse, fine, stats);
    lemma_small_mod(n, 0x1_0000_0000);
}

/// Which passes overflowed.
pub open spec fn overflows_of(stats: Seq<Option<StatsReadback>>) -> Seq<bool> {
    stats.map_values(|s: Option<StatsReadback>| gpu_search::overflows(s))
}

/// The counters are those of the passes over the ranges on the stack, as far as they could be read.
pub open spec fn counted(
    stack: Seq<GpuRange>,
    coarse: Seq<CheckObject>,
    fine: Seq<CheckObject>,
    stats: Seq<Option<StatsReadback>>,
) -> bool
    decreases stats.len(),
{
    stats.len() > 0 && stack.len() > 0 ==> {
        &&& stats[0] matches Some(s) ==> shader::counters(
            stack.last(),
            coarse,
            fine,
            MAX_COARSE as nat,
            MAX_FINE as nat,
            s,
        )
        &&& counted(
            gpu_search::after_pass(stack, gpu_search::overflows(stats[0])),
            coarse,
            fine,
            stats.drop_first(),
        )
    }
}

/// A range is given up only if it is too short to be halved, and more of its seeds are kept than
/// the buffer holds, or counters could not be read.
pub proof fn law_ranges_are_given_up_only_for_cause(
    stack: Seq<GpuRange>,
    coarse: Seq<CheckObject>,
    fine: Seq<CheckObject>,
    stats: Seq<Option<StatsReadback>>,
    k: int,
)
    requires
        gpu_search::tiled(stack),
        gpu_search::frontier(stack) <= TOTAL_UPPER,
        counted(stack, coarse, fine, stats),
        0 <= k < given_up(stack, overflows_of(stats)).len(),
    ensures
        ({
            let range = given_up(stack, overflows_of(stats))[k];
            &&& range.len <= SHORTEST_SPLIT
            &&& range.end() <= TOTAL_UPPER
            &&& shader::kept_seeds(range, coarse, fine).len() > MAX_FINE || exists|j: int|
                0 <= j < stats.len() && (#[trigger] stats[j]) is None
        }),
    decreases stats.len(),
{
    let all = overflows_of(stats);
    if stats.len() > 0 && stack.len() > 0 {
        let rest = stats.drop_first();
        let overflow = gpu_search::overflows(stats[0]);
        let next = gpu_search::after_pass(stack, overflow);
        lemma_pass(stack, overflow);
        assert(gpu_search::frontier(next) <= gpu_search::frontier(stack));
        assert(all.drop_first() == overflows_of(rest));
        let later = given_up(next, all.drop_first());
        let here = all[0] && stack.last().len <= SHORTEST_SPLIT;
        if here && k == 0 {
            assert(given_up(stack, all)[0] == stack.last());
            if let Some(s) = stats[0] {
                law_passes_overflow_where_buffers_are_too_small(stack.last(), coarse, fine, s);
            } else {
                assert(stats[0] is None);
            }
        } else {
            let j = if here {
                k - 1
            } else {
                k
            };
            assert(given_up(stack, all)[k] == later[j]);
            law_ranges_are_given_up_only_for_cause(next, coarse, fine, rest, j);
            if exists|i: int| 0 <= i < rest.len() && (#[trigger] rest[i]) is None {
                let i = choose|i: int| 0 <= i < rest.len() && (#[trigger] rest[i]) is None;
                assert(stats[i + 1] is None);
            }
        }
    }
}

/// Nothing is given up where all counters could be read and the buffer holds the seeds of every
/// range that is too short to be halved.
pub proof fn law_nothing_is_given_up_where_buffers_suffice(
    stack: Seq<GpuRange>,
    coarse: Seq<CheckObject>,
    fine: Seq<CheckObject>,
    stats: Seq<Option<StatsReadback>>,
)
    requires
        gpu_search::tiled(stack),
        gpu_search::frontier(stack) <= TOTAL_UPPER,
        counted(stack, coarse, fine, stats),
        forall|j: int| 0 <= j < stats.len() ==> (#[trigger] stats[j]) is Some,
        forall|range: GpuRange|
            range.len <= SHORTEST_SPLIT && range.end() <= TOTAL_UPPER ==> (#[trigger] shader::kept_seeds(
                range,
                coarse,
                fine,
            )).len() <= MAX_FINE,
    ensures
        given_up(stack, overflows_of(stats)).len() == 0,
{
    if given_up(stack, overflows_of(stats)).len() > 0 {
        law_ranges_are_given_up_only_for_cause(stack, coarse, fine, stats, 0);
    }
}

/// Both kinds of search report the same: where a search on the graphics processor has come to its
/// end without giving up a range, the seeds that the cross comparison reports for what it found
/// are those that it reports for what any number of workers find, and those that it reports for
/// all seeds of 48 bits that pass the checks of the primary surface.
pub proof fn law_both_searches_report_the_same_seeds<S>(
    sender: GpuCrossComparisonSender<S>,
    filters: Seq<BlockFilter>,
    overflows: Seq<bool>,
    thread_count: int,
    w: u64,
)
    requires
        plan::all_checkable(filters),
        run(gpu_search::first_ranges(64), overflows).len() == 0,
        given_up(gpu_search::first_ranges(64), overflows).len() == 0,
        thread_count > 0,
    ensures
        ({
            let coarse = plan::coarse_checks_of(filters);
            let full = plan::full_checks(filters);
            let ranges = searched(gpu_search::first_ranges(64), overflows);
            let on_gpu = exists|c: u64|
                passes_find(
                    ranges,
                    gpu::filled_of(coarse),
                    gpu::filled_of(full),
                    c,
                ) && #[trigger] sender.explains(c, w);
            let on_threads = exists|c: u64|
                search::workers_find(coarse, full, thread_count, c) && #[trigger] sender.explains(
                    c,
                    w,
                );
            let anywhere = exists|c: u64|
                c <= MASK48 && cross::passes_all(full, c) && #[trigger] sender.explains(c, w);
            &&& on_gpu == on_threads
            &&& on_gpu == anywhere
        }),
{
    let coarse = plan::coarse_checks_of(filters);
    let full = plan::full_checks(filters);
    let ranges = searched(gpu_search::first_ranges(64), overflows);
    let (handed_coarse, handed_full) = (gpu::filled_of(coarse), gpu::filled_of(full));
    assert forall|c: u64| #[trigger]
        sender.explains(c, w) implies passes_find(ranges, handed_coarse, handed_full, c)
        == search::workers_find(coarse, full, thread_count, c) && passes_find(
        ranges,
        handed_coarse,
        handed_full,
        c,
    ) == (c <= MASK48 && cross::passes_all(full, c)) by {
        law_passes_find_exactly_the_passing_seeds(handed_coarse, handed_full, overflows, c);
        search::law_workers_find_exactly_the_passing_seeds(filters, thread_count, c);
        gpu::lemma_filled(coarse, (c - c % 0x1000) as u64);
        gpu::lemma_filled(full, c);
        if cross::passes_all(full, c) {
            search::law_coarse_pass_keeps_candidates(filters, c);
        }
    }
}

/// Both kinds of search for blocks report the same seeds, and exactly those of the worlds that show
/// all blocks: the structure seeds of these worlds, or the longs of the generator whose low 48
/// bits are such a structure seed.
pub proof fn law_both_searches_report_the_worlds_that_show_the_blocks<S>(
    sender: GpuCrossComparisonSender<S>,
    blocks: Seq<Block>,
    mode: BedrockGeneration,
    is_floor_primary: bool,
    overflows: Seq<bool>,
    thread_count: int,
    w: u64,
)
    requires
        forall|i: int| 0 <= i < blocks.len() ==> plan::checkable(#[trigger] blocks[i]),
        worlds::compares(sender, blocks, mode, is_floor_primary),
        run(gpu_search::first_ranges(64), overflows).len() == 0,
        given_up(gpu_search::first_ranges(64), overflows).len() == 0,
        thread_count > 0,
    ensures
        ({
            let filters = worlds::primary_filters(blocks, mode, is_floor_primary);
            let coarse = plan::coarse_checks_of(filters);
            let full = plan::full_checks(filters);
            let ranges = searched(gpu_search::first_ranges(64), overflows);
            let on_gpu = exists|c: u64|
                passes_find(
                    ranges,
                    gpu::filled_of(coarse),
                    gpu::filled_of(full),
                    c,
                ) && #[trigger] sender.explains(c, w);
            let on_threads = exists|c: u64|
                search::workers_find(coarse, full, thread_count, c) && #[trigger] sender.explains(
                    c,
                    w,
                );
            let shown = match sender.output_mode {
                OutputMode::StructureSeed => w <= MASK48 && worlds::shows_all(w, blocks, mode),
                OutputMode::WorldSeed => {
                    &&& exists|p: u64| p <= MASK48 && w == #[trigger] java::long_of_seed(p)
                    &&& worlds::shows_all(w & MASK48, blocks, mode)
                },
            };
            &&& on_gpu == on_threads
            &&& on_gpu == shown
        }),
{
    let filters = worlds::primary_filters(blocks, mode, is_floor_primary);
    plan::lemma_filters_checkable(blocks, mode, |b: Block| b.y < 64);
    plan::lemma_filters_checkable(blocks, mode, |b: Block| b.y >= 64);
    law_both_searches_report_the_same_seeds(sender, filters, overflows, thread_count, w);
    match sender.output_mode {
        OutputMode::StructureSeed => {
            worlds::law_search_finds_structure_seeds(sender, blocks, mode, is_floor_primary, w);
        },
        OutputMode::WorldSeed => {
            worlds::law_search_finds_world_seeds(sender, blocks, mode, is_floor_primary, w);
        },
    }
}

/// The progress that a search on the graphics processor reports, from the counters of its passes
/// and from what each report is answered: after a report that nobody hears, or that is not
/// answered, there is none.
pub open spec fn reports(
    stack: Seq<GpuRange>,
    stats: Seq<Option<StatsReadback>>,
    heard: Seq<bool>,
) -> Seq<u64>
    decreases stats.len(),
{
    if stats.len() == 0 || stack.len() == 0 {
        Seq::empty()
    } else {
        let next = gpu_search::after_pass(stack, gpu_search::overflows(stats[0]));
        match gpu_search::pass_result(stack.last(), stats[0]) {
            PassResult::Searched { results, progress } => {
                if heard.len() > 0 && heard[0] {
                    seq![progress] + reports(next, stats.drop_first(), heard.drop_first())
                } else {
                    seq![progress]
                }
            },
            _ => reports(next, stats.drop_first(), heard),
        }
    }
}

/// A search whose first pass does not overflow, and whose first report nobody hears, reports the
/// 2^42 seeds of one range and no more.
pub proof fn law_unheard_search_reports_one_range(
    stats: Seq<Option<StatsReadback>>,
    heard: Seq<bool>,
)
    requires
        stats.len() > 0,
        !gpu_search::overflows(stats[0]),
        heard.len() > 0,
        !heard[0],
    ensures
        reports(gpu_search::first_ranges(64), stats, heard) == seq![0x400_0000_0000u64],
{
    assert(gpu_search::first_ranges(64).last().len == RANGE_LEN);
}

/// A search from the first ranges, of which no pass overflows and every report is heard, reports
/// 2^42 seeds once for each of these ranges.
pub proof fn law_heard_search_reports_every_range(
    stats: Seq<Option<StatsReadback>>,
    heard: Seq<bool>,
    count: nat,
)
    requires
        count <= 64,
        stats.len() >= count,
        heard.len() >= count,
        forall|i: int| 0 <= i < count ==> !gpu_search::overflows(#[trigger] stats[i]),
        forall|i: int| 0 <= i < count ==> #[trigger] heard[i],
    ensures
        reports(gpu_search::first_ranges(count), stats, heard) == Seq::new(
            count,
            |i: int| 0x400_0000_0000u64,
        ),
    decreases count,
{
    let stack = gpu_search::first_ranges(count);
    if count > 0 {
        let fewer = (count - 1) as nat;
        let (later, after) = (stats.drop_first(), heard.drop_first());
        assert(stack.drop_last() == gpu_search::first_ranges(fewer));
        assert(stack.last().len == RANGE_LEN);
        assert forall|i: int| 0 <= i < fewer implies !gpu_search::overflows(#[trigger] later[i]) by {
            assert(later[i] == stats[i + 1]);
        }
        assert forall|i: int| 0 <= i < fewer implies #[trigger] after[i] by {
            assert(after[i] == heard[i + 1]);
        }
        assert(!gpu_search::overflows(stats[0]) && heard[0]);
        law_heard_search_reports_every_range(later, after, fewer);
    }
    assert(reports(stack, stats, heard) == Seq::new(count, |i: int| 0x400_0000_0000u64));
}

/// The low word of a number is its remainder by 2^32 and the high word the quotient; the bytes of a
/// word are its digits to the base 256, the least significant first or last.
pub proof fn law_words_and_bytes_are_digits(val: u64, word: u32)
    ensures
        val == gpu::low_word(val) + gpu::high_word(val) * 4294967296,
        word == gpu::byte_of(word, 0) + gpu::byte_of(word, 1) * 256 + gpu::byte_of(word, 2) * 65536
            + gpu::byte_of(word, 3) * 16777216,
        gpu::little_endian(seq![word]) == seq![
            gpu::byte_of(word, 0),
            gpu::byte_of(word, 1),
            gpu::byte_of(word, 2),
            gpu::byte_of(word, 3),
        ],
        gpu::big_endian(seq![word]) == seq![
            gpu::byte_of(word, 3),
            gpu::byte_of(word, 2),
            gpu::byte_of(word, 1),
            gpu::byte_of(word, 0),
        ],
{
}

/// What follows a pass over a range: where a counter flags an overflow, or the counters could not
/// be read, a range of more than 2^18 is halved and another one given up; otherwise as many seeds
/// are read as were found, at most 8388608, and 4096 seeds are reported for each of the range.
pub proof fn law_what_follows_a_pass(range: GpuRange, s: StatsReadback, rest: Seq<GpuRange>)
    requires
        range.end() <= TOTAL_UPPER,
    ensures
        ({
            let failed = s.coarse_overflow != 0 || s.fine_overflow != 0;
            let stack = rest.push(range);
            &&& gpu_search::overflows(None)
            &&& gpu_search::overflows(Some(s)) <==> failed
            &&& range.len > 262144 ==> {
                &&& gpu_search::pass_result(range, None) == PassResult::Halved
                &&& failed ==> gpu_search::pass_result(range, Some(s)) == PassResult::Halved
                &&& gpu_search::after_pass(stack, true).len() == rest.len() + 2
                &&& gpu_search::after_pass(stack, true).take(rest.len() as int) == rest
                &&& gpu_search::after_pass(stack, true)[rest.len() as int].start == range.start
                &&& gpu_search::after_pass(stack, true)[rest.len() as int].len == range.len / 2
                &&& gpu_search::after_pass(stack, true)[rest.len() as int + 1].start == range.start
                    + range.len / 2
                &&& gpu_search::after_pass(stack, true)[rest.len() as int + 1].len == range.len - range.len
                    / 2
            }
            &&& range.len <= 262144 ==> {
                &&& gpu_search::pass_result(range, None) == PassResult::GaveUp(range)
                &&& failed ==> gpu_search::pass_result(range, Some(s)) == PassResult::GaveUp(range)
                &&& gpu_search::after_pass(stack, true) == rest
            }
            &&& gpu_search::after_pass(stack, false) == rest
            &&& !failed ==> gpu_search::pass_result(range, Some(s)) == (PassResult::Searched {
                results: if s.fine_count < 8388608 {
                    s.fine_count
                } else {
                    8388608
                },
                progress: (range.len * 4096) as u64,
            })
        }),
{
    let stack = rest.push(range);
    assert(stack.drop_last() == rest);
    assert(stack.last() == range);
    if range.len > 262144 {
        assert(gpu_search::after_pass(stack, true).take(rest.len() as int) == rest);
    }
}

/// A search starts with 64 ranges of 2^30, one after the other.
pub proof fn law_a_search_starts_with_equal_ranges(i: int)
    requires
        0 <= i < 64,
    ensures
        gpu_search::first_ranges(64).len() == 64,
        gpu_search::first_ranges(64)[i].start == i * 1073741824,
        gpu_search::first_ranges(64)[i].len == 1073741824,
{
}

} // verus!
