//! A search looks at every seed, and hands every seed to one worker.
use vstd::arithmetic::div_mod::*;
use vstd::arithmetic::power2::*;
use vstd::prelude::*;

use crate::binary64;
use crate::block_data;
use crate::block_data::BlockFilter;
use crate::block_data::CheckObject;
use crate::cross;
use crate::java::MASK48;
use crate::laws::filters;
use crate::plan;
use crate::raw_data::block::Block;

verus! {

/// The shares of the workers begin with the first seed, end with the last one, and each begins
/// where the one before ends.
pub proof fn law_shares_span_all_seeds(thread: int, thread_count: int)
    requires
        0 <= thread < thread_count,
    ensures
        plan::share_start(0, thread_count) == 0,
        plan::share_start(thread_count, thread_count) == MASK48 + 1,
        plan::share_start(thread, thread_count) <= plan::share_start(thread + 1, thread_count),
        plan::share_start(thread, thread_count) % 0x1000 == 0,
{
    lemma_div_is_ordered(thread * 0x10_0000_0000, (thread + 1) * 0x10_0000_0000, thread_count);
    lemma_div_multiples_vanish(0x10_0000_0000, thread_count);
    lemma_div_of0(thread_count);
    lemma_mod_multiples_basic((thread * 0x10_0000_0000) / thread_count, 0x1000);
}

proof fn lemma_shares_ordered(a: int, b: int, thread_count: int)
    requires
        0 <= a <= b,
        thread_count > 0,
    ensures
        plan::share_start(a, thread_count) <= plan::share_start(b, thread_count),
{
    lemma_div_is_ordered(a * 0x10_0000_0000, b * 0x10_0000_0000, thread_count);
}

/// Every seed of 48 bits belongs to the share of exactly one worker.
pub proof fn law_every_seed_has_one_worker(seed: int, thread_count: int) -> (thread: int)
    requires
        0 <= seed <= MASK48,
        thread_count > 0,
    ensures
        0 <= thread < thread_count,
        forall|t: int|
            0 <= t < thread_count ==> (#[trigger] plan::share_start(t, thread_count) <= seed
                < plan::share_start(t + 1, thread_count) <==> t == thread),
{
    law_shares_span_all_seeds(0, thread_count);
    let thread = lemma_find_share(seed, thread_count, thread_count);
    assert forall|t: int| 0 <= t < thread_count implies (#[trigger] plan::share_start(
        t,
        thread_count,
    ) <= seed < plan::share_start(t + 1, thread_count) <==> t == thread) by {
        if t < thread {
            lemma_shares_ordered(t + 1, thread, thread_count);
        } else if t > thread {
            lemma_shares_ordered(thread + 1, t, thread_count);
        }
    }
    thread
}

proof fn lemma_find_share(seed: int, thread_count: int, upto: int) -> (thread: int)
    requires
        0 < upto <= thread_count,
        plan::share_start(0, thread_count) <= seed < plan::share_start(upto, thread_count),
    ensures
        0 <= thread < upto,
        plan::share_start(thread, thread_count) <= seed < plan::share_start(
            thread + 1,
            thread_count,
        ),
    decreases upto,
{
    if plan::share_start(upto - 1, thread_count) <= seed {
        upto - 1
    } else {
        if upto == 1 {
            assert(false);
        }
        lemma_find_share(seed, thread_count, upto - 1)
    }
}

/// The chunks of a share begin with its first seed, end with its last one, each begins where the
/// one before ends, none is empty or larger than a chunk, and all boundaries stay multiples of
/// 2^12.
pub proof fn law_chunks_span_the_share(current: int, limit: int)
    requires
        0 <= current < limit,
        current % 0x1000 == 0,
        limit % 0x1000 == 0,
    ensures
        ({
            let chunks = plan::chunks_of(current, limit);
            &&& chunks.len() > 0
            &&& chunks[0].0 == current
            &&& chunks.last().1 == limit
            &&& forall|i: int|
                0 <= i < chunks.len() ==> (#[trigger] chunks[i]).0 < chunks[i].1 <= chunks[i].0
                    + plan::CHUNK_SIZE && chunks[i].0 % 0x1000 == 0 && chunks[i].1 % 0x1000 == 0
            &&& forall|i: int, j: int|
                0 <= i < chunks.len() && j == i + 1 && j < chunks.len() ==> (#[trigger] chunks[i]).1
                    == (#[trigger] chunks[j]).0
        }),
    decreases limit - current,
{
    let end = if current + plan::CHUNK_SIZE <= limit {
        current + plan::CHUNK_SIZE
    } else {
        limit
    };
    let chunks = plan::chunks_of(current, limit);
    let rest = plan::chunks_of(end, limit);
    assert(end % 0x1000 == 0);
    assert(chunks[0] == (current, end));
    if end < limit {
        law_chunks_span_the_share(end, limit);
        assert(chunks.last() == rest.last());
        assert forall|i: int| 0 <= i < chunks.len() implies (#[trigger] chunks[i]).0 < chunks[i].1
            <= chunks[i].0 + plan::CHUNK_SIZE && chunks[i].0 % 0x1000 == 0 && chunks[i].1 % 0x1000
            == 0 by {
            if i > 0 {
                assert(chunks[i] == rest[i - 1]);
            }
        }
        assert forall|i: int, j: int|
            0 <= i < chunks.len() && j == i + 1 && j < chunks.len() implies (#[trigger] chunks[i]).1
            == (#[trigger] chunks[j]).0 by {
            assert(chunks[j] == rest[j - 1]);
            if i > 0 {
                assert(chunks[i] == rest[i - 1]);
            }
        }
    } else {
        assert(rest.len() == 0);
    }
}

/// The sum of the sizes of chunks.
pub open spec fn total(chunks: Seq<(int, int)>) -> int
    decreases chunks.len(),
{
    if chunks.len() == 0 {
        0
    } else {
        chunks[0].1 - chunks[0].0 + total(chunks.drop_first())
    }
}

/// The progress that a worker reports adds up to the size of its share.
pub proof fn law_progress_adds_up(current: int, limit: int)
    requires
        current <= limit,
    ensures
        total(plan::chunks_of(current, limit)) == limit - current,
    decreases limit - current,
{
    if current < limit {
        let end = if current + plan::CHUNK_SIZE <= limit {
            current + plan::CHUNK_SIZE
        } else {
            limit
        };
        law_progress_adds_up(end, limit);
        assert(plan::chunks_of(current, limit).drop_first() == plan::chunks_of(end, limit));
    }
}

/// The pieces of a list, put together again, are the list.
pub proof fn law_pieces_make_up_the_list(seeds: Seq<u64>, size: nat)
    requires
        size > 0,
    ensures
        plan::pieces(seeds, size).flatten() == seeds,
    decreases seeds.len(),
{
    let all = plan::pieces(seeds, size);
    if seeds.len() == 0 {
    } else if seeds.len() <= size {
        assert(all.drop_first() == Seq::<Seq<u64>>::empty());
        assert(all.drop_first().flatten() == Seq::<u64>::empty());
        assert(all.first() == seeds);
        assert(seeds + Seq::<u64>::empty() == seeds);
    } else {
        let rest = seeds.skip(size as int);
        law_pieces_make_up_the_list(rest, size);
        assert(all.drop_first() == plan::pieces(rest, size));
        assert(all.first() == seeds.take(size as int));
        assert(seeds.take(size as int) + rest == seeds);
    }
}

/// For lists of fewer than 2^53 seeds and as many workers, the workers get equal parts, rounded up:
/// the rounding of the quotient does not show.
pub proof fn law_list_parts_are_equal(len: nat, thread_count: nat)
    requires
        0 < len < binary64::MANTISSA_LIMIT,
        0 < thread_count < binary64::MANTISSA_LIMIT,
    ensures
        plan::list_chunk(len, thread_count) == (len + thread_count - 1) / thread_count as int,
{
    let unit = binary64::unit();
    let t = thread_count;
    lemma_pow2_pos(1074);
    lemma2_to64();
    lemma_pow2_strictly_increases(64, 1074);
    binary64::lemma_small_int(len);
    binary64::lemma_small_int(t);
    assert(len * unit * unit == (len * unit) * unit);
    binary64::lemma_nearest_scale(len * unit, t, unit);
    let n = len * unit;
    let v = binary64::nearest(n, t);
    assert(binary64::over(len * unit, t * unit) == v);
    let c = ((len + t - 1) / t as int) as nat;
    lemma_fundamental_div_mod(len + t - 1, t as int);
    let rem = (len + t - 1) % t as int;
    assert(1 <= c <= len && (c - 1) * t < len <= c * t) by (nonlinear_arith)
        requires
            len + t - 1 == t * c + rem,
            0 <= rem < t,
            t >= 1,
            len >= 1,
    ;
    // Not above the rounded-up quotient.
    binary64::lemma_small_int(c);
    assert(c * unit / 1 == c * unit) by (nonlinear_arith);
    assert(c * unit < pow2(2000)) by {
        lemma_pow2_adds(64, 1074);
        lemma_pow2_strictly_increases(1138, 2000);
        assert(c * unit < pow2(64) * unit) by (nonlinear_arith)
            requires
                c < pow2(64),
                unit > 0,
        ;
    }
    let b = binary64::lemma_nearest_is_binary64(c * unit, 1);
    assert(n <= b@ * t) by (nonlinear_arith)
        requires
            n == len * unit,
            b@ == c * unit,
            len <= c * t,
    ;
    binary64::lemma_nearest_le(n, t, b);
    // Above the number before it.
    binary64::lemma_rounding_error(n, t);
    let gap = binary64::spacing(n / t);
    let f = (c - 1) as nat;
    lemma_fundamental_div_mod(n as int, t as int);
    if gap == 1 {
        assert(t * gap < 2 * unit) by (nonlinear_arith)
            requires
                t < pow2(64),
                gap == 1,
                unit > pow2(64),
        ;
    } else {
        assert(t * gap < 2 * unit) by (nonlinear_arith)
            requires
                binary64::LEAST_NORMAL * gap <= n / t,
                n == t * (n / t) + n % t,
                n % t >= 0,
                n == len * unit,
                len < 2 * binary64::LEAST_NORMAL,
                unit > 0,
                binary64::LEAST_NORMAL == 0x10_0000_0000_0000,
        ;
    }
    assert(v > f * unit) by (nonlinear_arith)
        requires
            2 * (n - v * t) <= t * gap,
            t * gap < 2 * unit,
            n == len * unit,
            f * t + 1 <= len,
            t > 0,
            unit > 0,
    ;
    // So rounding up gives it.
    lemma_fundamental_div_mod(v as int, unit as int);
    let w = v / unit;
    let s = v % unit;
    assert((s == 0 ==> w == c) && (s != 0 ==> w + 1 == c)) by (nonlinear_arith)
        requires
            v == unit * w + s,
            0 <= s < unit,
            f * unit < v <= c * unit,
            c == f + 1,
    ;
}

/// In the layers where bedrock is random, layers 1 to 4 and 123 to 126, every block can be
/// estimated and checked.
pub proof fn law_random_layers_are_checkable(b: Block)
    requires
        1 <= b.y <= 4 || 123 <= b.y <= 126,
    ensures
        plan::measurable(b),
        plan::checkable(b),
{
    filters::law_thresholds_are_exact(block_data::fifths(b.y as int));
    lemma2_to64();
}

/// A seed that passes the checks on all bits passes the coarse checks once its low bits are
/// cleared: a coarse pass loses no candidate.
pub proof fn law_coarse_pass_keeps_candidates(filters: Seq<BlockFilter>, seed: u64)
    requires
        plan::all_checkable(filters),
        cross::passes_all(plan::full_checks(filters), seed),
    ensures
        cross::passes_all(plan::coarse_checks_of(filters), (seed - seed % 0x1000) as u64),
{
    lemma2_to64();
    let p = |f: BlockFilter| f.narrows(plan::COARSE_BITS);
    let part = filters.filter(p);
    let coarse = plan::coarse_checks_of(filters);
    let full = plan::full_checks(filters);
    let cleared = (seed - seed % 0x1000) as u64;
    assert forall|i: int| 0 <= i < coarse.len() implies !#[trigger] block_data::check_fails(
        coarse[i],
        cleared,
    ) by {
        let f = part[i];
        filters.lemma_filter_contains_rev(p, f);
        filters.lemma_filter_pred(p, i);
        let k = filters.index_of(f);
        assert(filters[k].wf());
        assert(!block_data::check_fails(full[k], seed));
        if block_data::check_fails(coarse[i], cleared) {
            filters::law_partial_check_keeps_candidates(f, plan::COARSE_BITS, seed);
        }
    }
}

/// The progress that the first workers report together.
pub open spec fn progress_of_workers(workers: nat, thread_count: int) -> int
    decreases workers,
{
    if workers == 0 {
        0
    } else {
        let w = workers - 1;
        progress_of_workers(w as nat, thread_count) + total(
            plan::chunks_of(
                plan::share_start(w, thread_count),
                plan::share_start(w + 1, thread_count),
            ),
        )
    }
}

/// The progress of all workers adds up to the number of seeds, 2^48.
pub proof fn law_progress_of_all_workers(thread_count: nat)
    requires
        thread_count > 0,
    ensures
        progress_of_workers(thread_count, thread_count as int) == MASK48 + 1,
{
    lemma_progress_of_workers(thread_count, thread_count as int);
    law_shares_span_all_seeds(0, thread_count as int);
}

proof fn lemma_progress_of_workers(workers: nat, thread_count: int)
    requires
        workers <= thread_count,
        thread_count > 0,
    ensures
        progress_of_workers(workers, thread_count) == plan::share_start(
            workers as int,
            thread_count,
        ),
    decreases workers,
{
    if workers == 0 {
        law_shares_span_all_seeds(0, thread_count);
    } else {
        let w = workers - 1;
        lemma_progress_of_workers(w as nat, thread_count);
        law_shares_span_all_seeds(w, thread_count);
        law_progress_adds_up(
            plan::share_start(w, thread_count),
            plan::share_start(w + 1, thread_count),
        );
    }
}

/// The seeds that pass all checks in the first blocks of 2^12 seeds from `start` on.
pub open spec fn candidates_of_blocks(checks: Seq<CheckObject>, start: u64, blocks: nat) -> Seq<u64>
    decreases blocks,
{
    if blocks == 0 {
        Seq::empty()
    } else {
        let last = blocks - 1;
        candidates_of_blocks(checks, start, last as nat) + plan::block_candidates_of(
            checks,
            (start + last * 0x1000) as u64,
            0x1000,
        )
    }
}

/// Searching a chunk block by block finds all seeds of the chunk that pass, in ascending order.
pub proof fn law_blocks_make_up_the_chunk(checks: Seq<CheckObject>, start: u64, blocks: nat)
    requires
        start + blocks * 0x1000 <= 0x1_0000_0000_0000,
    ensures
        candidates_of_blocks(checks, start, blocks) == plan::block_candidates_of(
            checks,
            start,
            blocks * 0x1000,
        ),
    decreases blocks,
{
    let p = |seed: u64| cross::passes_all(checks, seed);
    let f = |i: int| (start + i) as u64;
    if blocks == 0 {
        reveal(Seq::filter);
        assert(Seq::new(0, f) == Seq::<u64>::empty());
    } else {
        let last = (blocks - 1) as nat;
        law_blocks_make_up_the_chunk(checks, start, last);
        let first = (start + last * 0x1000) as u64;
        let a = Seq::new(last * 0x1000, f);
        let b = Seq::new(0x1000, |i: int| (first + i) as u64);
        assert(Seq::new(blocks * 0x1000, f) == a + b);
        Seq::filter_distributes_over_add(a, b, p);
    }
}

/// A seed is found in a chunk exactly if it lies there and passes.
pub proof fn law_chunk_finds_passing_seeds(
    checks: Seq<CheckObject>,
    start: u64,
    blocks: nat,
    seed: u64,
)
    requires
        start + blocks * 0x1000 <= 0x1_0000_0000_0000,
    ensures
        candidates_of_blocks(checks, start, blocks).contains(seed) <==> start <= seed < start
            + blocks * 0x1000 && cross::passes_all(checks, seed),
{
    law_blocks_make_up_the_chunk(checks, start, blocks);
    let p = |seed: u64| cross::passes_all(checks, seed);
    let all = Seq::new(blocks * 0x1000, |i: int| (start + i) as u64);
    let found = all.filter(p);
    if found.contains(seed) {
        let k = found.index_of(seed);
        all.lemma_filter_contains_rev(p, seed);
        all.lemma_filter_pred(p, k);
        let i = all.index_of(seed);
        assert(seed == start + i);
    }
    if start <= seed < start + blocks * 0x1000 && cross::passes_all(checks, seed) {
        let i = seed - start;
        assert(all[i] == seed);
        all.lemma_filter_contains(p, i);
    }
}

/// Every seed of a share lies in one of its chunks.
proof fn lemma_find_chunk(current: int, limit: int, seed: int) -> (k: int)
    requires
        current <= seed < limit,
    ensures
        0 <= k < plan::chunks_of(current, limit).len(),
        plan::chunks_of(current, limit)[k].0 <= seed < plan::chunks_of(current, limit)[k].1,
    decreases limit - current,
{
    let end = if current + plan::CHUNK_SIZE <= limit {
        current + plan::CHUNK_SIZE
    } else {
        limit
    };
    if seed < end {
        0
    } else {
        let k = lemma_find_chunk(end, limit, seed);
        assert(plan::chunks_of(current, limit)[k + 1] == plan::chunks_of(end, limit)[k]);
        k + 1
    }
}

/// Every seed of 48 bits that passes the checks is found by a worker, in one of the chunks of its
/// share.
pub proof fn law_workers_find_every_passing_seed(
    checks: Seq<CheckObject>,
    seed: u64,
    thread_count: int,
) -> (r: (int, int))
    requires
        seed <= MASK48,
        cross::passes_all(checks, seed),
        thread_count > 0,
    ensures
        0 <= r.0 < thread_count,
        ({
            let chunks = plan::chunks_of(
                plan::share_start(r.0, thread_count),
                plan::share_start(r.0 + 1, thread_count),
            );
            let (start, end) = chunks[r.1];
            &&& 0 <= r.1 < chunks.len()
            &&& candidates_of_blocks(
                checks,
                start as u64,
                ((end - start) / 0x1000) as nat,
            ).contains(seed)
        }),
{
    let thread = law_every_seed_has_one_worker(seed as int, thread_count);
    let from = plan::share_start(thread, thread_count);
    let to = plan::share_start(thread + 1, thread_count);
    lemma_shares_ordered(0, thread, thread_count);
    lemma_shares_ordered(thread + 1, thread_count, thread_count);
    law_shares_span_all_seeds(thread, thread_count);
    lemma_mod_multiples_basic(((thread + 1) * 0x10_0000_0000) / thread_count, 0x1000);
    assert(from <= seed < to);
    let k = lemma_find_chunk(from, to, seed as int);
    law_chunks_span_the_share(from, to);
    let chunks = plan::chunks_of(from, to);
    let (start, end) = chunks[k];
    lemma_chunk_bounds(from, to, k);
    law_chunk_finds_passing_seeds(checks, start as u64, ((end - start) / 0x1000) as nat, seed);
    (thread, k)
}

/// The chunks of a share lie in it.
proof fn lemma_chunk_bounds(current: int, limit: int, k: int)
    requires
        current < limit,
        0 <= k < plan::chunks_of(current, limit).len(),
    ensures
        current <= plan::chunks_of(current, limit)[k].0,
        plan::chunks_of(current, limit)[k].1 <= limit,
    decreases limit - current,
{
    let end = if current + plan::CHUNK_SIZE <= limit {
        current + plan::CHUNK_SIZE
    } else {
        limit
    };
    if k > 0 {
        assert(plan::chunks_of(current, limit)[k] == plan::chunks_of(end, limit)[k - 1]);
        lemma_chunk_bounds(end, limit, k - 1);
    }
}

/// A block of 2^12 seeds holds a candidate exactly if the seed lies in it and passes.
pub(crate) proof fn lemma_block_contains(checks: Seq<CheckObject>, first: u64, seed: u64)
    requires
        first + 0x1000 <= 0x1_0000_0000_0000,
    ensures
        plan::block_candidates_of(checks, first, 0x1000).contains(seed) <==> first <= seed < first
            + 0x1000 && cross::passes_all(checks, seed),
{
    law_blocks_make_up_the_chunk(checks, first, 1);
    law_chunk_finds_passing_seeds(checks, first, 1, seed);
}

/// A coarse check before the search of a block changes nothing.
pub proof fn law_coarse_check_of_a_block_changes_nothing(filters: Seq<BlockFilter>, upper: int)
    requires
        plan::all_checkable(filters),
        0 <= upper < 0x10_0000_0000,
    ensures
        plan::found_in_block(
            plan::coarse_checks_of(filters),
            plan::full_checks(filters),
            (upper * 0x1000) as u64,
        ) == plan::block_candidates_of(
            plan::full_checks(filters),
            (upper * 0x1000) as u64,
            0x1000,
        ),
{
    let first = (upper * 0x1000) as u64;
    let full = plan::full_checks(filters);
    let found = plan::block_candidates_of(full, first, 0x1000);
    if found.len() > 0 {
        let seed = found[0];
        assert(found.contains(seed));
        lemma_block_contains(full, first, seed);
        law_coarse_pass_keeps_candidates(filters, seed);
        assert((seed - seed % 0x1000) as u64 == first);
    } else {
        assert(found == Seq::<u64>::empty());
    }
}

/// A worker finds a seed in a block of a chunk of its share.
pub open spec fn worker_finds(
    coarse_checks: Seq<CheckObject>,
    fine_checks: Seq<CheckObject>,
    thread_count: int,
    thread: int,
    chunk: int,
    block: int,
    seed: u64,
) -> bool {
    let chunks = plan::chunks_of(
        plan::share_start(thread, thread_count),
        plan::share_start(thread + 1, thread_count),
    );
    let (start, end) = chunks[chunk];
    &&& 0 <= thread < thread_count
    &&& 0 <= chunk < chunks.len()
    &&& 0 <= block < (end - start) / 0x1000
    &&& plan::found_in_block(
        coarse_checks,
        fine_checks,
        (start + block * 0x1000) as u64,
    ).contains(seed)
}

/// Some worker finds a seed.
pub open spec fn workers_find(
    coarse_checks: Seq<CheckObject>,
    fine_checks: Seq<CheckObject>,
    thread_count: int,
    seed: u64,
) -> bool {
    exists|thread: int, chunk: int, block: int| #[trigger]
        worker_finds(coarse_checks, fine_checks, thread_count, thread, chunk, block, seed)
}

/// The workers find exactly the seeds of 48 bits that pass the checks on all bits.
pub proof fn law_workers_find_exactly_the_passing_seeds(
    filters: Seq<BlockFilter>,
    thread_count: int,
    seed: u64,
)
    requires
        plan::all_checkable(filters),
        thread_count > 0,
    ensures
        workers_find(
            plan::coarse_checks_of(filters),
            plan::full_checks(filters),
            thread_count,
            seed,
        ) <==> seed <= MASK48 && cross::passes_all(plan::full_checks(filters), seed),
{
    let coarse = plan::coarse_checks_of(filters);
    let full = plan::full_checks(filters);
    if workers_find(coarse, full, thread_count, seed) {
        let (thread, chunk, block) = choose|thread: int, chunk: int, block: int| #[trigger]
            worker_finds(coarse, full, thread_count, thread, chunk, block, seed);
        let upper = lemma_block_of_share(thread_count, thread, chunk, block);
        law_coarse_check_of_a_block_changes_nothing(filters, upper);
        lemma_block_contains(full, (upper * 0x1000) as u64, seed);
    }
    if seed <= MASK48 && cross::passes_all(full, seed) {
        let (thread, chunk) = law_workers_find_every_passing_seed(full, seed, thread_count);
        let chunks = plan::chunks_of(
            plan::share_start(thread, thread_count),
            plan::share_start(thread + 1, thread_count),
        );
        let (start, end) = chunks[chunk];
        lemma_share_of_chunk(thread_count, thread, chunk);
        law_chunk_finds_passing_seeds(full, start as u64, ((end - start) / 0x1000) as nat, seed);
        let block = (seed - start) / 0x1000;
        let upper = lemma_block_of_share(thread_count, thread, chunk, block);
        law_coarse_check_of_a_block_changes_nothing(filters, upper);
        lemma_block_contains(full, (upper * 0x1000) as u64, seed);
        assert(worker_finds(coarse, full, thread_count, thread, chunk, block, seed));
    }
}

/// A chunk of a share is one of 48-bit seeds and consists of blocks of 2^12 seeds.
proof fn lemma_share_of_chunk(thread_count: int, thread: int, chunk: int)
    requires
        0 <= thread < thread_count,
        0 <= chunk < plan::chunks_of(
            plan::share_start(thread, thread_count),
            plan::share_start(thread + 1, thread_count),
        ).len(),
    ensures
        ({
            let (start, end) = plan::chunks_of(
                plan::share_start(thread, thread_count),
                plan::share_start(thread + 1, thread_count),
            )[chunk];
            &&& 0 <= start < end <= 0x1_0000_0000_0000
            &&& start % 0x1000 == 0
            &&& end % 0x1000 == 0
        }),
{
    let from = plan::share_start(thread, thread_count);
    let to = plan::share_start(thread + 1, thread_count);
    lemma_shares_ordered(0, thread, thread_count);
    lemma_shares_ordered(thread + 1, thread_count, thread_count);
    law_shares_span_all_seeds(thread, thread_count);
    lemma_mod_multiples_basic(((thread + 1) * 0x10_0000_0000) / thread_count, 0x1000);
    assert(from < to);
    law_chunks_span_the_share(from, to);
    lemma_chunk_bounds(from, to, chunk);
    let it = plan::chunks_of(from, to)[chunk];
    assert(it.0 < it.1);
}

/// The upper bits of a block of a chunk of a share.
proof fn lemma_block_of_share(thread_count: int, thread: int, chunk: int, block: int) -> (upper: int)
    requires
        0 <= thread < thread_count,
        0 <= chunk < plan::chunks_of(
            plan::share_start(thread, thread_count),
            plan::share_start(thread + 1, thread_count),
        ).len(),
        ({
            let (start, end) = plan::chunks_of(
                plan::share_start(thread, thread_count),
                plan::share_start(thread + 1, thread_count),
            )[chunk];
            0 <= block < (end - start) / 0x1000
        }),
    ensures
        0 <= upper < 0x10_0000_0000,
        upper * 0x1000 == plan::chunks_of(
            plan::share_start(thread, thread_count),
            plan::share_start(thread + 1, thread_count),
        )[chunk].0 + block * 0x1000,
{
    lemma_share_of_chunk(thread_count, thread, chunk);
    let (start, end) = plan::chunks_of(
        plan::share_start(thread, thread_count),
        plan::share_start(thread + 1, thread_count),
    )[chunk];
    start / 0x1000 + block
}

/// The progress that a worker reports for its chunks, where `heard` tells what each report is
/// answered: after a report that nobody hears, or that is not answered, there is none.
pub open spec fn reports_of(chunks: Seq<(int, int)>, heard: Seq<bool>) -> Seq<int>
    decreases chunks.len(),
{
    if chunks.len() == 0 {
        Seq::empty()
    } else {
        let first = seq![chunks[0].1 - chunks[0].0];
        if heard.len() > 0 && heard[0] {
            first + reports_of(chunks.drop_first(), heard.drop_first())
        } else {
            first
        }
    }
}

/// A worker reports its chunks in their order, up to and with the first report that nobody hears.
pub proof fn law_reports_end_with_the_first_unheard(
    chunks: Seq<(int, int)>,
    heard: Seq<bool>,
    k: int,
)
    requires
        0 <= k < chunks.len(),
        k < heard.len(),
        forall|i: int| 0 <= i < k ==> #[trigger] heard[i],
        !heard[k] || k == chunks.len() - 1,
    ensures
        reports_of(chunks, heard) == Seq::new(
            (k + 1) as nat,
            |i: int| chunks[i].1 - chunks[i].0,
        ),
    decreases k,
{
    let lengths = Seq::new((k + 1) as nat, |i: int| chunks[i].1 - chunks[i].0);
    if k > 0 {
        let (rest, later) = (chunks.drop_first(), heard.drop_first());
        assert forall|i: int| 0 <= i < k - 1 implies #[trigger] later[i] by {
            assert(later[i] == heard[i + 1]);
        }
        assert(heard[0]);
        law_reports_end_with_the_first_unheard(rest, later, k - 1);
        assert(reports_of(chunks, heard) == lengths);
    } else {
        if heard[0] {
            assert(reports_of(chunks.drop_first(), heard.drop_first()) == Seq::<int>::empty());
        }
        assert(reports_of(chunks, heard) == lengths);
    }
}

/// With at most 2^23 workers every share fills a chunk, so that a worker whose first report nobody
/// hears reports one full chunk and no more.
pub proof fn law_unheard_worker_reports_one_full_chunk(
    thread: int,
    thread_count: int,
    heard: Seq<bool>,
)
    requires
        0 <= thread < thread_count <= 0x80_0000,
        heard.len() > 0,
        !heard[0],
    ensures
        reports_of(
            plan::chunks_of(
                plan::share_start(thread, thread_count),
                plan::share_start(thread + 1, thread_count),
            ),
            heard,
        ) == seq![plan::CHUNK_SIZE as int],
{
    let n = thread_count;
    let all = 0x10_0000_0000int;
    let (q1, r1) = ((thread * all) / n, (thread * all) % n);
    let (q2, r2) = (((thread + 1) * all) / n, ((thread + 1) * all) % n);
    lemma_fundamental_div_mod(thread * all, n);
    lemma_fundamental_div_mod((thread + 1) * all, n);
    assert(q2 - q1 >= 0x2000) by (nonlinear_arith)
        requires
            thread * all == n * q1 + r1,
            (thread + 1) * all == n * q2 + r2,
            0 <= r1 < n,
            0 <= r2 < n,
            0 < n <= 0x80_0000,
            all == 0x10_0000_0000,
    ;
    let chunks = plan::chunks_of(plan::share_start(thread, n), plan::share_start(thread + 1, n));
    assert(chunks[0].1 - chunks[0].0 == plan::CHUNK_SIZE);
}

/// Each worker starts at the last multiple of 2^12 that is not beyond its fraction of all seeds.
pub proof fn law_shares_are_equal(thread: int, thread_count: int)
    requires
        0 <= thread <= thread_count,
        thread_count > 0,
    ensures
        ({
            let start = plan::share_start(thread, thread_count);
            &&& start % 4096 == 0
            &&& start * thread_count <= thread * 281474976710656 < (start + 4096) * thread_count
        }),
{
    let n = thread_count;
    let q = (thread * 0x10_0000_0000) / n;
    let r = (thread * 0x10_0000_0000) % n;
    lemma_fundamental_div_mod(thread * 0x10_0000_0000, n);
    lemma_mod_multiples_basic(q, 0x1000);
    assert(q * 0x1000 * n <= thread * 281474976710656 < (q * 0x1000 + 4096) * n) by (nonlinear_arith)
        requires
            thread * 0x10_0000_0000 == n * q + r,
            0 <= r < n,
    ;
}

/// All chunks of a share but the last one hold 2^25 seeds.
pub proof fn law_chunks_are_full(current: int, limit: int, i: int)
    requires
        0 <= i < plan::chunks_of(current, limit).len() - 1,
    ensures
        plan::chunks_of(current, limit)[i].1 - plan::chunks_of(current, limit)[i].0 == 33554432,
    decreases limit - current,
{
    let end = if current + plan::CHUNK_SIZE <= limit {
        current + plan::CHUNK_SIZE
    } else {
        limit
    };
    let chunks = plan::chunks_of(current, limit);
    let rest = plan::chunks_of(end, limit);
    if i > 0 {
        assert(chunks[i] == rest[i - 1]);
        law_chunks_are_full(end, limit, i - 1);
    } else {
        assert(chunks[0] == (current, end));
        assert(rest.len() > 0);
    }
}

/// The pieces of a list are consecutive parts of it, all of the given size but the last one, which
/// is not empty. Where there is no worker to divide by, a piece may hold any list.
pub proof fn law_pieces_are_full(seeds: Seq<u64>, size: nat, i: int)
    requires
        size > 0,
        0 <= i < plan::pieces(seeds, size).len(),
    ensures
        ({
            let piece = plan::pieces(seeds, size)[i];
            let last = i == plan::pieces(seeds, size).len() - 1;
            &&& 0 <= i * size < seeds.len()
            &&& !last ==> piece == seeds.subrange(i * size, i * size + size)
            &&& last ==> piece == seeds.skip(i * size) && 1 <= piece.len() <= size
        }),
        plan::list_chunk(seeds.len(), 0) == 18446744073709551615,
    decreases seeds.len(),
{
    let all = plan::pieces(seeds, size);
    if seeds.len() <= size {
        assert(i == 0);
        assert(0 * size == 0);
        assert(seeds.skip(0) == seeds);
    } else {
        let rest = seeds.skip(size as int);
        let later = plan::pieces(rest, size);
        assert(later.len() > 0);
        if i > 0 {
            assert(all[i] == later[i - 1]);
            law_pieces_are_full(rest, size, i - 1);
            assert((i - 1) * size + size == i * size) by (nonlinear_arith);
            if i == all.len() - 1 {
                assert(rest.skip((i - 1) * size) == seeds.skip(i * size));
            } else {
                assert((i - 1) * size + size <= rest.len()) by {
                    law_pieces_are_full(rest, size, i);
                    assert(0 <= i * size < rest.len());
                }
                assert(rest.subrange((i - 1) * size, (i - 1) * size + size) == seeds.subrange(
                    i * size,
                    i * size + size,
                ));
            }
        } else {
            assert(0 * size == 0);
            assert(all[0] == seeds.take(size as int));
            assert(seeds.take(size as int) == seeds.subrange(0, size as int));
        }
    }
}

/// The candidates of a block are found in ascending order, each once.
pub proof fn law_candidates_ascend(checks: Seq<CheckObject>, first: u64, count: nat, i: int, j: int)
    requires
        first + count <= u64::MAX,
        0 <= i < j < plan::block_candidates_of(checks, first, count).len(),
    ensures
        plan::block_candidates_of(checks, first, count)[i] < plan::block_candidates_of(
            checks,
            first,
            count,
        )[j],
    decreases count,
{
    let p = |seed: u64| cross::passes_all(checks, seed);
    let f = |i: int| (first + i) as u64;
    reveal(Seq::filter);
    if count == 0 {
        assert(Seq::new(0, f) == Seq::<u64>::empty());
    } else {
        let fewer = (count - 1) as nat;
        let s = Seq::new(count, f);
        let before = Seq::new(fewer, f);
        assert(s.drop_last() == before);
        let found = before.filter(p);
        assert(found == plan::block_candidates_of(checks, first, fewer));
        if j < found.len() {
            law_candidates_ascend(checks, first, fewer, i, j);
        } else {
            before.lemma_filter_contains_rev(p, found[i]);
            let k = before.index_of(found[i]);
            assert(before[k] == found[i]);
        }
    }
}

/// Every seed of a chunk lies in exactly one of its blocks, and the blocks hold nothing else.
pub proof fn law_blocks_tile_the_chunk(start: u64, end: u64, seed: int) -> (i: int)
    requires
        start <= seed < end,
        end <= 0x1_0000_0000_0000,
        (end - start) % 4096 == 0,
    ensures
        0 <= i < plan::starts_of(start, end).len(),
        plan::starts_of(start, end).len() * 4096 == end - start,
        forall|k: int|
            0 <= k < plan::starts_of(start, end).len() ==> (#[trigger] plan::starts_of(start, end)[k]
                <= seed < plan::starts_of(start, end)[k] + 4096 <==> k == i),
{
    (seed - start) / 4096
}

/// In a block whose lowest seed passes the coarse checks exactly those seeds are found that pass the
/// fine checks; in any other block nothing is found.
pub proof fn law_blocks_are_searched_where_the_coarse_checks_pass(
    coarse: Seq<CheckObject>,
    fine: Seq<CheckObject>,
    first: u64,
    seed: u64,
)
    requires
        first + 4096 <= 281474976710656,
    ensures
        plan::found_in_block(coarse, fine, first).contains(seed) <==> cross::passes_all(
            coarse,
            first,
        ) && first <= seed < first + 4096 && cross::passes_all(fine, seed),
{
    lemma_block_contains(fine, first, seed);
}

} // verus!
