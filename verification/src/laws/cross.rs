//! The cross comparison undoes the way from a world seed to the seeds of the surfaces.
use vstd::arithmetic::div_mod::*;
use vstd::prelude::*;

use crate::block_data;
use crate::block_data::BlockFilter;
use crate::block_data::CheckObject;
use crate::cross;
use crate::cross::GpuCrossComparisonSender;
use crate::cross::FLOOR_HASH;
use crate::cross::ROOF_HASH;
use crate::java;
use crate::java::MASK48;
use crate::laws::blocks;
use crate::laws::filters;
use crate::laws::generator;
use crate::plan;
use crate::progress::CrackProgress;
use crate::raw_data::block::Block;
use crate::raw_data::modes::BedrockGeneration;
use crate::raw_data::modes::OutputMode;

verus! {

/// The bedrock seed of a structure seed.
pub open spec fn bedrock_of(structure_seed: u64) -> u64 {
    java::long_of_seed(structure_seed) & MASK48
}

/// The seed of the primary surface of a bedrock seed.
pub open spec fn primary_of<S>(sender: GpuCrossComparisonSender<S>, bedrock_seed: u64) -> u64 {
    java::long_of_seed(bedrock_seed ^ sender.primary_hash) & MASK48
}

/// The structure seed generates this candidate on the primary surface, and a passing seed on the
/// secondary surface.
pub open spec fn generates<S>(
    sender: GpuCrossComparisonSender<S>,
    structure_seed: u64,
    candidate: u64,
) -> bool {
    let b = bedrock_of(structure_seed);
    &&& structure_seed <= MASK48
    &&& primary_of(sender, b) == candidate & MASK48
    &&& cross::passes_all(sender.secondary_checks@, sender.secondary_seed(b))
}

/// Generation runs through one bedrock seed only.
proof fn lemma_unique_bedrock<S>(
    sender: GpuCrossComparisonSender<S>,
    candidate: u64,
    t: u64,
    r: u64,
)
    requires
        sender.primary_hash <= MASK48,
    ensures
        java::seed_leads_to(r, candidate) && java::seed_leads_to(t, r ^ sender.primary_hash) <==> t
            <= MASK48 && r == bedrock_of(t) ^ sender.primary_hash && primary_of(
            sender,
            bedrock_of(t),
        ) == candidate & MASK48,
{
    let h = sender.primary_hash;
    let b = bedrock_of(t);
    java::lemma_mask48(java::long_of_seed(t));
    java::lemma_mask48(java::long_of_seed(b ^ h));
    java::lemma_mask48(java::long_of_seed(r));
    java::lemma_mask48(candidate);
    java::lemma_mask48(r ^ h);
    assert((r ^ h) ^ h == r && (b ^ h) ^ h == b) by (bit_vector);
    assert(r <= 0xFFFF_FFFF_FFFFu64 ==> (r ^ h) <= 0xFFFF_FFFF_FFFFu64 && (r ^ h)
        & 0xFFFF_FFFF_FFFFu64 == (r ^ h)) by (bit_vector)
        requires
            h <= 0xFFFF_FFFF_FFFFu64,
    ;
    assert(b <= 0xFFFF_FFFF_FFFFu64 ==> (b ^ h) <= 0xFFFF_FFFF_FFFFu64 && b & 0xFFFF_FFFF_FFFFu64
        == b) by (bit_vector)
        requires
            h <= 0xFFFF_FFFF_FFFFu64,
    ;
}

/// In structure seed mode the seeds reported for a candidate are exactly the structure seeds that
/// generate the candidate and pass on the secondary surface.
pub proof fn law_structure_seeds_are_found<S>(
    sender: GpuCrossComparisonSender<S>,
    candidate: u64,
    t: u64,
)
    requires
        sender.output_mode == OutputMode::StructureSeed,
        sender.primary_hash <= MASK48,
    ensures
        sender.explains(candidate, t) <==> generates(sender, t, candidate),
{
    let r = bedrock_of(t) ^ sender.primary_hash;
    assert forall|s: u64| #[trigger]
        java::seed_leads_to(s, candidate) && java::seed_leads_to(
            t,
            s ^ sender.primary_hash,
        ) implies s == r by {
        lemma_unique_bedrock(sender, candidate, t, s);
    }
    lemma_unique_bedrock(sender, candidate, t, r);
    let (b, h) = (bedrock_of(t), sender.primary_hash);
    assert((b ^ h) ^ h == b) by (bit_vector);
}

/// In world seed mode the seeds reported for a candidate are exactly the longs of the generator
/// whose low 48 bits are a structure seed that generates the candidate and passes on the
/// secondary surface.
pub proof fn law_world_seeds_are_found<S>(
    sender: GpuCrossComparisonSender<S>,
    candidate: u64,
    w: u64,
)
    requires
        sender.output_mode == OutputMode::WorldSeed,
        sender.primary_hash <= MASK48,
    ensures
        sender.explains(candidate, w) <==> {
            &&& exists|p: u64| p <= MASK48 && w == #[trigger] java::long_of_seed(p)
            &&& generates(sender, w & MASK48, candidate)
        },
{
    let t = w & MASK48;
    java::lemma_mask48(w);
    let r = bedrock_of(t) ^ sender.primary_hash;
    assert forall|s: u64| #[trigger]
        java::seed_leads_to(s, candidate) && java::seed_leads_to(
            t,
            s ^ sender.primary_hash,
        ) implies s == r by {
        lemma_unique_bedrock(sender, candidate, t, s);
    }
    lemma_unique_bedrock(sender, candidate, t, r);
    let (b, h) = (bedrock_of(t), sender.primary_hash);
    assert((b ^ h) ^ h == b) by (bit_vector);
    if sender.explains(candidate, w) {
        let p = choose|p: u64| p < java::states() && w == #[trigger] java::long_of_seed(p);
        assert(p <= MASK48);
    }
    if exists|p: u64| p <= MASK48 && w == #[trigger] java::long_of_seed(p) {
        let p = choose|p: u64| p <= MASK48 && w == #[trigger] java::long_of_seed(p);
        assert(p < java::states());
    }
}

/// A search and a list agree: the structure seeds that pass the checks of both surfaces are those
/// that the cross comparison reports for their own candidate, provided that the candidate passes
/// the checks of the primary surface.
pub proof fn law_list_and_search_agree<S>(
    sender: GpuCrossComparisonSender<S>,
    primary_checks: Seq<CheckObject>,
    t: u64,
)
    requires
        sender.output_mode == OutputMode::StructureSeed,
        sender.primary_hash <= MASK48,
        t <= MASK48,
    ensures
        ({
            let candidate = cross::surface_seed(t, sender.primary_hash);
            cross::passes_all(primary_checks, candidate) && sender.explains(candidate, t)
        }) <==> cross::passes_all(primary_checks, cross::surface_seed(t, sender.primary_hash))
            && cross::passes_all(
            sender.secondary_checks@,
            cross::surface_seed(t, sender.secondary_hash),
        ),
{
    let candidate = cross::surface_seed(t, sender.primary_hash);
    law_structure_seeds_are_found(sender, candidate, t);
    java::lemma_mask48(candidate);
    java::lemma_mask48(java::long_of_seed(bedrock_of(t) ^ sender.primary_hash));
    lemma_small_mod(candidate as nat, java::states() as nat);
}

/// The world with a structure seed shows a block: the draw at its position on its surface is one
/// that explains it.
pub open spec fn shows(structure_seed: u64, b: Block, mode: BedrockGeneration) -> bool {
    let f = block_data::filter_of(b, mode);
    let seed = cross::surface_seed(
        structure_seed,
        if b.y < 64 {
            FLOOR_HASH
        } else {
            ROOF_HASH
        },
    );
    f.lower_bound <= f.draw(seed) <= f.upper_bound
}

/// The world with a structure seed shows all blocks.
pub open spec fn shows_all(structure_seed: u64, blocks: Seq<Block>, mode: BedrockGeneration) -> bool {
    forall|i: int| 0 <= i < blocks.len() ==> shows(structure_seed, #[trigger] blocks[i], mode)
}

/// The checks of some of the blocks pass exactly if the draws explain these blocks.
proof fn lemma_part_passes(
    blocks: Seq<Block>,
    mode: BedrockGeneration,
    p: spec_fn(Block) -> bool,
    seed: u64,
)
    requires
        forall|i: int| 0 <= i < blocks.len() ==> plan::checkable(#[trigger] blocks[i]),
    ensures
        cross::passes_all(plan::full_checks(plan::filters_of(blocks.filter(p), mode)), seed) <==> (
        forall|i: int|
            #![trigger blocks[i]]
            0 <= i < blocks.len() && p(blocks[i]) ==> {
                let f = block_data::filter_of(blocks[i], mode);
                f.lower_bound <= f.draw(seed) <= f.upper_bound
            }),
{
    let part = blocks.filter(p);
    let filters = plan::filters_of(part, mode);
    let checks = plan::full_checks(filters);
    if cross::passes_all(checks, seed) {
        assert forall|i: int|
            #![trigger blocks[i]]
            0 <= i < blocks.len() && p(blocks[i]) implies {
            let f = block_data::filter_of(blocks[i], mode);
            f.lower_bound <= f.draw(seed) <= f.upper_bound
        } by {
            blocks.lemma_filter_contains(p, i);
            let k = part.index_of(blocks[i]);
            block_data::lemma_filter_wf(blocks[i], mode);
            filters::law_full_check_is_the_interval(filters[k], seed);
            assert(!block_data::check_fails(checks[k], seed));
        }
    }
    if forall|i: int|
        #![trigger blocks[i]]
        0 <= i < blocks.len() && p(blocks[i]) ==> {
            let f = block_data::filter_of(blocks[i], mode);
            f.lower_bound <= f.draw(seed) <= f.upper_bound
        } {
        assert forall|k: int| 0 <= k < checks.len() implies !#[trigger] block_data::check_fails(
            checks[k],
            seed,
        ) by {
            blocks.lemma_filter_contains_rev(p, part[k]);
            blocks.lemma_filter_pred(p, k);
            let i = blocks.index_of(part[k]);
            assert(plan::checkable(blocks[i]));
            block_data::lemma_filter_wf(blocks[i], mode);
            filters::law_full_check_is_the_interval(filters[k], seed);
        }
    }
}

/// The sender makes the cross comparison for blocks, from this primary surface.
pub open spec fn compares<S>(
    sender: GpuCrossComparisonSender<S>,
    blocks: Seq<Block>,
    mode: BedrockGeneration,
    is_floor_primary: bool,
) -> bool {
    let secondary = if is_floor_primary {
        plan::roof_part(blocks)
    } else {
        plan::floor_part(blocks)
    };
    &&& sender.secondary_checks@ == plan::full_checks(plan::filters_of(secondary, mode))
    &&& sender.primary_hash == (if is_floor_primary {
        FLOOR_HASH
    } else {
        ROOF_HASH
    })
    &&& sender.secondary_hash == (if is_floor_primary {
        ROOF_HASH
    } else {
        FLOOR_HASH
    })
}

/// The filters of the primary surface.
pub open spec fn primary_filters(
    blocks: Seq<Block>,
    mode: BedrockGeneration,
    is_floor_primary: bool,
) -> Seq<BlockFilter> {
    plan::filters_of(
        if is_floor_primary {
            plan::floor_part(blocks)
        } else {
            plan::roof_part(blocks)
        },
        mode,
    )
}

/// The checks of the primary surface.
pub open spec fn primary_checks(
    blocks: Seq<Block>,
    mode: BedrockGeneration,
    is_floor_primary: bool,
) -> Seq<CheckObject> {
    plan::full_checks(primary_filters(blocks, mode, is_floor_primary))
}

/// A search whose candidates are all seeds of 48 bits that pass the checks of the primary surface
/// reports exactly the structure seeds of the worlds that show all blocks.
pub proof fn law_search_finds_structure_seeds<S>(
    sender: GpuCrossComparisonSender<S>,
    blocks: Seq<Block>,
    mode: BedrockGeneration,
    is_floor_primary: bool,
    t: u64,
)
    requires
        forall|i: int| 0 <= i < blocks.len() ==> plan::checkable(#[trigger] blocks[i]),
        compares(sender, blocks, mode, is_floor_primary),
        sender.output_mode == OutputMode::StructureSeed,
    ensures
        (exists|c: u64|
            c <= MASK48 && cross::passes_all(primary_checks(blocks, mode, is_floor_primary), c)
                && #[trigger] sender.explains(c, t)) <==> t <= MASK48 && shows_all(
            t,
            blocks,
            mode,
        ),
{
    lemma_generated_from_blocks(sender, blocks, mode, is_floor_primary, t);
    let own = cross::surface_seed(t, sender.primary_hash);
    law_structure_seeds_are_found(sender, own, t);
    lemma_own_candidate(sender, own, t);
    assert forall|c: u64|
        c <= MASK48 && cross::passes_all(primary_checks(blocks, mode, is_floor_primary), c)
            && #[trigger] sender.explains(c, t) implies c == own && t <= MASK48 && shows_all(
        t,
        blocks,
        mode,
    ) by {
        law_structure_seeds_are_found(sender, c, t);
        lemma_own_candidate(sender, c, t);
    }
}

/// A search for world seeds reports exactly those longs of the generator whose low 48 bits are the
/// structure seed of a world that shows all blocks.
pub proof fn law_search_finds_world_seeds<S>(
    sender: GpuCrossComparisonSender<S>,
    blocks: Seq<Block>,
    mode: BedrockGeneration,
    is_floor_primary: bool,
    w: u64,
)
    requires
        forall|i: int| 0 <= i < blocks.len() ==> plan::checkable(#[trigger] blocks[i]),
        compares(sender, blocks, mode, is_floor_primary),
        sender.output_mode == OutputMode::WorldSeed,
    ensures
        (exists|c: u64|
            c <= MASK48 && cross::passes_all(primary_checks(blocks, mode, is_floor_primary), c)
                && #[trigger] sender.explains(c, w)) <==> {
            &&& exists|p: u64| p <= MASK48 && w == #[trigger] java::long_of_seed(p)
            &&& shows_all(w & MASK48, blocks, mode)
        },
{
    let t = w & MASK48;
    java::lemma_mask48(w);
    lemma_generated_from_blocks(sender, blocks, mode, is_floor_primary, t);
    let own = cross::surface_seed(t, sender.primary_hash);
    law_world_seeds_are_found(sender, own, w);
    lemma_own_candidate(sender, own, t);
    assert forall|c: u64|
        c <= MASK48 && cross::passes_all(primary_checks(blocks, mode, is_floor_primary), c)
            && #[trigger] sender.explains(c, w) implies c == own && shows_all(t, blocks, mode)
        && exists|p: u64| p <= MASK48 && w == #[trigger] java::long_of_seed(p) by {
        law_world_seeds_are_found(sender, c, w);
        lemma_own_candidate(sender, c, t);
    }
}

/// A candidate of 48 bits is generated by a structure seed exactly if it is the seed of its primary
/// surface.
proof fn lemma_own_candidate<S>(sender: GpuCrossComparisonSender<S>, c: u64, t: u64)
    requires
        c <= MASK48,
        sender.primary_hash <= MASK48,
    ensures
        primary_of(sender, bedrock_of(t)) == c & MASK48 <==> c == cross::surface_seed(
            t,
            sender.primary_hash,
        ),
        cross::surface_seed(t, sender.primary_hash) <= MASK48,
{
    java::lemma_mask48(c);
    java::lemma_mask48(java::long_of_seed(bedrock_of(t) ^ sender.primary_hash));
    lemma_small_mod(c as nat, java::states() as nat);
}

/// A structure seed passes on both surfaces exactly if its world shows all blocks.
proof fn lemma_generated_from_blocks<S>(
    sender: GpuCrossComparisonSender<S>,
    blocks: Seq<Block>,
    mode: BedrockGeneration,
    is_floor_primary: bool,
    t: u64,
)
    requires
        forall|i: int| 0 <= i < blocks.len() ==> plan::checkable(#[trigger] blocks[i]),
        compares(sender, blocks, mode, is_floor_primary),
    ensures
        cross::passes_all(
            primary_checks(blocks, mode, is_floor_primary),
            cross::surface_seed(t, sender.primary_hash),
        ) && cross::passes_all(sender.secondary_checks@, sender.secondary_seed(bedrock_of(t)))
            <==> shows_all(t, blocks, mode),
        cross::surface_seed(t, sender.primary_hash) <= MASK48,
{
    let floor = |b: Block| b.y < 64;
    let roof = |b: Block| b.y >= 64;
    lemma_part_passes(blocks, mode, floor, cross::surface_seed(t, FLOOR_HASH));
    lemma_part_passes(blocks, mode, roof, cross::surface_seed(t, ROOF_HASH));
    java::lemma_mask48(java::long_of_seed(bedrock_of(t) ^ sender.primary_hash));
    let on_floor = cross::passes_all(
        plan::full_checks(plan::filters_of(plan::floor_part(blocks), mode)),
        cross::surface_seed(t, FLOOR_HASH),
    );
    let on_roof = cross::passes_all(
        plan::full_checks(plan::filters_of(plan::roof_part(blocks), mode)),
        cross::surface_seed(t, ROOF_HASH),
    );
    if shows_all(t, blocks, mode) {
        assert forall|i: int|
            #![trigger blocks[i]]
            0 <= i < blocks.len() && floor(blocks[i]) implies {
            let f = block_data::filter_of(blocks[i], mode);
            f.lower_bound <= f.draw(cross::surface_seed(t, FLOOR_HASH)) <= f.upper_bound
        } by {
            assert(shows(t, blocks[i], mode));
        }
        assert forall|i: int|
            #![trigger blocks[i]]
            0 <= i < blocks.len() && roof(blocks[i]) implies {
            let f = block_data::filter_of(blocks[i], mode);
            f.lower_bound <= f.draw(cross::surface_seed(t, ROOF_HASH)) <= f.upper_bound
        } by {
            assert(shows(t, blocks[i], mode));
        }
        assert(on_floor && on_roof);
    }
    if on_floor && on_roof {
        assert forall|i: int| 0 <= i < blocks.len() implies shows(t, #[trigger] blocks[i], mode) by {
            assert(floor(blocks[i]) || roof(blocks[i]));
        }
    }
}

/// A seed passes two sets of checks put together exactly if it passes both, every seed passes no
/// checks, and a seed passes one check exactly if it does not fail it.
pub proof fn law_every_check_has_to_pass(
    a: Seq<CheckObject>,
    b: Seq<CheckObject>,
    check: CheckObject,
    seed: u64,
)
    ensures
        cross::passes_all(a + b, seed) <==> cross::passes_all(a, seed) && cross::passes_all(b, seed),
        cross::passes_all(Seq::empty(), seed),
        cross::passes_all(seq![check], seed) <==> !block_data::check_fails(check, seed),
{
    let both = a + b;
    if cross::passes_all(both, seed) {
        assert forall|i: int| 0 <= i < a.len() implies !#[trigger] block_data::check_fails(
            a[i],
            seed,
        ) by {
            assert(both[i] == a[i]);
        }
        assert forall|i: int| 0 <= i < b.len() implies !#[trigger] block_data::check_fails(
            b[i],
            seed,
        ) by {
            assert(both[a.len() + i] == b[i]);
        }
    }
    if cross::passes_all(a, seed) && cross::passes_all(b, seed) {
        assert forall|i: int| 0 <= i < both.len() implies !#[trigger] block_data::check_fails(
            both[i],
            seed,
        ) by {
            if i < a.len() {
                assert(both[i] == a[i]);
            } else {
                assert(both[i] == b[i - a.len()]);
            }
        }
    }
    if cross::passes_all(seq![check], seed) {
        assert(!block_data::check_fails(seq![check][0], seed));
    }
}

/// The seed of a surface is the low 48 bits of the long that is drawn from the bedrock seed
/// combined with the hash of the surface; the bedrock seed is the low 48 bits of the long that the
/// structure seed draws.
pub proof fn law_surface_seeds_are_drawn_twice<S>(
    sender: GpuCrossComparisonSender<S>,
    t: u64,
    hash: u64,
) -> (bedrock_seed: u64)
    ensures
        bedrock_seed < 281474976710656,
        (java::long_of_seed(t) - bedrock_seed) % 281474976710656 == 0,
        cross::surface_seed(t, hash) < 281474976710656,
        (java::long_of_seed(bedrock_seed ^ hash) - cross::surface_seed(t, hash)) % 281474976710656
            == 0,
        sender.secondary_seed(bedrock_seed) == cross::surface_seed(t, sender.secondary_hash),
        cross::surfaces_fit(t) <==> java::halves_add_up(t) && java::halves_add_up(
            bedrock_seed ^ 343340730u64,
        ) && java::halves_add_up(bedrock_seed ^ 2042456806u64),
{
    let a = java::long_of_seed(t);
    let b = a & MASK48;
    let c = java::long_of_seed(b ^ hash);
    java::lemma_mask48(a);
    java::lemma_mask48(c);
    lemma_whole_rest(a as int);
    lemma_whole_rest(c as int);
    generator::law_long_is_made_of_two_halves(t);
    generator::law_long_is_made_of_two_halves(b ^ ROOF_HASH);
    generator::law_long_is_made_of_two_halves(b ^ FLOOR_HASH);
    b
}

proof fn lemma_whole_rest(x: int)
    ensures
        (x - x % 281474976710656) % 281474976710656 == 0,
{
    lemma_fundamental_div_mod(x, 281474976710656);
    lemma_mod_multiples_basic(x / 281474976710656, 281474976710656);
}

/// What is reported for the seeds of a primary surface is reported for each of them, one after the
/// other: nothing where its bedrock seed fails on the secondary surface, and otherwise the
/// structure seeds of that bedrock seed, or, for each of these, the longs of all seeds that draw
/// it, whatever their sign.
pub proof fn law_reports_follow_each_seed<S>(
    sender: GpuCrossComparisonSender<S>,
    a: Seq<u64>,
    b: Seq<u64>,
    r: u64,
    t: u64,
)
    ensures
        sender.reported(a + b) == sender.reported(a) + sender.reported(b),
        sender.reported(Seq::empty()) == Seq::<u64>::empty(),
        sender.reported(seq![r]) == (if cross::passes_all(
            sender.secondary_checks@,
            sender.secondary_seed(r ^ sender.primary_hash),
        ) {
            cross::final_seeds(sender.output_mode, r ^ sender.primary_hash)
        } else {
            Seq::empty()
        }),
        cross::final_seeds(OutputMode::StructureSeed, r) == java::seeds_before(r),
        cross::final_seeds(OutputMode::WorldSeed, r) == cross::world_seeds(java::seeds_before(r)),
        cross::world_seeds(a + b) == cross::world_seeds(a) + cross::world_seeds(b),
        cross::world_seeds(Seq::empty()) == Seq::<u64>::empty(),
        cross::world_seeds(seq![t]) == Seq::new(
            java::seeds_before(t).len(),
            |i: int| java::long_of_seed(java::seeds_before(t)[i]),
        ),
    decreases b.len(),
{
    assert(seq![r].drop_last() == Seq::<u64>::empty());
    assert(seq![t].drop_last() == Seq::<u64>::empty());
    assert(sender.reported(Seq::<u64>::empty()) == Seq::<u64>::empty());
    assert(cross::world_seeds(Seq::<u64>::empty()) == Seq::<u64>::empty());
    if b.len() == 0 {
        assert(a + b == a);
    } else {
        let before = b.drop_last();
        law_reports_follow_each_seed(sender, a, before, r, t);
        assert((a + b).drop_last() == a + before);
        assert((a + b).last() == b.last());
    }
    assert(sender.reported(a + b) == sender.reported(a) + sender.reported(b));
    assert(cross::world_seeds(a + b) == cross::world_seeds(a) + cross::world_seeds(b));
    assert(sender.reported(seq![r]) == (if cross::passes_all(
        sender.secondary_checks@,
        sender.secondary_seed(r ^ sender.primary_hash),
    ) {
        cross::final_seeds(sender.output_mode, r ^ sender.primary_hash)
    } else {
        Seq::empty()
    }));
    assert(cross::world_seeds(seq![t]) == Seq::new(
        java::seeds_before(t).len(),
        |i: int| java::long_of_seed(java::seeds_before(t)[i]),
    ));
}

/// The longs on the way to the world seeds of structure seeds are defined exactly if the halves of
/// each of them can be added; what number they make does not matter. All longs on the way from
/// the seeds of a primary surface are defined exactly if those on the way from each of them are.
pub proof fn law_only_overflow_stands_in_the_way<S>(
    sender: GpuCrossComparisonSender<S>,
    reversed: Seq<u64>,
    structure_seeds: Seq<u64>,
    bedrock_seed: u64,
)
    ensures
        cross::worlds_fit(structure_seeds) <==> (forall|i: int, j: int|
            0 <= i < structure_seeds.len() && 0 <= j < java::seeds_before(structure_seeds[i]).len()
                ==> java::halves_add_up(#[trigger] java::seeds_before(structure_seeds[i])[j])),
        cross::final_seeds_fit(OutputMode::StructureSeed, bedrock_seed),
        cross::final_seeds_fit(OutputMode::WorldSeed, bedrock_seed) <==> cross::worlds_fit(
            java::seeds_before(bedrock_seed),
        ),
        sender.all_fit(reversed) <==> (forall|i: int|
            #![trigger reversed[i]]
            0 <= i < reversed.len() ==> {
                let b = reversed[i] ^ sender.primary_hash;
                &&& java::halves_add_up(b ^ sender.secondary_hash)
                &&& cross::passes_all(sender.secondary_checks@, sender.secondary_seed(b))
                    ==> cross::final_seeds_fit(sender.output_mode, b)
            }),
{
    assert forall|s: u64| #[trigger] java::long_fits(s) == java::halves_add_up(s) by {
        generator::law_long_is_made_of_two_halves(s);
    }
    if forall|i: int, j: int|
        0 <= i < structure_seeds.len() && 0 <= j < java::seeds_before(structure_seeds[i]).len()
            ==> java::halves_add_up(#[trigger] java::seeds_before(structure_seeds[i])[j]) {
        assert forall|i: int, j: int|
            0 <= i < structure_seeds.len() && 0 <= j < java::seeds_before(
                structure_seeds[i],
            ).len() implies java::long_fits(
            #[trigger] java::seeds_before(structure_seeds[i])[j],
        ) by {
            assert(java::halves_add_up(java::seeds_before(structure_seeds[i])[j]));
        }
    }
    if cross::worlds_fit(structure_seeds) {
        assert forall|i: int, j: int|
            0 <= i < structure_seeds.len() && 0 <= j < java::seeds_before(
                structure_seeds[i],
            ).len() implies java::halves_add_up(
            #[trigger] java::seeds_before(structure_seeds[i])[j],
        ) by {
            assert(java::long_fits(java::seeds_before(structure_seeds[i])[j]));
        }
    }
    if forall|i: int|
        #![trigger reversed[i]]
        0 <= i < reversed.len() ==> {
            let b = reversed[i] ^ sender.primary_hash;
            &&& java::halves_add_up(b ^ sender.secondary_hash)
            &&& cross::passes_all(sender.secondary_checks@, sender.secondary_seed(b))
                ==> cross::final_seeds_fit(sender.output_mode, b)
        } {
        assert forall|i: int| 0 <= i < reversed.len() implies sender.fits(
            #[trigger] reversed[i],
        ) by {
            assert(java::long_fits(reversed[i] ^ sender.primary_hash ^ sender.secondary_hash));
        }
    }
    if sender.all_fit(reversed) {
        assert forall|i: int|
            #![trigger reversed[i]]
            0 <= i < reversed.len() implies {
            let b = reversed[i] ^ sender.primary_hash;
            &&& java::halves_add_up(b ^ sender.secondary_hash)
            &&& cross::passes_all(sender.secondary_checks@, sender.secondary_seed(b))
                ==> cross::final_seeds_fit(sender.output_mode, b)
        } by {
            assert(sender.fits(reversed[i]));
            assert(java::long_fits(reversed[i] ^ sender.primary_hash ^ sender.secondary_hash));
        }
    }
}

/// A candidate is refused only for a long whose halves cannot be added: one behind the secondary
/// surface, or one that is drawn by a seed that draws a structure seed on the way. Such a long
/// behind the secondary surface does refuse it, and so does one that is drawn on the way to a world
/// seed from a bedrock seed that passes.
pub proof fn law_candidates_are_refused_only_for_overflow<S>(
    sender: GpuCrossComparisonSender<S>,
    candidate: u64,
)
    ensures
        (forall|r: u64| #[trigger]
            java::seed_leads_to(r, candidate) ==> java::halves_add_up(
                r ^ sender.primary_hash ^ sender.secondary_hash,
            )) && (forall|r: u64, t: u64, p: u64| #[trigger]
            java::seed_leads_to(r, candidate) && #[trigger] java::seed_leads_to(
                t,
                r ^ sender.primary_hash,
            ) && #[trigger] java::seed_leads_to(p, t) ==> java::halves_add_up(p))
            ==> sender.way_is_defined(candidate),
        sender.way_is_defined(candidate) ==> (forall|r: u64| #[trigger]
            java::seed_leads_to(r, candidate) ==> java::halves_add_up(
                r ^ sender.primary_hash ^ sender.secondary_hash,
            )),
        sender.way_is_defined(candidate) && sender.output_mode == OutputMode::WorldSeed ==> (forall|
            r: u64,
            t: u64,
            p: u64,
        | #[trigger]
            java::seed_leads_to(r, candidate) && cross::passes_all(
                sender.secondary_checks@,
                sender.secondary_seed(r ^ sender.primary_hash),
            ) && #[trigger] java::seed_leads_to(t, r ^ sender.primary_hash)
                && #[trigger] java::seed_leads_to(p, t) ==> java::halves_add_up(p)),
{
}

/// No world is lost: unless a long on the way overflows, the candidate of a world that passes on
/// the secondary surface is not refused, and the seed of the world, a long that the generator
/// draws, positive or negative, is among what is to be reported.
pub proof fn law_worlds_are_not_refused<S>(sender: GpuCrossComparisonSender<S>, p: u64)
    requires
        sender.output_mode == OutputMode::WorldSeed,
        sender.primary_hash <= MASK48,
        p < 281474976710656,
    ensures
        ({
            let w = java::long_of_seed(p);
            let t = (w as int % 281474976710656) as u64;
            let candidate = cross::surface_seed(t, sender.primary_hash);
            &&& sender.explains(candidate, w) <==> cross::passes_all(
                sender.secondary_checks@,
                cross::surface_seed(t, sender.secondary_hash),
            )
            &&& (forall|r: u64| #[trigger]
                java::seed_leads_to(r, candidate) ==> java::halves_add_up(
                    r ^ sender.primary_hash ^ sender.secondary_hash,
                )) && (forall|r: u64, s: u64, q: u64| #[trigger]
                java::seed_leads_to(r, candidate) && #[trigger] java::seed_leads_to(
                    s,
                    r ^ sender.primary_hash,
                ) && #[trigger] java::seed_leads_to(q, s) ==> java::halves_add_up(q))
                ==> sender.way_is_defined(candidate)
        }),
{
    let w = java::long_of_seed(p);
    let t = w & MASK48;
    java::lemma_mask48(w);
    let candidate = cross::surface_seed(t, sender.primary_hash);
    law_world_seeds_are_found(sender, candidate, w);
    java::lemma_mask48(java::long_of_seed(bedrock_of(t) ^ sender.primary_hash));
    lemma_own_candidate(sender, candidate, t);
    assert(p <= MASK48 && w == java::long_of_seed(p));
    law_candidates_are_refused_only_for_overflow(sender, candidate);
}

/// Progress reaches the receiver as it is, and nothing else with it. For a candidate the receiver
/// gets the seeds that are reported for it, each as a seed and in their order, and no progress.
pub proof fn law_reports_reach_the_receiver<S>(
    sender: GpuCrossComparisonSender<S>,
    candidate: u64,
    n: u64,
    i: int,
)
    ensures
        sender.reports_for(CrackProgress::Progress(n)) == seq![CrackProgress::Progress(n)],
        ({
            let seeds = sender.reported(java::seeds_before(candidate));
            let reports = sender.reports_for(CrackProgress::Seed(candidate));
            &&& reports.len() == seeds.len()
            &&& 0 <= i < seeds.len() ==> reports[i] == CrackProgress::Seed(seeds[i])
        }),
{
}

/// A search in a list of structure seeds finds exactly those of the list whose world shows all
/// blocks.
pub proof fn law_lists_find_the_worlds_that_show_the_blocks(
    blocks: Seq<Block>,
    mode: BedrockGeneration,
    t: u64,
)
    requires
        forall|i: int| 0 <= i < blocks.len() ==> plan::checkable(#[trigger] blocks[i]),
    ensures
        cross::passes_on_both(
            t,
            plan::full_checks(plan::filters_of(plan::list_roof_part(blocks), mode)),
            plan::full_checks(plan::filters_of(plan::list_floor_part(blocks), mode)),
        ) <==> shows_all(t, blocks, mode),
{
    let floor = |b: Block| b.y <= 5;
    let roof = |b: Block| b.y > 5;
    let floor_seed = cross::surface_seed(t, FLOOR_HASH);
    let roof_seed = cross::surface_seed(t, ROOF_HASH);
    lemma_part_passes(blocks, mode, floor, floor_seed);
    lemma_part_passes(blocks, mode, roof, roof_seed);
    let on_floor = cross::passes_all(
        plan::full_checks(plan::filters_of(plan::list_floor_part(blocks), mode)),
        floor_seed,
    );
    let on_roof = cross::passes_all(
        plan::full_checks(plan::filters_of(plan::list_roof_part(blocks), mode)),
        roof_seed,
    );
    assert forall|i: int| 0 <= i < blocks.len() implies ((#[trigger] blocks[i]).y > 5
        <==> blocks[i].y >= 64) by {
        blocks::law_which_layers_can_be_used(blocks[i]);
    }
    if shows_all(t, blocks, mode) {
        assert forall|i: int|
            #![trigger blocks[i]]
            0 <= i < blocks.len() && floor(blocks[i]) implies {
            let f = block_data::filter_of(blocks[i], mode);
            f.lower_bound <= f.draw(floor_seed) <= f.upper_bound
        } by {
            assert(shows(t, blocks[i], mode));
        }
        assert forall|i: int|
            #![trigger blocks[i]]
            0 <= i < blocks.len() && roof(blocks[i]) implies {
            let f = block_data::filter_of(blocks[i], mode);
            f.lower_bound <= f.draw(roof_seed) <= f.upper_bound
        } by {
            assert(shows(t, blocks[i], mode));
        }
        assert(on_floor && on_roof);
    }
    if on_floor && on_roof {
        assert forall|i: int| 0 <= i < blocks.len() implies shows(t, #[trigger] blocks[i], mode) by {
            assert(floor(blocks[i]) || roof(blocks[i]));
        }
    }
}

} // verus!
