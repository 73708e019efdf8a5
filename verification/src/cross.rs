//! From a seed of one surface to the seeds of the world.
//!
//! Floor and roof draw from generators whose seeds derive from one common bedrock seed. A search
//! finds a candidate for the seed of the primary surface; the cross comparison goes back to the
//! bedrock seed, derives the seed of the secondary surface and tests it, and goes further back to
//! the structure seed and the world seed.
use std::sync::Arc;
use vstd::prelude::*;

use crate::block_data;
use crate::block_data::CheckObject;
use crate::java;
use crate::java::MASK48;
use crate::progress::CrackProgress;
use crate::raw_data::modes::OutputMode;

verus! {

/// The hash of the roof's name, which tells its generator from the floor's.
pub const ROOF_HASH: u64 = 343340730;

/// The hash of the floor's name.
pub const FLOOR_HASH: u64 = 2042456806;

/// A seed passes a set of checks if it fails none of them.
pub open spec fn passes_all(checks: Seq<CheckObject>, seed: u64) -> bool {
    forall|i: int| 0 <= i < checks.len() ==> !#[trigger] block_data::check_fails(checks[i], seed)
}

/// The world seeds that belong to structure seeds: each structure seed is the low part of the
/// longs that some seeds draw.
pub open spec fn world_seeds(structure_seeds: Seq<u64>) -> Seq<u64>
    decreases structure_seeds.len(),
{
    if structure_seeds.len() == 0 {
        Seq::empty()
    } else {
        world_seeds(structure_seeds.drop_last()) + java::seeds_before(
            structure_seeds.last(),
        ).map_values(|p: u64| java::long_of_seed(p))
    }
}

/// The seeds to report for a bedrock seed.
pub open spec fn final_seeds(output_mode: OutputMode, bedrock_seed: u64) -> Seq<u64> {
    match output_mode {
        OutputMode::WorldSeed => world_seeds(java::seeds_before(bedrock_seed)),
        OutputMode::StructureSeed => java::seeds_before(bedrock_seed),
    }
}

/// Every long on the way to the world seeds is defined.
pub open spec fn worlds_fit(structure_seeds: Seq<u64>) -> bool {
    forall|i: int, j: int|
        0 <= i < structure_seeds.len() && 0 <= j < java::seeds_before(structure_seeds[i]).len()
            ==> java::long_fits(#[trigger] java::seeds_before(structure_seeds[i])[j])
}

/// Every long on the way from a bedrock seed to the reported seeds is defined.
pub open spec fn final_seeds_fit(output_mode: OutputMode, bedrock_seed: u64) -> bool {
    output_mode == OutputMode::WorldSeed ==> worlds_fit(java::seeds_before(bedrock_seed))
}

/// The halves of every long that is drawn as a world seed of a bedrock seed can be added.
pub open spec fn worlds_add_up(bedrock_seed: u64) -> bool {
    forall|t: u64, p: u64| #[trigger]
        java::seed_leads_to(t, bedrock_seed) && #[trigger] java::seed_leads_to(p, t)
            ==> java::halves_add_up(p)
}

/// Whether `w` is to be reported for a bedrock seed, in terms of the generator alone: a structure
/// seed draws the bedrock seed; a world seed is itself a drawn long, and its low 48 bits are a
/// structure seed.
pub open spec fn derives(output_mode: OutputMode, bedrock_seed: u64, w: u64) -> bool {
    match output_mode {
        OutputMode::WorldSeed => {
            &&& exists|p: u64| p < java::states() && w == #[trigger] java::long_of_seed(p)
            &&& java::seed_leads_to(w & MASK48, bedrock_seed)
        },
        OutputMode::StructureSeed => java::seed_leads_to(w, bedrock_seed),
    }
}

/// The seed of a surface, from the structure seed and the hash of the surface's name.
pub open spec fn surface_seed(structure_seed: u64, surface_hash: u64) -> u64 {
    java::long_of_seed((java::long_of_seed(structure_seed) & MASK48) ^ surface_hash) & MASK48
}

/// Every long on the way from a structure seed to its surfaces is defined.
pub open spec fn surfaces_fit(structure_seed: u64) -> bool {
    let bedrock_seed = java::long_of_seed(structure_seed) & MASK48;
    &&& java::long_fits(structure_seed)
    &&& java::long_fits(bedrock_seed ^ ROOF_HASH)
    &&& java::long_fits(bedrock_seed ^ FLOOR_HASH)
}

/// A structure seed passes the checks of both surfaces.
pub open spec fn passes_on_both(
    structure_seed: u64,
    roof_checks: Seq<CheckObject>,
    floor_checks: Seq<CheckObject>,
) -> bool {
    passes_all(roof_checks, surface_seed(structure_seed, ROOF_HASH)) && passes_all(
        floor_checks,
        surface_seed(structure_seed, FLOOR_HASH),
    )
}

/// Whether a seed passes a set of checks.
pub fn passes_checks(checks: &[CheckObject], seed: u64) -> (b: bool)
    ensures
        b == passes_all(checks@, seed),
{
    let mut i: usize = 0;
    while i < checks.len()
        invariant
            i <= checks@.len(),
            forall|j: int| 0 <= j < i ==> !#[trigger] block_data::check_fails(checks@[j], seed),
        decreases checks@.len() - i,
    {
        if checks[i].check(seed) {
            return false;
        }
        i += 1;
    }
    true
}

/// Whether a structure seed passes the checks of both surfaces. Nothing where a long on the way is
/// undefined.
pub fn check_structure_seed(
    structure_seed: u64,
    roof_checks: &[CheckObject],
    floor_checks: &[CheckObject],
) -> (r: Option<bool>)
    ensures
        r is Some <==> surfaces_fit(structure_seed),
        r matches Some(b) ==> b == passes_on_both(structure_seed, roof_checks@, floor_checks@),
{
    if !java::next_long_fits(structure_seed) {
        return None;
    }
    let bedrock_seed: u64 = java::next_long(structure_seed) & MASK48;
    if !java::next_long_fits(bedrock_seed ^ ROOF_HASH) || !java::next_long_fits(
        bedrock_seed ^ FLOOR_HASH,
    ) {
        return None;
    }
    let roof_seed: u64 = java::next_long(bedrock_seed ^ ROOF_HASH) & MASK48;
    let floor_seed: u64 = java::next_long(bedrock_seed ^ FLOOR_HASH) & MASK48;
    Some(passes_checks(roof_checks, roof_seed) && passes_checks(floor_checks, floor_seed))
}

/// What the cross comparison answers to whoever sent `progress`, where `heard` is what the receiver
/// answered to the last report that reached it. A candidate never stops a search; after progress
/// the receiver decides.
pub fn answer(progress: CrackProgress, heard: bool) -> (r: bool)
    ensures
        r == (progress is Seed || heard),
{
    match progress {
        CrackProgress::Seed(_) => true,
        CrackProgress::Progress(_) => heard,
    }
}

/// Performs the cross comparison for candidates before they reach the receiver `inner`.
#[derive(Clone)]
pub struct GpuCrossComparisonSender<S> {
    pub inner: S,
    pub secondary_checks: Arc<Vec<CheckObject>>,
    pub primary_hash: u64,
    pub secondary_hash: u64,
    pub output_mode: OutputMode,
}

impl<S> GpuCrossComparisonSender<S> {
    /// The seed of the secondary surface.
    pub open spec fn secondary_seed(self, bedrock_seed: u64) -> u64 {
        java::long_of_seed(bedrock_seed ^ self.secondary_hash) & MASK48
    }

    /// The seeds of the primary surface `reversed` lead to these reported seeds.
    pub open spec fn reported(self, reversed: Seq<u64>) -> Seq<u64>
        decreases reversed.len(),
    {
        if reversed.len() == 0 {
            Seq::empty()
        } else {
            let bedrock_seed = reversed.last() ^ self.primary_hash;
            let before = self.reported(reversed.drop_last());
            if passes_all(self.secondary_checks@, self.secondary_seed(bedrock_seed)) {
                before + final_seeds(self.output_mode, bedrock_seed)
            } else {
                before
            }
        }
    }

    /// Every long that the cross comparison of these seeds draws is defined.
    pub open spec fn all_fit(self, reversed: Seq<u64>) -> bool {
        forall|i: int| 0 <= i < reversed.len() ==> self.fits(#[trigger] reversed[i])
    }

    /// The same for one seed of the primary surface.
    pub open spec fn fits(self, reversed_seed: u64) -> bool {
        let bedrock_seed = reversed_seed ^ self.primary_hash;
        &&& java::long_fits(bedrock_seed ^ self.secondary_hash)
        &&& passes_all(self.secondary_checks@, self.secondary_seed(bedrock_seed))
            ==> final_seeds_fit(self.output_mode, bedrock_seed)
    }

    /// Whether `w` is to be reported for a candidate, in terms of the generator alone: some seed of
    /// the primary surface draws the candidate, its bedrock seed passes on the secondary surface,
    /// and `w` derives from that bedrock seed.
    pub open spec fn explains(self, candidate: u64, w: u64) -> bool {
        exists|r: u64| #[trigger]
            java::seed_leads_to(r, candidate) && passes_all(
                self.secondary_checks@,
                self.secondary_seed(r ^ self.primary_hash),
            ) && derives(self.output_mode, r ^ self.primary_hash, w)
    }

    /// Every long on the way from a candidate is defined, in terms of the generator alone: the one
    /// behind the secondary surface, and, where world seeds are to be reported for a bedrock seed
    /// that passes there, those of all seeds that draw one of its structure seeds.
    pub open spec fn way_is_defined(self, candidate: u64) -> bool {
        forall|r: u64| #[trigger]
            java::seed_leads_to(r, candidate) ==> {
                let bedrock_seed = r ^ self.primary_hash;
                &&& java::halves_add_up(bedrock_seed ^ self.secondary_hash)
                &&& self.check_passes(r) && self.output_mode == OutputMode::WorldSeed
                    ==> worlds_add_up(bedrock_seed)
            }
    }

    pub fn new(
        inner: S,
        secondary_checks: Vec<CheckObject>,
        is_floor_primary: bool,
        output_mode: OutputMode,
    ) -> (r: Self)
        ensures
            r.inner == inner,
            r.secondary_checks@ == secondary_checks@,
            r.primary_hash == (if is_floor_primary {
                FLOOR_HASH
            } else {
                ROOF_HASH
            }),
            r.secondary_hash == (if is_floor_primary {
                ROOF_HASH
            } else {
                FLOOR_HASH
            }),
            r.output_mode == output_mode,
    {
        let (primary_hash, secondary_hash): (u64, u64) = if is_floor_primary {
            (FLOOR_HASH, ROOF_HASH)
        } else {
            (ROOF_HASH, FLOOR_HASH)
        };
        GpuCrossComparisonSender {
            inner,
            secondary_checks: Arc::new(secondary_checks),
            primary_hash,
            secondary_hash,
            output_mode,
        }
    }

    /// Whether a seed passes all checks of the secondary surface.
    pub fn check_secondary(&self, seed: u64) -> (b: bool)
        ensures
            b == passes_all(self.secondary_checks@, seed),
    {
        passes_checks(self.secondary_checks.as_slice(), seed)
    }

    /// The seeds to report for a candidate of the primary surface.
    ///
    /// The result lists exactly the seeds that explain the candidate. The longs drawn on the way
    /// have to be defined; `try_process_candidate` tests that first.
    pub fn process_candidate(&self, candidate_seed: u64) -> (r: Vec<u64>)
        requires
            self.all_fit(java::seeds_before(candidate_seed)),
        ensures
            r@ == self.reported(java::seeds_before(candidate_seed)),
            forall|w: u64| #[trigger] r@.contains(w) == self.explains(candidate_seed, w),
    {
        let reversed: Vec<u64> = java::reverse_next_long(candidate_seed);
        let mut r: Vec<u64> = Vec::new();
        let mut i: usize = 0;
        while i < reversed.len()
            invariant
                i <= reversed@.len(),
                reversed@ == java::seeds_before(candidate_seed),
                self.all_fit(reversed@),
                r@ == self.reported(reversed@.take(i as int)),
                forall|w: u64| #[trigger]
                    r@.contains(w) <==> exists|k: int|
                        0 <= k < i && self.found_from(#[trigger] reversed@[k], w),
            decreases reversed@.len() - i,
        {
            let bedrock_seed: u64 = reversed[i] ^ self.primary_hash;
            proof {
                assert(self.fits(reversed@[i as int]));
            }
            let secondary_seed: u64 = java::next_long(bedrock_seed ^ self.secondary_hash) & MASK48;
            let ghost before = r@;
            if self.check_secondary(secondary_seed) {
                let mut found: Vec<u64> = derive_seeds(self.output_mode, bedrock_seed);
                let ghost added = found@;
                r.append(&mut found);
                proof {
                    assert forall|w: u64| #[trigger] r@.contains(w) <==> before.contains(w)
                        || self.found_from(reversed@[i as int], w) by {
                        lemma_contains_concat(before, added, w);
                    }
                }
            }
            proof {
                let next = reversed@.take(i + 1);
                assert(next.drop_last() == reversed@.take(i as int));
                assert(next.last() == reversed@[i as int]);
                assert(r@ == self.reported(next));
                assert forall|w: u64| #[trigger] r@.contains(w) <==> exists|k: int|
                    0 <= k < i + 1 && self.found_from(#[trigger] reversed@[k], w) by {
                    assert(before.contains(w) <==> exists|k: int|
                        0 <= k < i && self.found_from(#[trigger] reversed@[k], w));
                    assert(r@.contains(w) <==> before.contains(w) || self.found_from(
                        reversed@[i as int],
                        w,
                    ));
                }
            }
            i += 1;
        }
        proof {
            assert(reversed@.take(i as int) == reversed@);
            assert forall|w: u64| #[trigger] r@.contains(w) == self.explains(candidate_seed, w) by {
                if r@.contains(w) {
                    let k = choose|k: int|
                        0 <= k < i && self.found_from(#[trigger] reversed@[k], w);
                    assert(reversed@.contains(reversed@[k]));
                }
                if self.explains(candidate_seed, w) {
                    let t = choose|t: u64| #[trigger]
                        java::seed_leads_to(t, candidate_seed) && self.found_from(t, w);
                    assert(reversed@.contains(t));
                    let k = reversed@.index_of(t);
                    assert(self.found_from(reversed@[k], w));
                }
            }
        }
        r
    }

    /// The bedrock seed of a primary surface seed passes on the secondary surface.
    pub open spec fn check_passes(self, reversed_seed: u64) -> bool {
        passes_all(
            self.secondary_checks@,
            self.secondary_seed(reversed_seed ^ self.primary_hash),
        )
    }

    /// `w` is reported for one seed of the primary surface.
    pub open spec fn found_from(self, reversed_seed: u64, w: u64) -> bool {
        self.check_passes(reversed_seed) && derives(
            self.output_mode,
            reversed_seed ^ self.primary_hash,
            w,
        )
    }

    /// The seeds to report for a candidate, or nothing where a long on the way is undefined.
    pub fn try_process_candidate(&self, candidate_seed: u64) -> (r: Option<Vec<u64>>)
        ensures
            r is Some <==> self.all_fit(java::seeds_before(candidate_seed)),
            r is Some <==> self.way_is_defined(candidate_seed),
            r matches Some(v) ==> {
                &&& v@ == self.reported(java::seeds_before(candidate_seed))
                &&& forall|w: u64| #[trigger] v@.contains(w) == self.explains(candidate_seed, w)
            },
    {
        let reversed: Vec<u64> = java::reverse_next_long(candidate_seed);
        let mut i: usize = 0;
        while i < reversed.len()
            invariant
                i <= reversed@.len(),
                reversed@ == java::seeds_before(candidate_seed),
                forall|r: u64| #[trigger]
                    reversed@.contains(r) == java::seed_leads_to(r, candidate_seed),
                forall|k: int| 0 <= k < i ==> self.fits(#[trigger] reversed@[k]),
                forall|k: int|
                    #![trigger reversed@[k]]
                    0 <= k < i ==> {
                        let bedrock_seed = reversed@[k] ^ self.primary_hash;
                        &&& java::halves_add_up(bedrock_seed ^ self.secondary_hash)
                        &&& self.check_passes(reversed@[k]) && self.output_mode
                            == OutputMode::WorldSeed ==> worlds_add_up(bedrock_seed)
                    },
            decreases reversed@.len() - i,
        {
            let bedrock_seed: u64 = reversed[i] ^ self.primary_hash;
            proof {
                assert(reversed@.contains(reversed@[i as int]));
                assert(java::seed_leads_to(reversed@[i as int], candidate_seed));
            }
            let secondary_input: u64 = bedrock_seed ^ self.secondary_hash;
            if !java::next_long_fits(secondary_input) {
                proof {
                    assert(!self.fits(reversed@[i as int]));
                }
                return None;
            }
            let secondary_seed: u64 = java::next_long(secondary_input) & MASK48;
            if self.check_secondary(secondary_seed) && self.output_mode == OutputMode::WorldSeed
                && !worlds_defined(bedrock_seed) {
                proof {
                    assert(!self.fits(reversed@[i as int]));
                }
                return None;
            }
            i += 1;
        }
        proof {
            assert forall|r: u64| #[trigger] java::seed_leads_to(r, candidate_seed) implies {
                let bedrock_seed = r ^ self.primary_hash;
                &&& java::halves_add_up(bedrock_seed ^ self.secondary_hash)
                &&& self.check_passes(r) && self.output_mode == OutputMode::WorldSeed
                    ==> worlds_add_up(bedrock_seed)
            } by {
                assert(reversed@.contains(r));
                let k = reversed@.index_of(r);
                assert(reversed@[k] == r);
            }
        }
        Some(self.process_candidate(candidate_seed))
    }

    /// What is to reach the receiver for a report of the search.
    pub open spec fn reports_for(self, progress: CrackProgress) -> Seq<CrackProgress> {
        match progress {
            CrackProgress::Seed(candidate) => self.reported(
                java::seeds_before(candidate),
            ).map_values(|w: u64| CrackProgress::Seed(w)),
            CrackProgress::Progress(n) => seq![CrackProgress::Progress(n)],
        }
    }

    /// What reaches the receiver when `progress` is sent: a candidate is replaced by the seeds
    /// that explain it, the progress of the search is handed on. Nothing where a long on the way
    /// from a candidate is undefined.
    pub fn outgoing(&self, progress: CrackProgress) -> (r: Option<Vec<CrackProgress>>)
        ensures
            r is Some <==> (progress matches CrackProgress::Seed(candidate) ==> self.all_fit(
                java::seeds_before(candidate),
            )),
            r is Some <==> (progress matches CrackProgress::Seed(candidate) ==> self.way_is_defined(
                candidate,
            )),
            r matches Some(v) ==> v@ == self.reports_for(progress),
    {
        let mut r: Vec<CrackProgress> = Vec::new();
        match progress {
            CrackProgress::Seed(candidate) => {
                match self.try_process_candidate(candidate) {
                    None => None,
                    Some(seeds) => {
                        let mut i: usize = 0;
                        while i < seeds.len()
                            invariant
                                i <= seeds@.len(),
                                r@ == seeds@.take(i as int).map_values(
                                    |w: u64| CrackProgress::Seed(w),
                                ),
                            decreases seeds@.len() - i,
                        {
                            r.push(CrackProgress::Seed(seeds[i]));
                            proof {
                                assert(seeds@.take(i + 1) == seeds@.take(i as int).push(
                                    seeds@[i as int],
                                ));
                            }
                            i += 1;
                        }
                        proof {
                            assert(seeds@.take(i as int) == seeds@);
                        }
                        Some(r)
                    },
                }
            },
            CrackProgress::Progress(n) => {
                r.push(CrackProgress::Progress(n));
                Some(r)
            },
        }
    }
}

/// A seed is in one of two lists put together if and only if it is in one of them.
pub(crate) proof fn lemma_contains_concat(a: Seq<u64>, b: Seq<u64>, w: u64)
    ensures
        (a + b).contains(w) <==> a.contains(w) || b.contains(w),
{
    let c = a + b;
    if a.contains(w) {
        let k = a.index_of(w);
        assert(c[k] == w);
    }
    if b.contains(w) {
        let k = b.index_of(w);
        assert(c[a.len() + k] == w);
    }
    if c.contains(w) {
        let k = c.index_of(w);
        if k < a.len() {
            assert(a[k] == w);
        } else {
            assert(b[k - a.len()] == w);
        }
    }
}

/// Whether `w` is a drawn long whose low 48 bits are the structure seed.
spec fn is_world_of(structure_seed: u64, w: u64) -> bool {
    &&& exists|p: u64| p < java::states() && w == #[trigger] java::long_of_seed(p)
    &&& w & MASK48 == structure_seed
}

/// The world seeds of one structure seed.
fn worlds_of(structure_seed: u64) -> (r: Vec<u64>)
    requires
        structure_seed < java::states(),
        forall|j: int|
            0 <= j < java::seeds_before(structure_seed).len() ==> java::long_fits(
                #[trigger] java::seeds_before(structure_seed)[j],
            ),
    ensures
        r@ == java::seeds_before(structure_seed).map_values(|p: u64| java::long_of_seed(p)),
        forall|w: u64| #[trigger] r@.contains(w) == is_world_of(structure_seed, w),
{
    let previous: Vec<u64> = java::reverse_next_long(structure_seed);
    let mut r: Vec<u64> = Vec::new();
    let mut j: usize = 0;
    while j < previous.len()
        invariant
            j <= previous@.len(),
            forall|k: int| 0 <= k < previous@.len() ==> java::long_fits(#[trigger] previous@[k]),
            r@ == previous@.take(j as int).map_values(|p: u64| java::long_of_seed(p)),
        decreases previous@.len() - j,
    {
        r.push(java::next_long(previous[j]));
        proof {
            assert(previous@.take(j + 1) == previous@.take(j as int).push(previous@[j as int]));
        }
        j += 1;
    }
    proof {
        assert(previous@.take(j as int) == previous@);
        assert forall|w: u64| #[trigger] r@.contains(w) == is_world_of(structure_seed, w) by {
            java::lemma_mask48(w);
            if r@.contains(w) {
                let k = r@.index_of(w);
                assert(previous@.contains(previous@[k]));
                assert(w == java::long_of_seed(previous@[k]));
            }
            if is_world_of(structure_seed, w) {
                let p = choose|p: u64|
                    p < java::states() && w == #[trigger] java::long_of_seed(p);
                assert(previous@.contains(p));
                let k = previous@.index_of(p);
                assert(r@[k] == w);
            }
        }
    }
    r
}

/// The seeds to report for a bedrock seed.
fn derive_seeds(output_mode: OutputMode, bedrock_seed: u64) -> (r: Vec<u64>)
    requires
        final_seeds_fit(output_mode, bedrock_seed),
    ensures
        r@ == final_seeds(output_mode, bedrock_seed),
        forall|w: u64| #[trigger] r@.contains(w) == derives(output_mode, bedrock_seed, w),
{
    let structure_seeds: Vec<u64> = java::reverse_next_long(bedrock_seed);
    if output_mode == OutputMode::StructureSeed {
        return structure_seeds;
    }
    let mut r: Vec<u64> = Vec::new();
    let mut i: usize = 0;
    while i < structure_seeds.len()
        invariant
            i <= structure_seeds@.len(),
            forall|t: u64| #[trigger]
                structure_seeds@.contains(t) == java::seed_leads_to(t, bedrock_seed),
            worlds_fit(structure_seeds@),
            r@ == world_seeds(structure_seeds@.take(i as int)),
            forall|w: u64| #[trigger]
                r@.contains(w) <==> exists|k: int|
                    0 <= k < i && is_world_of(#[trigger] structure_seeds@[k], w),
        decreases structure_seeds@.len() - i,
    {
        let ghost before = r@;
        proof {
            assert(structure_seeds@.contains(structure_seeds@[i as int]));
        }
        let mut found: Vec<u64> = worlds_of(structure_seeds[i]);
        let ghost added = found@;
        r.append(&mut found);
        proof {
            let next = structure_seeds@.take(i + 1);
            assert(next.drop_last() == structure_seeds@.take(i as int));
            assert(next.last() == structure_seeds@[i as int]);
            assert forall|w: u64| #[trigger] r@.contains(w) <==> exists|k: int|
                0 <= k < i + 1 && is_world_of(#[trigger] structure_seeds@[k], w) by {
                lemma_contains_concat(before, added, w);
                assert(before.contains(w) <==> exists|k: int|
                    0 <= k < i && is_world_of(#[trigger] structure_seeds@[k], w));
                assert(added.contains(w) == is_world_of(structure_seeds@[i as int], w));
            }
        }
        i += 1;
    }
    proof {
        assert(structure_seeds@.take(i as int) == structure_seeds@);
        assert forall|w: u64| #[trigger] r@.contains(w) == derives(
            output_mode,
            bedrock_seed,
            w,
        ) by {
            let t = w & MASK48;
            if r@.contains(w) {
                let k = choose|k: int|
                    0 <= k < i && is_world_of(#[trigger] structure_seeds@[k], w);
                assert(structure_seeds@.contains(structure_seeds@[k]));
            }
            if derives(output_mode, bedrock_seed, w) {
                assert(structure_seeds@.contains(t));
                let k = structure_seeds@.index_of(t);
                assert(is_world_of(structure_seeds@[k], w));
            }
        }
    }
    r
}

/// Whether every long on the way from a bedrock seed to its world seeds is defined.
fn worlds_defined(bedrock_seed: u64) -> (b: bool)
    ensures
        b == worlds_fit(java::seeds_before(bedrock_seed)),
        b == worlds_add_up(bedrock_seed),
{
    let structure_seeds: Vec<u64> = java::reverse_next_long(bedrock_seed);
    let mut i: usize = 0;
    while i < structure_seeds.len()
        invariant
            i <= structure_seeds@.len(),
            structure_seeds@ == java::seeds_before(bedrock_seed),
            forall|t: u64| #[trigger]
                structure_seeds@.contains(t) == java::seed_leads_to(t, bedrock_seed),
            forall|a: int, p: u64|
                0 <= a < i && #[trigger] java::seed_leads_to(p, #[trigger] structure_seeds@[a])
                    ==> java::halves_add_up(p),
            forall|a: int, j: int|
                0 <= a < i && 0 <= j < java::seeds_before(structure_seeds@[a]).len()
                    ==> java::long_fits(#[trigger] java::seeds_before(structure_seeds@[a])[j]),
        decreases structure_seeds@.len() - i,
    {
        let previous: Vec<u64> = java::reverse_next_long(structure_seeds[i]);
        let mut j: usize = 0;
        proof {
            assert(structure_seeds@.contains(structure_seeds@[i as int]));
        }
        while j < previous.len()
            invariant
                i < structure_seeds@.len(),
                j <= previous@.len(),
                structure_seeds@ == java::seeds_before(bedrock_seed),
                previous@ == java::seeds_before(structure_seeds@[i as int]),
                java::seed_leads_to(structure_seeds@[i as int], bedrock_seed),
                forall|p: u64| #[trigger]
                    previous@.contains(p) == java::seed_leads_to(p, structure_seeds@[i as int]),
                forall|k: int| 0 <= k < j ==> java::halves_add_up(#[trigger] previous@[k]),
                forall|k: int| 0 <= k < j ==> java::long_fits(#[trigger] previous@[k]),
            decreases previous@.len() - j,
        {
            if !java::next_long_fits(previous[j]) {
                proof {
                    assert(!java::long_fits(
                        java::seeds_before(structure_seeds@[i as int])[j as int],
                    ));
                    assert(previous@.contains(previous@[j as int]));
                    assert(java::seed_leads_to(previous@[j as int], structure_seeds@[i as int]));
                }
                return false;
            }
            j += 1;
        }
        proof {
            let t = structure_seeds@[i as int];
            assert forall|p: u64| #[trigger] java::seed_leads_to(p, t) implies java::halves_add_up(
                p,
            ) by {
                assert(previous@.contains(p));
                let k = previous@.index_of(p);
                assert(java::halves_add_up(previous@[k]));
            }
        }
        i += 1;
    }
    proof {
        assert forall|t: u64, p: u64| #[trigger]
            java::seed_leads_to(t, bedrock_seed) && #[trigger] java::seed_leads_to(
                p,
                t,
            ) implies java::halves_add_up(p) by {
            assert(structure_seeds@.contains(t));
            let a = structure_seeds@.index_of(t);
            assert(java::seed_leads_to(p, structure_seeds@[a]));
        }
    }
    true
}

} // verus!
