//! What the graphics processor is handed and hands back.
//!
//! The processor computes with 32-bit words. A 64-bit number travels as two of them, the low one
//! first, and buffers travel as the bytes of their words in the byte order of the machine.
use vstd::prelude::*;

use crate::block_data::CheckObject;
use crate::cross;
use crate::gpu_search::GpuRange;

verus! {

/// The low word of a number.
pub open spec fn low_word(val: u64) -> u32 {
    (val as int % 0x1_0000_0000) as u32
}

/// The high word of a number.
pub open spec fn high_word(val: u64) -> u32 {
    (val as int / 0x1_0000_0000) as u32
}

/// The number of two words.
pub open spec fn joined(low: u32, high: u32) -> int {
    low + high * 0x1_0000_0000
}

/// Splits a number into its low and its high word.
pub fn u64_to_u32x2(val: u64) -> (r: [u32; 2])
    ensures
        r[0] == low_word(val),
        r[1] == high_word(val),
        joined(r[0], r[1]) == val,
{
    proof {
        assert(val as u32 == val % 0x1_0000_0000u64 && (val >> 32) as u32 == val
            / 0x1_0000_0000u64) by (bit_vector);
    }
    [val as u32, (val >> 32) as u32]
}

/// Joins a low and a high word.
pub fn u32x2_to_u64(val: [u32; 2]) -> (r: u64)
    ensures
        r == joined(val[0], val[1]),
{
    let (low, high): (u32, u32) = (val[0], val[1]);
    proof {
        assert((low as u64) | ((high as u64) << 32) == low + high * 0x1_0000_0000u64)
            by (bit_vector);
    }
    (low as u64) | ((high as u64) << 32)
}

/// A check in words, with two words of padding.
#[derive(Clone, Copy, Debug)]
pub struct GpuCheckObject {
    pub pos_hash: [u32; 2],
    pub condition: [u32; 2],
    pub offset: [u32; 2],
    pub _pad: [u32; 2],
}

impl GpuCheckObject {
    /// The words of the check, in the order of the buffer.
    pub open spec fn words(self) -> Seq<u32> {
        self.pos_hash@ + self.condition@ + self.offset@ + self._pad@
    }
}

/// The words of a check.
pub open spec fn words_of_check(c: CheckObject) -> Seq<u32> {
    seq![
        low_word(c.pos_hash),
        high_word(c.pos_hash),
        low_word(c.condition),
        high_word(c.condition),
        low_word(c.offset),
        high_word(c.offset),
        0u32,
        0u32,
    ]
}

impl vstd::std_specs::convert::FromSpecImpl<CheckObject> for GpuCheckObject {
    open spec fn obeys_from_spec() -> bool {
        true
    }

    open spec fn from_spec(c: CheckObject) -> Self {
        GpuCheckObject {
            pos_hash: [low_word(c.pos_hash), high_word(c.pos_hash)],
            condition: [low_word(c.condition), high_word(c.condition)],
            offset: [low_word(c.offset), high_word(c.offset)],
            _pad: [0, 0],
        }
    }
}

impl From<CheckObject> for GpuCheckObject {
    fn from(c: CheckObject) -> (r: Self)
        ensures
            r.words() == words_of_check(c),
    {
        let r: GpuCheckObject = GpuCheckObject {
            pos_hash: u64_to_u32x2(c.pos_hash),
            condition: u64_to_u32x2(c.condition),
            offset: u64_to_u32x2(c.offset),
            _pad: [0, 0],
        };
        proof {
            assert(r.words() == words_of_check(c));
            assert(r.pos_hash =~= [low_word(c.pos_hash), high_word(c.pos_hash)]);
            assert(r.condition =~= [low_word(c.condition), high_word(c.condition)]);
            assert(r.offset =~= [low_word(c.offset), high_word(c.offset)]);
        }
        r
    }
}

/// One of the four bytes of a word, the least significant first.
pub open spec fn byte_of(word: u32, k: int) -> u8 {
    (if k == 0 {
        word as int % 0x100
    } else if k == 1 {
        word as int / 0x100 % 0x100
    } else if k == 2 {
        word as int / 0x1_0000 % 0x100
    } else {
        word as int / 0x100_0000
    }) as u8
}

/// The bytes of words whose least significant byte comes first.
pub open spec fn little_endian(words: Seq<u32>) -> Seq<u8> {
    Seq::new(4 * words.len(), |i: int| byte_of(words[i / 4], i % 4))
}

/// The bytes of words whose most significant byte comes first.
pub open spec fn big_endian(words: Seq<u32>) -> Seq<u8> {
    Seq::new(4 * words.len(), |i: int| byte_of(words[i / 4], 3 - i % 4))
}

/// The bytes are those of the words, in the byte order of the machine.
pub open spec fn in_memory(words: Seq<u32>, bytes: Seq<u8>) -> bool {
    bytes == (match vstd::endian::endianness() {
        vstd::endian::Endian::Little => little_endian(words),
        vstd::endian::Endian::Big => big_endian(words),
    })
}

/// Calls `bytemuck::cast_slice`, which reads words as the bytes that they have in memory: four for
/// each, in the byte order of the machine. A slice of words is always one of bytes too, so that
/// the cast cannot fail.
#[verifier::external_body]
fn cast_to_bytes(words: &[u32]) -> (r: Vec<u8>)
    ensures
        in_memory(words@, r@),
{
    bytemuck::cast_slice::<u32, u8>(words).to_vec()
}

/// Calls `bytemuck::pod_collect_to_vec`, which copies bytes into words that have these bytes in
/// memory, in the byte order of the machine and whatever the alignment of the bytes.
#[verifier::external_body]
fn collect_words(bytes: &[u8]) -> (r: Vec<u32>)
    requires
        bytes@.len() % 4 == 0,
    ensures
        in_memory(r@, bytes@),
{
    bytemuck::pod_collect_to_vec::<u8, u32>(bytes)
}

/// The words of checks, eight for each.
pub open spec fn words_of_checks(checks: Seq<CheckObject>) -> Seq<u32> {
    Seq::new(8 * checks.len(), |i: int| words_of_check(checks[i / 8])[i % 8])
}

/// The words of checks.
pub fn check_words(checks: &[CheckObject]) -> (r: Vec<u32>)
    ensures
        r@ == words_of_checks(checks@),
{
    let mut words: Vec<u32> = Vec::new();
    let mut i: usize = 0;
    while i < checks.len()
        invariant
            i <= checks@.len(),
            words@ == words_of_checks(checks@.take(i as int)),
        decreases checks@.len() - i,
    {
        let c: GpuCheckObject = GpuCheckObject::from(checks[i]);
        let ghost before = words@;
        proof {
            assert(c.words() == words_of_check(checks@[i as int]));
            assert(c.words()[0] == c.pos_hash[0] && c.words()[1] == c.pos_hash[1]);
            assert(c.words()[2] == c.condition[0] && c.words()[3] == c.condition[1]);
            assert(c.words()[4] == c.offset[0] && c.words()[5] == c.offset[1]);
            assert(c.words()[6] == c._pad[0] && c.words()[7] == c._pad[1]);
        }
        words.push(c.pos_hash[0]);
        words.push(c.pos_hash[1]);
        words.push(c.condition[0]);
        words.push(c.condition[1]);
        words.push(c.offset[0]);
        words.push(c.offset[1]);
        words.push(c._pad[0]);
        words.push(c._pad[1]);
        proof {
            let next = words_of_checks(checks@.take(i + 1));
            assert(words@ == before + words_of_check(checks@[i as int]));
            assert forall|k: int| 0 <= k < next.len() implies words@[k] == next[k] by {
                if k >= 8 * i {
                    assert(k / 8 == i as int);
                }
            }
            assert(words@ == next);
        }
        i += 1;
    }
    proof {
        assert(checks@.take(i as int) == checks@);
    }
    words
}

/// The buffer that holds checks.
pub fn check_buffer(checks: &[CheckObject]) -> (r: Vec<u8>)
    ensures
        in_memory(words_of_checks(checks@), r@),
{
    cast_to_bytes(check_words(checks).as_slice())
}

/// The checks, or where there are none a check that every seed passes: a buffer cannot be empty.
pub open spec fn filled_of(checks: Seq<CheckObject>) -> Seq<CheckObject> {
    if checks.len() == 0 {
        seq![CheckObject { pos_hash: 0, condition: 0, offset: 0 }]
    } else {
        checks
    }
}

/// Makes sure that there is a check to put into a buffer. Which seeds pass does not change.
pub fn filled(checks: Vec<CheckObject>) -> (r: Vec<CheckObject>)
    ensures
        r@ == filled_of(checks@),
        forall|seed: u64| #[trigger]
            cross::passes_all(r@, seed) == cross::passes_all(checks@, seed),
{
    proof {
        assert forall|seed: u64| #[trigger]
            cross::passes_all(filled_of(checks@), seed) == cross::passes_all(checks@, seed) by {
            lemma_filled(checks@, seed);
        }
    }
    if checks.len() == 0 {
        let mut r: Vec<CheckObject> = Vec::new();
        r.push(CheckObject::default());
        proof {
            assert(r@ == filled_of(checks@));
        }
        r
    } else {
        checks
    }
}

/// A check that every seed passes does not change which seeds pass.
pub(crate) proof fn lemma_filled(checks: Seq<CheckObject>, seed: u64)
    ensures
        cross::passes_all(filled_of(checks), seed) == cross::passes_all(checks, seed),
{
}

/// The words that describe one pass: where it starts, how long it is, how many checks there are,
/// and one word of padding.
pub open spec fn words_of_pass(range: GpuRange, coarse_checks: usize, fine_checks: usize) -> Seq<
    u32,
> {
    seq![
        low_word(range.start),
        high_word(range.start),
        range.len,
        coarse_checks as u32,
        fine_checks as u32,
        0u32,
    ]
}

/// The words that describe one pass.
pub fn uniform_words(range: GpuRange, coarse_checks: usize, fine_checks: usize) -> (r: Vec<u32>)
    ensures
        r@ == words_of_pass(range, coarse_checks, fine_checks),
{
    let base: [u32; 2] = u64_to_u32x2(range.start);
    let mut words: Vec<u32> = Vec::new();
    words.push(base[0]);
    words.push(base[1]);
    words.push(range.len);
    words.push(coarse_checks as u32);
    words.push(fine_checks as u32);
    words.push(0);
    proof {
        assert(words@ == words_of_pass(range, coarse_checks, fine_checks));
    }
    words
}

/// The buffer that describes one pass.
pub fn uniform_buffer(range: GpuRange, coarse_checks: usize, fine_checks: usize) -> (r: Vec<u8>)
    ensures
        in_memory(words_of_pass(range, coarse_checks, fine_checks), r@),
{
    cast_to_bytes(uniform_words(range, coarse_checks, fine_checks).as_slice())
}

/// The buffer that clears four counters.
pub fn cleared_buffer() -> (r: Vec<u8>)
    ensures
        r@ == Seq::new(16, |i: int| 0u8),
{
    let mut words: Vec<u32> = Vec::new();
    words.push(0);
    words.push(0);
    words.push(0);
    words.push(0);
    let r: Vec<u8> = cast_to_bytes(words.as_slice());
    proof {
        assert forall|i: int| 0 <= i < 16 implies r@[i] == 0u8 by {
            assert(0 <= i / 4 < 4);
        }
    }
    r
}

/// The counters of one pass.
#[derive(Clone, Copy, Debug, PartialEq, Eq, Structural)]
pub struct StatsReadback {
    pub coarse_count: u32,
    pub fine_count: u32,
    pub coarse_overflow: u32,
    pub fine_overflow: u32,
}

impl StatsReadback {
    /// The words of the counters, in the order of the buffer.
    pub open spec fn words(self) -> Seq<u32> {
        seq![self.coarse_count, self.fine_count, self.coarse_overflow, self.fine_overflow]
    }
}

/// The counters that four words hold.
pub fn stats_of_words(words: &[u32]) -> (r: StatsReadback)
    requires
        words@.len() == 4,
    ensures
        r.words() == words@,
        r.coarse_count == words@[0],
        r.fine_count == words@[1],
        r.coarse_overflow == words@[2],
        r.fine_overflow == words@[3],
{
    let r: StatsReadback = StatsReadback {
        coarse_count: words[0],
        fine_count: words[1],
        coarse_overflow: words[2],
        fine_overflow: words[3],
    };
    proof {
        assert(r.words() == words@);
    }
    r
}

/// Reads the counters of one pass.
pub fn read_stats(bytes: &[u8]) -> (r: StatsReadback)
    requires
        bytes@.len() == 16,
    ensures
        in_memory(r.words(), bytes@),
{
    stats_of_words(collect_words(bytes).as_slice())
}

/// The words of seeds, two for each.
pub open spec fn words_of_seeds(seeds: Seq<u64>) -> Seq<u32> {
    Seq::new(
        2 * seeds.len(),
        |i: int|
            if i % 2 == 0 {
                low_word(seeds[i / 2])
            } else {
                high_word(seeds[i / 2])
            },
    )
}

/// The seeds that words hold, two words for each.
pub fn seeds_of_words(words: &[u32]) -> (r: Vec<u64>)
    requires
        words@.len() % 2 == 0,
    ensures
        words_of_seeds(r@) == words@,
        2 * r@.len() == words@.len(),
        forall|i: int|
            0 <= i < r@.len() ==> #[trigger] r@[i] == joined(words@[2 * i], words@[2 * i + 1]),
{
    let mut r: Vec<u64> = Vec::new();
    let mut i: usize = 0;
    while i < words.len()
        invariant
            i <= words@.len(),
            words@.len() % 2 == 0,
            i == 2 * r@.len(),
            words_of_seeds(r@) == words@.take(i as int),
            forall|i: int|
                0 <= i < r@.len() ==> #[trigger] r@[i] == joined(words@[2 * i], words@[2 * i + 1]),
        decreases words@.len() - i,
    {
        let seed: u64 = u32x2_to_u64([words[i], words[i + 1]]);
        let ghost before = r@;
        r.push(seed);
        proof {
            let next = words_of_seeds(r@);
            let (low, high) = (words@[i as int], words@[i + 1]);
            assert(low_word(seed) == low && high_word(seed) == high);
            assert forall|k: int| 0 <= k < next.len() implies next[k] == words@.take(i + 2)[k] by {
                if k < i {
                    assert(next[k] == words_of_seeds(before)[k]);
                    assert(words@.take(i as int)[k] == words@[k]);
                } else if k == i {
                    assert(k / 2 == before.len());
                } else {
                    assert(k / 2 == before.len());
                }
            }
            assert(next == words@.take(i + 2));
        }
        i += 2;
    }
    proof {
        assert(words@.take(i as int) == words@);
    }
    r
}

/// Reads the seeds that a pass found.
pub fn read_seeds(bytes: &[u8]) -> (r: Vec<u64>)
    requires
        bytes@.len() % 8 == 0,
    ensures
        in_memory(words_of_seeds(r@), bytes@),
{
    seeds_of_words(collect_words(bytes).as_slice())
}

} // verus!
