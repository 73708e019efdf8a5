//! Reading text: lines, numbers and lists of seeds.
use vstd::prelude::*;

verus! {

/// The number of lines of a configuration that are read.
pub const CONFIG_LINES: usize = 200;

/// The bytes of a text.
pub open spec fn utf8(text: Seq<char>) -> Seq<u8> {
    vstd::utf8::encode_utf8(text)
}

/// Where the first line feed stands, or the length where there is none.
pub open spec fn line_feed(text: Seq<u8>) -> int
    decreases text.len(),
{
    if text.len() == 0 || text[0] == 10 {
        0
    } else {
        1 + line_feed(text.skip(1))
    }
}

/// A line without the carriage return before its line feed.
pub open spec fn without_return(line: Seq<u8>) -> Seq<u8> {
    if line.len() > 0 && line.last() == 13 {
        line.drop_last()
    } else {
        line
    }
}

/// The lines of a text. A line ends with a line feed, before which one carriage return is not
/// counted, or with the text. After a line feed at the end of the text no line follows.
pub open spec fn lines(text: Seq<u8>) -> Seq<Seq<u8>>
    decreases text.len(),
{
    if text.len() == 0 {
        Seq::empty()
    } else {
        let end = line_feed(text);
        if 0 <= end < text.len() {
            seq![without_return(text.take(end))] + lines(text.skip(end + 1))
        } else {
            seq![text]
        }
    }
}

pub(crate) proof fn lemma_line_feed(text: Seq<u8>, end: int)
    requires
        0 <= end <= text.len(),
        forall|i: int| 0 <= i < end ==> text[i] != 10,
        end < text.len() ==> text[end] == 10,
    ensures
        line_feed(text) == end,
    decreases text.len(),
{
    if end > 0 {
        let rest = text.skip(1);
        assert forall|i: int| 0 <= i < end - 1 implies rest[i] != 10 by {
            assert(rest[i] == text[i + 1]);
        }
        lemma_line_feed(rest, end - 1);
    }
}

/// A part of a text.
fn copy_part(text: &[u8], start: usize, end: usize) -> (r: Vec<u8>)
    requires
        start <= end <= text@.len(),
    ensures
        r@ == text@.subrange(start as int, end as int),
{
    let mut r: Vec<u8> = Vec::new();
    let mut i: usize = start;
    while i < end
        invariant
            start <= i <= end <= text@.len(),
            r@ == text@.subrange(start as int, i as int),
        decreases end - i,
    {
        r.push(text[i]);
        i += 1;
    }
    r
}

/// The first lines of a text, at most `limit` of them.
pub fn first_lines(text: &[u8], limit: usize) -> (r: Vec<Vec<u8>>)
    ensures
        r@.map_values(|v: Vec<u8>| v@) == lines(text@).take(
            if limit <= lines(text@).len() {
                limit as int
            } else {
                lines(text@).len() as int
            },
        ),
{
    let mut r: Vec<Vec<u8>> = Vec::new();
    let mut start: usize = 0;
    let ghost mut done: Seq<Seq<u8>> = Seq::empty();
    proof {
        assert(text@.skip(0) == text@);
        assert(Seq::<Seq<u8>>::empty() + lines(text@) == lines(text@));
    }
    while start < text.len() && r.len() < limit
        invariant
            start <= text@.len(),
            r@.len() <= limit,
            r@.map_values(|v: Vec<u8>| v@) == done,
            lines(text@) == done + lines(text@.skip(start as int)),
        decreases text@.len() - start,
    {
        let mut end: usize = start;
        while end < text.len() && text[end] != 10
            invariant
                start <= end <= text@.len(),
                forall|i: int| start <= i < end ==> text@[i] != 10,
            decreases text@.len() - end,
        {
            end += 1;
        }
        let ghost rest = text@.skip(start as int);
        proof {
            lemma_line_feed(rest, end - start);
        }
        let ghost before = r@;
        let stop: usize = if end < text.len() && end > start && text[end - 1] == 13 {
            end - 1
        } else {
            end
        };
        let line: Vec<u8> = copy_part(text, start, stop);
        let ghost cut = text@.subrange(start as int, stop as int);
        r.push(line);
        let next: usize = if end < text.len() {
            end + 1
        } else {
            end
        };
        proof {
            let after = lines(text@.skip(next as int));
            if end < text@.len() {
                assert(rest.skip(end - start + 1) == text@.skip(next as int));
                assert(rest.take(end - start) == text@.subrange(start as int, end as int));
                assert(cut == without_return(rest.take(end - start)));
            } else {
                assert(text@.skip(next as int) == Seq::<u8>::empty());
                assert(rest == cut);
            }
            assert(lines(rest) == seq![cut] + after);
            assert(done + (seq![cut] + after) == done.push(cut) + after);
            done = done.push(cut);
            assert(r@ == before.push(line));
            assert(r@.map_values(|v: Vec<u8>| v@) == done);
        }
        start = next;
    }
    proof {
        if start == text@.len() {
            assert(text@.skip(start as int) == Seq::<u8>::empty());
            assert(done + lines(text@.skip(start as int)) == done);
            assert(done.take(done.len() as int) == done);
        } else {
            assert(lines(text@).take(done.len() as int) == done);
        }
    }
    r
}

/// The lines that are read of a configuration with these lines.
pub open spec fn config_part(lines: Seq<Seq<u8>>) -> Seq<Seq<u8>> {
    lines.take(
        if lines.len() >= 200 {
            200
        } else {
            lines.len() as int
        },
    )
}

/// The lines of a configuration that are read.
pub fn config_lines(file: &str) -> (r: Vec<Vec<u8>>)
    ensures
        r@.map_values(|v: Vec<u8>| v@) == config_part(lines(utf8(file@))),
{
    first_lines(file.as_bytes(), CONFIG_LINES)
}

/// A decimal digit.
pub open spec fn is_digit(b: u8) -> bool {
    48 <= b <= 57
}

/// All bytes are decimal digits.
pub open spec fn all_digits(s: Seq<u8>) -> bool {
    forall|i: int| 0 <= i < s.len() ==> is_digit(#[trigger] s[i])
}

/// The number that decimal digits stand for.
pub open spec fn decimal(digits: Seq<u8>) -> int
    decreases digits.len(),
{
    if digits.len() == 0 {
        0
    } else {
        decimal(digits.drop_last()) * 10 + (digits.last() - 48)
    }
}

/// The digits of a number, which may follow a plus sign.
pub open spec fn unsigned_part(s: Seq<u8>) -> Seq<u8> {
    if s.len() > 0 && s[0] == 43 {
        s.skip(1)
    } else {
        s
    }
}

/// The number below 2^64 that a text stands for: at least one decimal digit, after at most one
/// plus sign, and nothing else.
pub open spec fn number(s: Seq<u8>) -> Option<u64> {
    let digits = unsigned_part(s);
    if digits.len() > 0 && all_digits(digits) && decimal(digits) <= u64::MAX {
        Some(decimal(digits) as u64)
    } else {
        None
    }
}

/// More digits make no smaller number.
proof fn lemma_decimal_grows(digits: Seq<u8>, k: int)
    requires
        all_digits(digits),
        0 <= k <= digits.len(),
    ensures
        0 <= decimal(digits.take(k)) <= decimal(digits),
    decreases digits.len(),
{
    let rest = digits.take(k);
    if digits.len() == 0 {
        assert(rest == digits);
    } else if k == digits.len() {
        assert(rest == digits);
        lemma_decimal_grows(digits.drop_last(), k - 1);
        assert(digits.drop_last().take(k - 1) == digits.drop_last());
        assert(is_digit(digits[digits.len() - 1]));
    } else {
        lemma_decimal_grows(digits.drop_last(), k);
        assert(digits.drop_last().take(k) == rest);
        assert(is_digit(digits[digits.len() - 1]));
    }
}

/// Reads a number.
pub fn parse_u64(s: &[u8]) -> (r: Option<u64>)
    ensures
        r == number(s@),
{
    let start: usize = if s.len() > 0 && s[0] == 43 {
        1
    } else {
        0
    };
    let ghost digits = unsigned_part(s@);
    proof {
        assert(digits == s@.skip(start as int));
    }
    if start == s.len() {
        return None;
    }
    let mut value: u64 = 0;
    let mut i: usize = start;
    proof {
        assert(digits.take(0) == Seq::<u8>::empty());
    }
    while i < s.len()
        invariant
            start <= i <= s@.len(),
            digits == unsigned_part(s@),
            digits == s@.skip(start as int),
            digits.len() > 0,
            all_digits(digits.take(i - start)),
            value == decimal(digits.take(i - start)),
        decreases s@.len() - i,
    {
        let b: u8 = s[i];
        proof {
            let k = i - start;
            assert(digits[k] == b);
            assert(digits.take(k + 1).drop_last() == digits.take(k));
            assert(digits.take(k + 1).last() == b);
            if all_digits(digits) {
                lemma_decimal_grows(digits, k + 1);
            }
        }
        if b < 48 || b > 57 {
            proof {
                assert(!is_digit(digits[i - start]));
            }
            return None;
        }
        let digit: u64 = (b - 48) as u64;
        let wide: u128 = value as u128 * 10 + digit as u128;
        if wide > u64::MAX as u128 {
            return None;
        }
        value = wide as u64;
        proof {
            let k = i - start;
            assert forall|j: int| 0 <= j < k + 1 implies is_digit(
                #[trigger] digits.take(k + 1)[j],
            ) by {
                if j < k {
                    assert(digits.take(k)[j] == digits[j]);
                }
            }
        }
        i += 1;
    }
    proof {
        assert(digits.take(i - start) == digits);
    }
    Some(value)
}

/// The numbers among lines, in their order.
pub open spec fn numbers(lines: Seq<Seq<u8>>) -> Seq<u64>
    decreases lines.len(),
{
    if lines.len() == 0 {
        Seq::empty()
    } else {
        match number(lines.last()) {
            Some(n) => numbers(lines.drop_last()).push(n),
            None => numbers(lines.drop_last()),
        }
    }
}

/// Reads a list of seeds, one on a line. Lines that hold no number are passed over.
pub fn parse_seed_list(file: &str) -> (r: Vec<u64>)
    ensures
        r@ == numbers(lines(utf8(file@))),
{
    let text: &[u8] = file.as_bytes();
    let all: Vec<Vec<u8>> = first_lines(text, text.len());
    let ghost found = all@.map_values(|v: Vec<u8>| v@);
    let mut r: Vec<u64> = Vec::new();
    let mut i: usize = 0;
    proof {
        lemma_line_count(text@);
        assert(lines(text@).take(lines(text@).len() as int) == lines(text@));
        assert(found.take(0) == Seq::<Seq<u8>>::empty());
    }
    while i < all.len()
        invariant
            i <= all@.len(),
            found == all@.map_values(|v: Vec<u8>| v@),
            r@ == numbers(found.take(i as int)),
        decreases all@.len() - i,
    {
        proof {
            assert(found.take(i + 1).drop_last() == found.take(i as int));
            assert(found.take(i + 1).last() == all@[i as int]@);
        }
        match parse_u64(all[i].as_slice()) {
            Some(n) => r.push(n),
            None => {},
        }
        i += 1;
    }
    proof {
        assert(found.take(i as int) == found);
    }
    r
}

/// A text has no more lines than bytes.
proof fn lemma_line_count(text: Seq<u8>)
    ensures
        lines(text).len() <= text.len(),
    decreases text.len(),
{
    if text.len() > 0 {
        let end = line_feed(text);
        if 0 <= end < text.len() {
            lemma_line_count(text.skip(end + 1));
        }
    }
}

/// The number of workers that a text asks for, one where it is no number.
pub open spec fn thread_count_of(threads: Seq<u8>) -> u64 {
    match number(threads) {
        Some(n) => n,
        None => 1u64,
    }
}

/// The number of workers that a text asks for.
pub fn parse_thread_count(threads: &str) -> (r: u64)
    ensures
        r == thread_count_of(utf8(threads@)),
{
    match parse_u64(threads.as_bytes()) {
        Some(n) => n,
        None => 1,
    }
}

} // verus!
