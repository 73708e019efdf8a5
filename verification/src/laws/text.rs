//! What lines, numbers and lists of seeds are.
use vstd::prelude::*;

use crate::text;

verus! {

/// No line feed is among the bytes.
pub open spec fn one_line(bytes: Seq<u8>) -> bool {
    forall|i: int| 0 <= i < bytes.len() ==> #[trigger] bytes[i] != 10
}

/// An empty text has no lines. A text without a line feed is one line, whatever it ends with. A
/// line that ends with a line feed, or with a carriage return and a line feed, is followed by the
/// lines of the rest; of the carriage returns before the line feed only one is taken off.
pub proof fn law_lines_end_with_line_feeds(line: Seq<u8>, rest: Seq<u8>)
    requires
        one_line(line),
    ensures
        text::lines(Seq::empty()) == Seq::<Seq<u8>>::empty(),
        line.len() > 0 ==> text::lines(line) == seq![line],
        line.len() == 0 || line.last() != 13 ==> text::lines(line + seq![10u8] + rest) == seq![line]
            + text::lines(rest),
        text::lines(line + seq![13u8, 10u8] + rest) == seq![line] + text::lines(rest),
{
    if line.len() > 0 {
        text::lemma_line_feed(line, line.len() as int);
    }
    let plain = line + seq![10u8] + rest;
    let end = line.len() as int;
    text::lemma_line_feed(plain, end);
    assert(plain.take(end) == line);
    assert(plain.skip(end + 1) == rest);
    let marked = line + seq![13u8, 10u8] + rest;
    let ended = line.push(13);
    assert forall|i: int| 0 <= i < end + 1 implies marked[i] != 10 by {
        if i < end {
            assert(marked[i] == line[i]);
        }
    }
    text::lemma_line_feed(marked, end + 1);
    assert(marked.take(end + 1) == ended);
    assert(ended.drop_last() == line);
    assert(marked.skip(end + 2) == rest);
}

/// A number written out in decimal digits.
pub open spec fn written(n: nat) -> Seq<u8>
    decreases n,
{
    if n < 10 {
        seq![(48 + n) as u8]
    } else {
        written(n / 10).push((48 + n % 10) as u8)
    }
}

proof fn lemma_written(n: nat)
    ensures
        written(n).len() > 0,
        text::all_digits(written(n)),
        text::decimal(written(n)) == n,
    decreases n,
{
    assert(text::decimal(Seq::<u8>::empty()) == 0);
    if n < 10 {
        assert(written(n).drop_last() == Seq::<u8>::empty());
    } else {
        lemma_written(n / 10);
        assert(written(n).drop_last() == written(n / 10));
        assert forall|i: int| 0 <= i < written(n).len() implies text::is_digit(
            #[trigger] written(n)[i],
        ) by {
            if i < written(n).len() - 1 {
                assert(written(n)[i] == written(n / 10)[i]);
            }
        }
    }
}

/// Reading gives back every number below 2^64 that was written out in decimal digits, and refuses
/// greater ones.
pub proof fn law_written_numbers_are_read_back(n: nat)
    ensures
        text::number(written(n)) == (if n <= 18446744073709551615 {
            Some(n as u64)
        } else {
            None
        }),
{
    lemma_written(n);
    assert(text::is_digit(written(n)[0]));
}

proof fn lemma_leading_zero(s: Seq<u8>)
    ensures
        text::decimal(seq![48u8] + s) == text::decimal(s),
    decreases s.len(),
{
    let t = seq![48u8] + s;
    assert(text::decimal(Seq::<u8>::empty()) == 0);
    if s.len() == 0 {
        assert(t.drop_last() == Seq::<u8>::empty());
    } else {
        assert(t.drop_last() == seq![48u8] + s.drop_last());
        assert(t.last() == s.last());
        lemma_leading_zero(s.drop_last());
    }
}

/// A zero before a number of digits changes nothing, and neither does one plus sign. Nothing is
/// read from an empty text, from a lone sign, from two signs, or from a text with a byte, other
/// than a plus sign at its start, that is no decimal digit.
pub proof fn law_only_digits_are_numbers(s: Seq<u8>, i: int)
    ensures
        s.len() > 0 && s[0] != 43 ==> text::number(seq![48u8] + s) == text::number(s),
        s.len() > 0 && s[0] != 43 ==> text::number(seq![43u8] + s) == text::number(s),
        text::number(Seq::empty()) is None,
        text::number(seq![43u8]) is None,
        text::number(seq![43u8, 43u8] + s) is None,
        0 <= i < s.len() && !(48 <= s[i] <= 57) && !(i == 0 && s[i] == 43) ==> text::number(
            s,
        ) is None,
{
    let zero = seq![48u8] + s;
    let plus = seq![43u8] + s;
    let two = seq![43u8, 43u8] + s;
    assert(plus.skip(1) == s);
    assert(seq![43u8].skip(1) == Seq::<u8>::empty());
    assert(two.skip(1) == plus);
    assert(!text::is_digit(plus[0]));
    if s.len() > 0 && s[0] != 43 {
        lemma_leading_zero(s);
        if text::all_digits(zero) {
            assert forall|k: int| 0 <= k < s.len() implies text::is_digit(#[trigger] s[k]) by {
                assert(zero[k + 1] == s[k]);
            }
        }
        if text::all_digits(s) {
            assert forall|k: int| 0 <= k < zero.len() implies text::is_digit(
                #[trigger] zero[k],
            ) by {
                if k > 0 {
                    assert(zero[k] == s[k - 1]);
                }
            }
        }
    }
    if 0 <= i < s.len() && !(48 <= s[i] <= 57) && !(i == 0 && s[i] == 43) {
        if s[0] == 43 {
            assert(!text::is_digit(s.skip(1)[i - 1]));
        } else {
            assert(!text::is_digit(s[i]));
        }
    }
}

/// The seeds of a list are those of all its lines, however many there are: lists put together give
/// their seeds one after the other, and a line gives its number, or nothing where it holds none.
pub proof fn law_every_line_of_a_list_counts(a: Seq<Seq<u8>>, b: Seq<Seq<u8>>, line: Seq<u8>)
    ensures
        text::numbers(a + b) == text::numbers(a) + text::numbers(b),
        text::numbers(Seq::empty()) == Seq::<u64>::empty(),
        text::numbers(seq![line]) == (match text::number(line) {
            Some(n) => seq![n],
            None => Seq::empty(),
        }),
    decreases b.len(),
{
    assert(seq![line].drop_last() == Seq::<Seq<u8>>::empty());
    assert(text::numbers(Seq::<Seq<u8>>::empty()) == Seq::<u64>::empty());
    if b.len() == 0 {
        assert(a + b == a);
    } else {
        law_every_line_of_a_list_counts(a, b.drop_last(), line);
        assert((a + b).drop_last() == a + b.drop_last());
        assert((a + b).last() == b.last());
    }
    assert(text::numbers(a + b) == text::numbers(a) + text::numbers(b));
}

/// A list of which every line holds a number gives as many seeds as it has lines, in their order.
pub proof fn law_lists_of_numbers_are_read_whole(lines: Seq<Seq<u8>>)
    requires
        forall|i: int| 0 <= i < lines.len() ==> text::number(#[trigger] lines[i]) is Some,
    ensures
        text::numbers(lines) == Seq::new(lines.len(), |i: int| text::number(lines[i])->0),
    decreases lines.len(),
{
    if lines.len() > 0 {
        let before = lines.drop_last();
        assert forall|i: int| 0 <= i < before.len() implies text::number(
            #[trigger] before[i],
        ) is Some by {
            assert(before[i] == lines[i]);
        }
        law_lists_of_numbers_are_read_whole(before);
        assert(text::number(lines[lines.len() - 1]) is Some);
    }
    assert(text::numbers(lines) == Seq::new(lines.len(), |i: int| text::number(lines[i])->0));
}

/// Of a configuration the first 200 lines are read, and all where there are fewer.
pub proof fn law_two_hundred_lines_are_read(a: Seq<Seq<u8>>, b: Seq<Seq<u8>>)
    ensures
        a.len() <= 200 ==> text::config_part(a) == a,
        a.len() == 200 ==> text::config_part(a + b) == a,
{
    if a.len() <= 200 {
        assert(a.take(a.len() as int) == a);
    }
    if a.len() == 200 {
        assert((a + b).take(200) == a);
    }
}

/// As many workers are asked for as the text says, and one where it says no number.
pub proof fn law_workers_are_asked_for_by_number(threads: Seq<u8>, n: u64)
    ensures
        text::number(threads) == Some(n) ==> text::thread_count_of(threads) == n,
        text::number(threads) is None ==> text::thread_count_of(threads) == 1,
        text::thread_count_of(written(n as nat)) == n,
{
    law_written_numbers_are_read_back(n as nat);
}

} // verus!
