//! Reading a filter range out of typed text such as `100-500`.

use vstd::prelude::*;
use crate::filter::FilterRange;

verus! {

/// The characters that count as white space: those with the Unicode
/// property `White_Space`.
pub open spec fn is_whitespace(c: char) -> bool {
    let u = c as u32;
    ||| 0x09 <= u <= 0x0D
    ||| u == 0x20
    ||| u == 0x85
    ||| u == 0xA0
    ||| u == 0x1680
    ||| 0x2000 <= u <= 0x200A
    ||| u == 0x2028
    ||| u == 0x2029
    ||| u == 0x202F
    ||| u == 0x205F
    ||| u == 0x3000
}

/// `text` without the white space at its start.
pub open spec fn trim_start(text: Seq<char>) -> Seq<char>
    decreases text.len(),
{
    if text.len() > 0 && is_whitespace(text.first()) {
        trim_start(text.drop_first())
    } else {
        text
    }
}

/// `text` without the white space at its end.
pub open spec fn trim_end(text: Seq<char>) -> Seq<char>
    decreases text.len(),
{
    if text.len() > 0 && is_whitespace(text.last()) {
        trim_end(text.drop_last())
    } else {
        text
    }
}

/// `text` without the white space at either end.
pub open spec fn trimmed(text: Seq<char>) -> Seq<char> {
    trim_end(trim_start(text))
}

/// One of the ten decimal digits.
pub open spec fn is_digit(c: char) -> bool {
    0x30 <= c as u32 <= 0x39
}

/// The number that a digit stands for.
pub open spec fn digit_value(c: char) -> nat
    recommends
        is_digit(c),
{
    (c as u32 - 0x30) as nat
}

/// Every character of `text` is a digit.
pub open spec fn all_digits(text: Seq<char>) -> bool {
    forall|i: int| 0 <= i < text.len() ==> is_digit(#[trigger] text[i])
}

/// The number that a run of digits stands for, read in base ten.
pub open spec fn digits_value(digits: Seq<char>) -> nat
    decreases digits.len(),
{
    if digits.len() == 0 {
        0
    } else {
        digits_value(digits.drop_last()) * 10 + digit_value(digits.last())
    }
}

/// `token` without its plus sign, if it starts with one.
pub open spec fn unsigned_part(token: Seq<char>) -> Seq<char> {
    if token.len() > 0 && token.first() == '+' {
        token.drop_first()
    } else {
        token
    }
}

/// The natural number that `token` denotes: one or more decimal digits,
/// which a single plus sign may precede. Anything else denotes none.
pub open spec fn natural_of(token: Seq<char>) -> Option<nat> {
    let digits = unsigned_part(token);
    if digits.len() > 0 && all_digits(digits) {
        Some(digits_value(digits))
    } else {
        None
    }
}

/// The length that `token` denotes, if it denotes a natural number that a
/// `usize` can hold.
pub open spec fn length_of(token: Seq<char>) -> Option<usize> {
    match natural_of(token) {
        Some(n) => if n <= usize::MAX {
            Some(n as usize)
        } else {
            None
        },
        None => None,
    }
}

/// `text` has its one and only hyphen at position `at`.
pub open spec fn splits_at(text: Seq<char>, at: int) -> bool {
    &&& 0 <= at < text.len()
    &&& text[at] == '-'
    &&& forall|i: int| 0 <= i < text.len() && i != at ==> #[trigger] text[i] != '-'
}

/// The range that typed text denotes: after white space at either end is
/// dropped, exactly two tokens with one hyphen between them, each denoting
/// a length. Any other text denotes no range.
pub open spec fn range_of(text: Seq<char>) -> Option<FilterRange> {
    let body = trimmed(text);
    if exists|at: int| splits_at(body, at) {
        let at = choose|at: int| splits_at(body, at);
        match (length_of(body.take(at)), length_of(body.skip(at + 1))) {
            (Some(min), Some(max)) => Some(FilterRange { min, max }),
            _ => None,
        }
    } else {
        None
    }
}

/// Trimming only takes characters away at the ends: what is left is a run
/// of the text.
pub proof fn lemma_trimmed_is_a_run(text: Seq<char>)
    ensures
        exists|from: int, to: int|
            0 <= from <= to <= text.len() && trimmed(text) == #[trigger] text.subrange(from, to),
{
    lemma_trim_start_is_a_tail(text);
    let from = choose|from: int| 0 <= from <= text.len() && trim_start(text) == text.skip(from);
    let tail = text.skip(from);
    lemma_trim_end_is_a_head(tail);
    let len = choose|len: int| 0 <= len <= tail.len() && trim_end(tail) == tail.take(len);
    assert(tail.take(len) =~= text.subrange(from, from + len));
}

proof fn lemma_trim_start_is_a_tail(text: Seq<char>)
    ensures
        exists|from: int| 0 <= from <= text.len() && trim_start(text) == #[trigger] text.skip(from),
    decreases text.len(),
{
    if text.len() > 0 && is_whitespace(text.first()) {
        lemma_trim_start_is_a_tail(text.drop_first());
        let from = choose|from: int|
            0 <= from <= text.drop_first().len() && trim_start(text.drop_first())
                == text.drop_first().skip(from);
        assert(text.drop_first().skip(from) =~= text.skip(from + 1));
    } else {
        assert(text.skip(0) =~= text);
    }
}

proof fn lemma_trim_end_is_a_head(text: Seq<char>)
    ensures
        exists|len: int| 0 <= len <= text.len() && trim_end(text) == #[trigger] text.take(len),
    decreases text.len(),
{
    if text.len() > 0 && is_whitespace(text.last()) {
        lemma_trim_end_is_a_head(text.drop_last());
        let len = choose|len: int|
            0 <= len <= text.drop_last().len() && trim_end(text.drop_last()) == text.drop_last().take(
                len,
            );
        assert(text.drop_last().take(len) =~= text.take(len));
    } else {
        assert(text.take(text.len() as int) =~= text);
    }
}

/// Text without a hyphen denotes no range.
pub proof fn lemma_no_hyphen_no_range(text: Seq<char>)
    requires
        forall|i: int| 0 <= i < text.len() ==> #[trigger] text[i] != '-',
    ensures
        range_of(text) is None,
{
    lemma_trimmed_is_a_run(text);
    let body = trimmed(text);
    let (from, to) = choose|from: int, to: int|
        0 <= from <= to <= text.len() && trimmed(text) == #[trigger] text.subrange(from, to);
    assert forall|at: int| !splits_at(body, at) by {
        if 0 <= at < body.len() {
            assert(body[at] == text[from + at]);
        }
    }
}

/// Executable form of [`is_whitespace`].
pub fn is_space(c: char) -> (space: bool)
    ensures
        space == is_whitespace(c),
{
    let u = c as u32;
    (0x09 <= u && u <= 0x0D) || u == 0x20 || u == 0x85 || u == 0xA0 || u == 0x1680 || (0x2000 <= u
        && u <= 0x200A) || u == 0x2028 || u == 0x2029 || u == 0x202F || u == 0x205F || u == 0x3000
}

/// A longer run of digits never stands for a smaller number.
proof fn lemma_digits_value_grows(digits: Seq<char>, upto: int)
    requires
        0 <= upto <= digits.len(),
    ensures
        digits_value(digits.take(upto)) <= digits_value(digits),
    decreases digits.len(),
{
    if upto == digits.len() {
        assert(digits.take(upto) =~= digits);
    } else {
        lemma_digits_value_grows(digits.drop_last(), upto);
        assert(digits.drop_last().take(upto) =~= digits.take(upto));
    }
}

/// Reads the length that `text[from..to]` denotes.
pub fn parse_length(text: &Vec<char>, from: usize, to: usize) -> (length: Option<usize>)
    requires
        from <= to <= text.len(),
    ensures
        length == length_of(text@.subrange(from as int, to as int)),
{
    let ghost token = text@.subrange(from as int, to as int);
    let mut start = from;
    if start < to && text[start] == '+' {
        start += 1;
    }
    let ghost digits = text@.subrange(start as int, to as int);
    proof {
        assert(token.len() > 0 ==> token.first() == text@[from as int]);
        assert(digits =~= unsigned_part(token));
    }
    if start == to {
        return None;
    }
    let mut value: usize = 0;
    let mut i = start;
    while i < to
        invariant
            from <= start <= i <= to <= text.len(),
            start < to,
            token == text@.subrange(from as int, to as int),
            digits == text@.subrange(start as int, to as int),
            digits == unsigned_part(token),
            all_digits(digits.take(i - start)),
            value == digits_value(digits.take(i - start)),
        decreases to - i,
    {
        let u = text[i] as u32;
        assert(digits[i - start] == text@[i as int]);
        if u < 0x30 || u > 0x39 {
            return None;
        }
        let d = (u - 0x30) as usize;
        proof {
            assert(digits.take(i - start + 1).drop_last() =~= digits.take(i - start));
            assert(digits.take(i - start + 1).last() == text@[i as int]);
            assert forall|j: int| 0 <= j < i - start + 1 implies is_digit(
                #[trigger] digits.take(i - start + 1)[j],
            ) by {
                if j < i - start {
                    assert(digits.take(i - start)[j] == digits[j]);
                }
            }
            lemma_digits_value_grows(digits, i - start + 1);
        }
        let bigger = match value.checked_mul(10) {
            Some(tenfold) => tenfold.checked_add(d),
            None => None,
        };
        match bigger {
            Some(next) => {
                value = next;
            },
            None => {
                return None;
            },
        }
        i += 1;
    }
    proof {
        assert(digits.take(i - start) =~= digits);
    }
    Some(value)
}

/// Reads the range that `text` denotes, or `None` where it denotes none.
pub fn parse_range(text: &Vec<char>) -> (range: Option<FilterRange>)
    ensures
        range == range_of(text@),
{
    let mut start: usize = 0;
    proof {
        assert(text@.skip(0) =~= text@);
    }
    while start < text.len() && is_space(text[start])
        invariant
            start <= text.len(),
            trim_start(text@) == trim_start(text@.skip(start as int)),
        decreases text.len() - start,
    {
        proof {
            assert(text@.skip(start as int).first() == text@[start as int]);
            assert(text@.skip(start as int).drop_first() =~= text@.skip(start + 1));
        }
        start += 1;
    }
    proof {
        if start < text.len() {
            assert(text@.skip(start as int).first() == text@[start as int]);
        }
        assert(text@.skip(start as int) =~= text@.subrange(start as int, text.len() as int));
    }
    let mut end: usize = text.len();
    while end > start && is_space(text[end - 1])
        invariant
            start <= end <= text.len(),
            trimmed(text@) == trim_end(text@.subrange(start as int, end as int)),
        decreases end,
    {
        proof {
            assert(text@.subrange(start as int, end as int).last() == text@[end - 1]);
            assert(text@.subrange(start as int, end as int).drop_last() =~= text@.subrange(
                start as int,
                end - 1,
            ));
        }
        end -= 1;
    }
    let ghost body = text@.subrange(start as int, end as int);
    proof {
        if end > start {
            assert(body.last() == text@[end - 1]);
        }
        assert(body == trimmed(text@));
    }
    let mut hyphen: Option<usize> = None;
    let mut i: usize = start;
    while i < end
        invariant
            start <= i <= end <= text.len(),
            body == text@.subrange(start as int, end as int),
            body == trimmed(text@),
            match hyphen {
                Some(at) => start <= at < i && splits_at(body.take(i - start), at - start),
                None => forall|j: int| 0 <= j < i - start ==> #[trigger] body[j] != '-',
            },
        decreases end - i,
    {
        let ghost seen = body.take(i - start);
        let ghost more = body.take(i - start + 1);
        proof {
            assert(body[i - start] == text@[i as int]);
            assert(more[i - start] == body[i - start]);
            assert forall|j: int| 0 <= j < i - start implies #[trigger] more[j] == seen[j] by {}
        }
        if text[i] == '-' {
            match hyphen {
                Some(at) => {
                    proof {
                        assert(seen[at - start] == body[at - start]);
                        assert forall|k: int| !splits_at(body, k) by {
                            if k != at - start {
                                assert(body[at - start] == '-');
                            } else {
                                assert(body[i - start] == '-');
                            }
                        }
                    }
                    return None;
                },
                None => {
                    proof {
                        assert forall|j: int| 0 <= j < more.len() && j != i - start implies #[trigger] more[j]
                            != '-' by {
                            assert(more[j] == body[j]);
                        }
                    }
                    hyphen = Some(i);
                },
            }
        } else {
            proof {
                match hyphen {
                    Some(at) => {
                        assert(more[at - start] == seen[at - start]);
                        assert forall|j: int| 0 <= j < more.len() && j != at - start implies #[trigger] more[j]
                            != '-' by {
                            if j < i - start {
                                assert(more[j] == seen[j]);
                            }
                        }
                    },
                    None => {},
                }
            }
        }
        i += 1;
    }
    proof {
        assert(body.take(i - start) =~= body);
    }
    match hyphen {
        None => {
            assert forall|k: int| !splits_at(body, k) by {
                if 0 <= k < body.len() {
                    assert(body[k] != '-');
                }
            }
            None
        },
        Some(at) => {
            proof {
                assert(splits_at(body, at - start));
                assert forall|k: int| splits_at(body, k) implies k == at - start by {
                    if k != at - start {
                        assert(body[at - start] == '-');
                    }
                }
                assert(body.take(at - start) =~= text@.subrange(start as int, at as int));
                assert(body.skip(at - start + 1) =~= text@.subrange(at + 1, end as int));
            }
            let min = parse_length(text, start, at);
            let max = parse_length(text, at + 1, end);
            match (min, max) {
                (Some(min), Some(max)) => Some(FilterRange { min, max }),
                _ => None,
            }
        },
    }
}

} // verus!
