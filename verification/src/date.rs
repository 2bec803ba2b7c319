//! Recognition of day-month-year dates written with hyphens, such as
//! `15-06-1990`, which a loose telephone pattern picks up by mistake.

use vstd::prelude::*;
use crate::text::{is_ascii_digit, rows, to_chars};

verus! {

/// The pieces of `s` between occurrences of `sep`. A text without `sep` is
/// one piece; `n` occurrences give `n + 1` pieces, some of them possibly empty.
pub open spec fn split_on(s: Seq<char>, sep: char) -> Seq<Seq<char>>
    decreases s.len(),
{
    if s.len() == 0 {
        seq![Seq::<char>::empty()]
    } else {
        let before = split_on(s.drop_last(), sep);
        if s.last() == sep {
            before.push(Seq::<char>::empty())
        } else {
            before.drop_last().push(before.last().push(s.last()))
        }
    }
}

/// The pieces joined again, with `sep` between neighbours.
pub open spec fn join_with(pieces: Seq<Seq<char>>, sep: char) -> Seq<char>
    decreases pieces.len(),
{
    if pieces.len() == 0 {
        Seq::<char>::empty()
    } else if pieces.len() == 1 {
        pieces[0]
    } else {
        join_with(pieces.drop_last(), sep).push(sep) + pieces.last()
    }
}

/// Splitting loses nothing: there is at least one piece, no piece holds the
/// separator, and joining the pieces gives the text back.
pub proof fn lemma_split_on_joins(s: Seq<char>, sep: char)
    ensures
        split_on(s, sep).len() >= 1,
        forall|k: int|
            0 <= k < split_on(s, sep).len() ==> !(#[trigger] split_on(s, sep)[k]).contains(sep),
        join_with(split_on(s, sep), sep) == s,
    decreases s.len(),
{
    if s.len() == 0 {
        assert(join_with(split_on(s, sep), sep) =~= s);
    } else {
        let before = split_on(s.drop_last(), sep);
        lemma_split_on_joins(s.drop_last(), sep);
        let now = split_on(s, sep);
        if s.last() == sep {
            assert(now.drop_last() =~= before);
            assert(join_with(now, sep) =~= s.drop_last().push(sep));
            assert(s.drop_last().push(sep) =~= s);
        } else {
            let grown = before.last().push(s.last());
            assert(now.last() == grown);
            assert forall|k: int| 0 <= k < now.len() implies !(#[trigger] now[k]).contains(sep) by {
                if k == now.len() - 1 {
                    assert(!before[k].contains(sep));
                    if grown.contains(sep) {
                        let j = choose|j: int| 0 <= j < grown.len() && grown[j] == sep;
                        if j < before.last().len() {
                            assert(before.last()[j] == sep);
                        }
                    }
                } else {
                    assert(now[k] == before[k]);
                }
            }
            if before.len() == 1 {
                assert(before[0] == s.drop_last());
                assert(join_with(now, sep) =~= s);
            } else {
                assert(now.drop_last() =~= before.drop_last());
                assert(join_with(now, sep) =~= (join_with(before.drop_last(), sep).push(sep)
                    + before.last()).push(s.last()));
                assert(join_with(now, sep) =~= s);
            }
        }
    }
}

/// Text without the separator, put behind a text, goes to its last piece.
proof fn lemma_split_on_extended(s: Seq<char>, more: Seq<char>, sep: char)
    requires
        !more.contains(sep),
    ensures
        split_on(s + more, sep) == split_on(s, sep).drop_last().push(
            split_on(s, sep).last() + more,
        ),
        split_on(s, sep).len() >= 1,
    decreases more.len(),
{
    lemma_split_on_joins(s, sep);
    let pieces = split_on(s, sep);
    if more.len() == 0 {
        assert(s + more =~= s);
        assert(pieces.last() + more =~= pieces.last());
        assert(pieces.drop_last().push(pieces.last()) =~= pieces);
    } else {
        let shorter = more.drop_last();
        assert(more[more.len() - 1] != sep);
        assert(!shorter.contains(sep)) by {
            if shorter.contains(sep) {
                let j = choose|j: int| 0 <= j < shorter.len() && shorter[j] == sep;
                assert(more[j] == sep);
            }
        }
        lemma_split_on_extended(s, shorter, sep);
        assert((s + more).drop_last() =~= s + shorter);
        let before = split_on(s + shorter, sep);
        assert(before.drop_last() =~= pieces.drop_last());
        assert((pieces.last() + shorter).push(more.last()) =~= pieces.last() + more);
    }
}

/// Splitting is the only way to cut a text into pieces without the
/// separator that join to the text again.
pub proof fn lemma_split_on_unique(pieces: Seq<Seq<char>>, sep: char)
    requires
        pieces.len() >= 1,
        forall|k: int| 0 <= k < pieces.len() ==> !(#[trigger] pieces[k]).contains(sep),
    ensures
        split_on(join_with(pieces, sep), sep) == pieces,
    decreases pieces.len(),
{
    let none = Seq::<char>::empty();
    if pieces.len() == 1 {
        lemma_split_on_extended(none, pieces[0], sep);
        assert(none + pieces[0] =~= pieces[0]);
        assert(split_on(none, sep).drop_last().push(split_on(none, sep).last() + pieces[0])
            =~= pieces);
    } else {
        let front = pieces.drop_last();
        assert forall|k: int| 0 <= k < front.len() implies !(#[trigger] front[k]).contains(
            sep,
        ) by {
            assert(front[k] == pieces[k]);
        }
        lemma_split_on_unique(front, sep);
        let head = join_with(front, sep).push(sep);
        assert(head.drop_last() =~= join_with(front, sep));
        assert(split_on(head, sep) == front.push(none));
        lemma_split_on_extended(head, pieces.last(), sep);
        assert(front.push(none).drop_last() =~= front);
        assert(none + pieces.last() =~= pieces.last());
        assert(front.push(pieces.last()) =~= pieces);
    }
}

/// Splits `s` at every occurrence of `sep`.
pub fn split_chars(s: &Vec<char>, sep: char) -> (pieces: Vec<Vec<char>>)
    ensures
        rows(pieces@) == split_on(s@, sep),
{
    let mut pieces: Vec<Vec<char>> = Vec::new();
    let mut current: Vec<char> = Vec::new();
    let mut i: usize = 0;
    while i < s.len()
        invariant
            i <= s.len(),
            rows(pieces@).push(current@) == split_on(s@.take(i as int), sep),
        decreases s.len() - i,
    {
        let c = s[i];
        proof {
            let upto = s@.take(i + 1);
            assert(upto.drop_last() =~= s@.take(i as int));
            assert(upto.last() == c);
            let before = rows(pieces@).push(current@);
            assert(before.drop_last() =~= rows(pieces@));
        }
        if c == sep {
            let ghost prior = rows(pieces@);
            pieces.push(current);
            current = Vec::new();
            assert(rows(pieces@) =~= prior.push(pieces[pieces.len() - 1]@));
        } else {
            current.push(c);
        }
        i += 1;
    }
    assert(s@.take(i as int) =~= s@);
    let ghost prior = rows(pieces@);
    pieces.push(current);
    assert(rows(pieces@) =~= prior.push(pieces[pieces.len() - 1]@));
    pieces
}

/// The number a digit stands for; 0 for any other character.
pub open spec fn digit_value(c: char) -> nat {
    if is_ascii_digit(c) {
        (c as int - '0' as int) as nat
    } else {
        0
    }
}

/// The number that a run of digits denotes in base ten.
pub open spec fn decimal_value(digits: Seq<char>) -> nat
    decreases digits.len(),
{
    if digits.len() == 0 {
        0
    } else {
        10 * decimal_value(digits.drop_last()) + digit_value(digits.last())
    }
}

/// A numeral without its optional leading plus sign.
pub open spec fn unsigned_part(part: Seq<char>) -> Seq<char> {
    if part.len() > 0 && part[0] == '+' {
        part.skip(1)
    } else {
        part
    }
}

/// Whether `part` is written as a non-negative whole number: an optional
/// plus sign, then one or more digits and nothing else.
pub open spec fn is_numeral(part: Seq<char>) -> bool {
    let digits = unsigned_part(part);
    &&& digits.len() > 0
    &&& forall|i: int| 0 <= i < digits.len() ==> is_ascii_digit(#[trigger] digits[i])
}

/// The number that a numeral denotes.
pub open spec fn numeral_value(part: Seq<char>) -> nat {
    decimal_value(unsigned_part(part))
}

/// What reading `part` as a 32-bit unsigned number gives: nothing when it is
/// no numeral or denotes a number that does not fit.
pub open spec fn parsed_number(part: Seq<char>) -> Option<u32> {
    if is_numeral(part) && numeral_value(part) <= u32::MAX {
        Some(numeral_value(part) as u32)
    } else {
        None
    }
}

/// Whether `part` is a numeral that denotes a number from `low` to `high`.
pub open spec fn numeral_within(part: Seq<char>, low: nat, high: nat) -> bool {
    is_numeral(part) && low <= numeral_value(part) <= high
}

/// Whether `s` reads as a date: exactly three pieces between hyphens, all
/// numerals, a day from 1 to 31, a month from 1 to 12 and a year from 1900
/// to 2100, in this order.
pub open spec fn is_date_shaped(s: Seq<char>) -> bool {
    let pieces = split_on(s, '-');
    &&& pieces.len() == 3
    &&& numeral_within(pieces[0], 1, 31)
    &&& numeral_within(pieces[1], 1, 12)
    &&& numeral_within(pieces[2], 1900, 2100)
}

/// A day, a month and a year written with hyphens between them.
pub open spec fn date_text(day: Seq<char>, month: Seq<char>, year: Seq<char>) -> Seq<char> {
    day + seq!['-'] + month + seq!['-'] + year
}

/// A numeral holds no hyphen.
proof fn lemma_numeral_without_hyphen(part: Seq<char>)
    requires
        is_numeral(part),
    ensures
        !part.contains('-'),
{
    if part.contains('-') {
        let j = choose|j: int| 0 <= j < part.len() && part[j] == '-';
        let digits = unsigned_part(part);
        if part[0] == '+' {
            assert(digits[j - 1] == part[j]);
        } else {
            assert(digits[j] == part[j]);
        }
    }
}

/// A text reads as a date exactly when it is a day from 1 to 31, a hyphen,
/// a month from 1 to 12, a hyphen and a year from 1900 to 2100, each
/// written as a numeral.
pub proof fn lemma_date_shaped_reads(s: Seq<char>)
    ensures
        is_date_shaped(s) <==> exists|day: Seq<char>, month: Seq<char>, year: Seq<char>|
            {
                &&& s == #[trigger] date_text(day, month, year)
                &&& numeral_within(day, 1, 31)
                &&& numeral_within(month, 1, 12)
                &&& numeral_within(year, 1900, 2100)
            },
{
    if is_date_shaped(s) {
        let pieces = split_on(s, '-');
        lemma_split_on_joins(s, '-');
        let front = pieces.drop_last();
        assert(join_with(front.drop_last(), '-') == pieces[0]);
        assert(join_with(front, '-') =~= pieces[0].push('-') + pieces[1]);
        assert(s =~= date_text(pieces[0], pieces[1], pieces[2]));
    }
    if exists|day: Seq<char>, month: Seq<char>, year: Seq<char>|
        {
            &&& s == #[trigger] date_text(day, month, year)
            &&& numeral_within(day, 1, 31)
            &&& numeral_within(month, 1, 12)
            &&& numeral_within(year, 1900, 2100)
        } {
        let (day, month, year) = choose|day: Seq<char>, month: Seq<char>, year: Seq<char>|
            {
                &&& s == #[trigger] date_text(day, month, year)
                &&& numeral_within(day, 1, 31)
                &&& numeral_within(month, 1, 12)
                &&& numeral_within(year, 1900, 2100)
            };
        let pieces = seq![day, month, year];
        lemma_numeral_without_hyphen(day);
        lemma_numeral_without_hyphen(month);
        lemma_numeral_without_hyphen(year);
        lemma_split_on_unique(pieces, '-');
        let front = pieces.drop_last();
        assert(join_with(front.drop_last(), '-') == day);
        assert(join_with(front, '-') =~= day.push('-') + month);
        assert(join_with(pieces, '-') =~= date_text(day, month, year));
    }
}

/// A longer run of digits denotes at least as much as any of its prefixes.
proof fn lemma_decimal_value_grows(digits: Seq<char>, k: int)
    requires
        0 <= k <= digits.len(),
    ensures
        decimal_value(digits.take(k)) <= decimal_value(digits),
    decreases digits.len() - k,
{
    if k == digits.len() {
        assert(digits.take(k) =~= digits);
    } else {
        lemma_decimal_value_grows(digits, k + 1);
        assert(digits.take(k + 1).drop_last() =~= digits.take(k));
    }
}

/// Reads `part` as a 32-bit unsigned number.
pub fn parse_number(part: &Vec<char>) -> (r: Option<u32>)
    ensures
        r == parsed_number(part@),
{
    let start: usize = if part.len() > 0 && part[0] == '+' {
        1
    } else {
        0
    };
    if start == part.len() {
        return None;
    }
    let ghost digits = unsigned_part(part@);
    assert(digits =~= part@.skip(start as int));
    let mut value: u32 = 0;
    let mut i: usize = start;
    while i < part.len()
        invariant
            start <= i <= part.len(),
            digits == part@.skip(start as int),
            digits == unsigned_part(part@),
            forall|k: int| 0 <= k < i - start ==> is_ascii_digit(#[trigger] digits[k]),
            value == decimal_value(digits.take(i - start)),
        decreases part.len() - i,
    {
        let c = part[i];
        assert(digits[i - start] == c);
        if !(c >= '0' && c <= '9') {
            assert(!is_ascii_digit(digits[i - start]));
            return None;
        }
        let digit: u32 = c as u32 - 48;
        proof {
            assert(digits.take(i + 1 - start).drop_last() =~= digits.take(i - start));
            assert(decimal_value(digits.take(i + 1 - start)) == 10 * value + digit);
            lemma_decimal_value_grows(digits, i + 1 - start);
        }
        let tenfold = match value.checked_mul(10) {
            Some(t) => t,
            None => {
                return None;
            },
        };
        value = match tenfold.checked_add(digit) {
            Some(v) => v,
            None => {
                return None;
            },
        };
        i += 1;
    }
    assert(digits.take(i - start) =~= digits);
    Some(value)
}

/// Whether the characters `s` read as a date.
pub fn is_date_chars(s: &Vec<char>) -> (r: bool)
    ensures
        r == is_date_shaped(s@),
{
    let pieces = split_chars(s, '-');
    if pieces.len() != 3 {
        return false;
    }
    let day = parse_number(&pieces[0]);
    let month = parse_number(&pieces[1]);
    let year = parse_number(&pieces[2]);
    match (day, month, year) {
        (Some(day), Some(month), Some(year)) => {
            day >= 1 && day <= 31 && month >= 1 && month <= 12 && year >= 1900 && year <= 2100
        },
        _ => false,
    }
}

/// Whether `input` reads as a date: `15-06-1990` does, `555-123-4567` does not.
pub fn is_date(input: &str) -> (r: bool)
    ensures
        r == is_date_shaped(input@),
{
    let chars = to_chars(input);
    is_date_chars(&chars)
}

} // verus!
