//! Reduction of a telephone number to the digits that a link takes.

use vstd::prelude::*;
use crate::text::{from_chars, is_ascii_digit, to_chars};

verus! {

/// How many digits of a number a link keeps at most.
pub const LINK_DIGITS: usize = 10;

/// The digits of `s`, in their order, everything else left out.
pub open spec fn digits_of(s: Seq<char>) -> Seq<char> {
    s.filter(|c: char| is_ascii_digit(c))
}

/// The last `n` items of `digits`, or all of them where there are fewer.
pub open spec fn trailing(digits: Seq<char>, n: int) -> Seq<char> {
    if digits.len() <= n {
        digits
    } else {
        digits.skip(digits.len() - n)
    }
}

/// The form of a candidate that a link takes: its last ten digits, or all
/// its digits where it has fewer. A candidate without any digit has none.
pub open spec fn normalized_phone(candidate: Seq<char>) -> Option<Seq<char>> {
    let digits = digits_of(candidate);
    if digits.len() == 0 {
        None
    } else {
        Some(trailing(digits, LINK_DIGITS as int))
    }
}

/// A candidate has a normalized form exactly when it holds a digit.
pub proof fn lemma_normalized_needs_digit(candidate: Seq<char>)
    ensures
        normalized_phone(candidate) is None <==> digits_of(candidate).len() == 0,
        normalized_phone(candidate) is None <==> forall|i: int|
            0 <= i < candidate.len() ==> !is_ascii_digit(#[trigger] candidate[i]),
{
    let test = |c: char| is_ascii_digit(c);
    let digits = digits_of(candidate);
    if digits.len() == 0 {
        assert forall|i: int| 0 <= i < candidate.len() implies !is_ascii_digit(
            #[trigger] candidate[i],
        ) by {
            if is_ascii_digit(candidate[i]) {
                candidate.lemma_filter_contains(test, i);
            }
        }
    } else {
        candidate.lemma_filter_pred(test, 0);
        assert(candidate.contains(digits[0])) by {
            candidate.lemma_filter_contains_rev(test, digits[0]);
        }
    }
}

/// With ten digits or fewer, but at least one, the normalized form is all
/// the digits; a candidate that consists of one to ten digits is its own
/// normalized form.
pub proof fn lemma_few_digits_all_kept(candidate: Seq<char>)
    requires
        1 <= digits_of(candidate).len() <= 10,
    ensures
        normalized_phone(candidate) == Some(digits_of(candidate)),
        (forall|i: int| 0 <= i < candidate.len() ==> is_ascii_digit(#[trigger] candidate[i]))
            ==> normalized_phone(candidate) == Some(candidate),
{
    if forall|i: int| 0 <= i < candidate.len() ==> is_ascii_digit(#[trigger] candidate[i]) {
        lemma_all_digits_kept(candidate);
    }
}

/// Filtering the digits out of a text that holds nothing else gives the text.
proof fn lemma_all_digits_kept(s: Seq<char>)
    requires
        forall|i: int| 0 <= i < s.len() ==> is_ascii_digit(#[trigger] s[i]),
    ensures
        digits_of(s) == s,
    decreases s.len(),
{
    reveal(Seq::filter);
    if s.len() > 0 {
        lemma_all_digits_kept(s.drop_last());
        assert(s.drop_last().push(s.last()) =~= s);
    }
}

/// With ten digits or more, the normalized form is the last ten of them:
/// the digits are some leading ones, which are dropped, followed by the ten
/// that are kept.
pub proof fn lemma_many_digits_suffix_kept(candidate: Seq<char>)
    requires
        digits_of(candidate).len() >= 10,
    ensures
        normalized_phone(candidate) is Some,
        normalized_phone(candidate)->Some_0.len() == 10,
        digits_of(candidate) == digits_of(candidate).take(digits_of(candidate).len() - 10)
            + normalized_phone(candidate)->Some_0,
{
    let digits = digits_of(candidate);
    let kept = normalized_phone(candidate)->Some_0;
    assert(kept =~= digits.skip(digits.len() - 10));
    assert(digits =~= digits.take(digits.len() - 10) + kept);
}

/// A normalized form holds digits only: at least one, at most ten.
pub proof fn lemma_normalized_is_digits(candidate: Seq<char>)
    requires
        normalized_phone(candidate) is Some,
    ensures
        1 <= normalized_phone(candidate)->Some_0.len() <= 10,
        forall|i: int|
            0 <= i < normalized_phone(candidate)->Some_0.len() ==> is_ascii_digit(
                #[trigger] normalized_phone(candidate)->Some_0[i],
            ),
{
    let test = |c: char| is_ascii_digit(c);
    let digits = digits_of(candidate);
    let kept = normalized_phone(candidate)->Some_0;
    assert forall|i: int| 0 <= i < kept.len() implies is_ascii_digit(#[trigger] kept[i]) by {
        let at = if digits.len() <= 10 { i } else { digits.len() - 10 + i };
        assert(kept[i] == digits[at]);
        candidate.lemma_filter_pred(test, at);
    }
}

/// The digits among `chars`.
pub fn digits_in(chars: &Vec<char>) -> (digits: Vec<char>)
    ensures
        digits@ == digits_of(chars@),
{
    let ghost test = |c: char| is_ascii_digit(c);
    let mut digits: Vec<char> = Vec::new();
    let mut i: usize = 0;
    while i < chars.len()
        invariant
            i <= chars.len(),
            test == |c: char| is_ascii_digit(c),
            digits@ == chars@.take(i as int).filter(test),
        decreases chars.len() - i,
    {
        let c = chars[i];
        proof {
            assert(chars@.take(i + 1) =~= chars@.take(i as int).push(c));
            chars@.take(i as int).lemma_filter_push(c, test);
        }
        if c >= '0' && c <= '9' {
            digits.push(c);
        }
        i += 1;
    }
    assert(chars@.take(i as int) =~= chars@);
    digits
}

/// Reduces a candidate to the digits that a link takes: the last ten, or
/// all of them where it has fewer. Without any digit there is no such form.
pub fn normalize_phone(candidate: &str) -> (normalized: Option<String>)
    ensures
        normalized is Some <==> normalized_phone(candidate@) is Some,
        normalized matches Some(phone) ==> normalized_phone(candidate@) == Some(phone@),
{
    let chars = to_chars(candidate);
    let digits = digits_in(&chars);
    if digits.len() == 0 {
        return None;
    }
    let from: usize = if digits.len() <= LINK_DIGITS {
        0
    } else {
        digits.len() - LINK_DIGITS
    };
    let mut kept: Vec<char> = Vec::new();
    let mut i: usize = from;
    while i < digits.len()
        invariant
            from <= i <= digits.len(),
            kept@ == digits@.subrange(from as int, i as int),
        decreases digits.len() - i,
    {
        kept.push(digits[i]);
        assert(digits@.subrange(from as int, i + 1) =~= kept@);
        i += 1;
    }
    assert(kept@ =~= trailing(digits@, LINK_DIGITS as int));
    Some(from_chars(&kept))
}

} // verus!
