//! The test that separates plausible telephone numbers from the other
//! things a loose pattern matches.

use vstd::prelude::*;
use crate::candidates::{strictly_ascending, CandidateSet};
use crate::date::{is_date_chars, is_date_shaped};
use crate::order::text_lt;
use crate::text::{texts, to_chars};

verus! {

/// The least number of characters of a plausible telephone number.
pub const MIN_PHONE_LENGTH: usize = 10;

/// The greatest number of characters of a plausible telephone number.
pub const MAX_PHONE_LENGTH: usize = 16;

/// Whether a candidate is taken for a telephone number: it holds no dot, it
/// has 10 to 16 characters, separators included, and it does not read as a
/// date. All three must hold.
pub open spec fn plausible_phone(candidate: Seq<char>) -> bool {
    &&& !candidate.contains('.')
    &&& MIN_PHONE_LENGTH <= candidate.len() <= MAX_PHONE_LENGTH
    &&& !is_date_shaped(candidate)
}

/// The plausible telephone numbers among `candidates`, in their order.
pub open spec fn plausible_among(candidates: Seq<Seq<char>>) -> Seq<Seq<char>> {
    candidates.filter(|c: Seq<char>| plausible_phone(c))
}

/// A candidate with a dot in it is rejected, whatever its length.
pub proof fn lemma_dot_rejected(candidate: Seq<char>)
    requires
        candidate.contains('.'),
    ensures
        !plausible_phone(candidate),
{
}

/// A candidate that reads as a date is rejected, whatever else holds of it.
pub proof fn lemma_date_rejected(candidate: Seq<char>)
    requires
        is_date_shaped(candidate),
    ensures
        !plausible_phone(candidate),
{
}

/// The three rules are joined by "and": a candidate without a dot that does
/// not read as a date is accepted exactly when it has 10 to 16 characters.
pub proof fn lemma_length_decides(candidate: Seq<char>)
    requires
        !candidate.contains('.'),
        !is_date_shaped(candidate),
    ensures
        plausible_phone(candidate) <==> 10 <= candidate.len() <= 16,
{
}

/// Whether `c` occurs among `chars`.
pub fn has_char(chars: &Vec<char>, c: char) -> (found: bool)
    ensures
        found == chars@.contains(c),
{
    let mut i: usize = 0;
    while i < chars.len()
        invariant
            i <= chars.len(),
            forall|k: int| 0 <= k < i ==> chars@[k] != c,
        decreases chars.len() - i,
    {
        if chars[i] == c {
            return true;
        }
        i += 1;
    }
    false
}

/// Whether `candidate` is taken for a telephone number.
pub fn is_plausible_phone(candidate: &str) -> (accepted: bool)
    ensures
        accepted == plausible_phone(candidate@),
{
    let chars = to_chars(candidate);
    !has_char(&chars, '.') && chars.len() >= MIN_PHONE_LENGTH && !is_date_chars(&chars)
        && chars.len() <= MAX_PHONE_LENGTH
}

/// The candidates that passed the test for telephone numbers: distinct
/// strings in dictionary order, every one of them plausible.
#[derive(Debug)]
pub struct AcceptedPhoneSet {
    items: Vec<String>,
}

impl View for AcceptedPhoneSet {
    type V = Seq<Seq<char>>;

    /// The members, in dictionary order.
    closed spec fn view(&self) -> Seq<Seq<char>> {
        texts(self.items@)
    }
}

impl AcceptedPhoneSet {
    #[verifier::type_invariant]
    spec fn all_accepted(&self) -> bool {
        &&& strictly_ascending(texts(self.items@))
        &&& forall|i: int|
            0 <= i < self.items@.len() ==> plausible_phone(#[trigger] texts(self.items@)[i])
    }

    /// The set without members.
    pub fn new() -> (set: AcceptedPhoneSet)
        ensures
            set@ == Seq::<Seq<char>>::empty(),
    {
        let set = AcceptedPhoneSet { items: Vec::new() };
        assert(set@ =~= Seq::<Seq<char>>::empty());
        set
    }

    /// Keeps the members of `candidates` that are plausible telephone
    /// numbers and drops the others.
    pub fn from_candidates(candidates: &CandidateSet) -> (set: AcceptedPhoneSet)
        ensures
            set@ == plausible_among(candidates@),
    {
        let all = candidates.items();
        let ghost given = texts(all@);
        let ghost test = |c: Seq<char>| plausible_phone(c);
        let mut items: Vec<String> = Vec::new();
        let mut i: usize = 0;
        while i < all.len()
            invariant
                i <= all.len(),
                given == texts(all@),
                strictly_ascending(given),
                test == |c: Seq<char>| plausible_phone(c),
                texts(items@) == given.take(i as int).filter(test),
                strictly_ascending(texts(items@)),
                forall|k: int|
                    0 <= k < items@.len() ==> plausible_phone(#[trigger] texts(items@)[k]),
                forall|k: int, j: int|
                    0 <= k < items@.len() && i <= j < given.len() ==> text_lt(
                        #[trigger] texts(items@)[k],
                        #[trigger] given[j],
                    ),
            decreases all.len() - i,
        {
            let ghost had = texts(items@);
            proof {
                assert(given.take(i + 1) =~= given.take(i as int).push(given[i as int]));
                given.take(i as int).lemma_filter_push(given[i as int], test);
            }
            if is_plausible_phone(all[i].as_str()) {
                items.push(all[i].clone());
                proof {
                    let now = texts(items@);
                    assert(now =~= had.push(given[i as int]));
                    assert forall|k: int, j: int|
                        0 <= k < now.len() && i + 1 <= j < given.len() implies text_lt(
                        #[trigger] now[k],
                        #[trigger] given[j],
                    ) by {
                        if k == had.len() {
                            assert(text_lt(given[i as int], given[j]));
                        } else {
                            assert(now[k] == had[k]);
                        }
                    }
                    assert forall|a: int, b: int| 0 <= a < b < now.len() implies text_lt(
                        #[trigger] now[a],
                        #[trigger] now[b],
                    ) by {
                        assert(now[a] == had[a]);
                        if b == had.len() {
                            assert(text_lt(had[a], given[i as int]));
                        } else {
                            assert(now[b] == had[b]);
                        }
                    }
                }
            }
            i += 1;
        }
        assert(given.take(i as int) =~= given);
        AcceptedPhoneSet { items }
    }

    /// How many members the set has.
    pub fn len(&self) -> (n: usize)
        ensures
            n == self@.len(),
    {
        self.items.len()
    }

    /// Whether the set has no member.
    pub fn is_empty(&self) -> (empty: bool)
        ensures
            empty == (self@.len() == 0),
    {
        self.items.len() == 0
    }

    /// The members in dictionary order: no string twice, every one a
    /// plausible telephone number.
    pub fn items(&self) -> (items: &Vec<String>)
        ensures
            texts(items@) == self@,
            strictly_ascending(self@),
            forall|i: int| 0 <= i < self@.len() ==> plausible_phone(#[trigger] self@[i]),
    {
        proof {
            use_type_invariant(self);
        }
        &self.items
    }
}

} // verus!
