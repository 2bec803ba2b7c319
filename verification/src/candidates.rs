//! Sets of candidate strings, kept in dictionary order without repetition.

use vstd::prelude::*;
use crate::order::{
    lemma_text_lt_asymmetric, lemma_text_lt_irreflexive, lemma_text_lt_total,
    lemma_text_lt_transitive, precedes, text_lt,
};
use crate::text::texts;

verus! {

/// Whether each text of `s` comes strictly before every later one.
pub open spec fn strictly_ascending(s: Seq<Seq<char>>) -> bool {
    forall|i: int, j: int| 0 <= i < j < s.len() ==> text_lt(#[trigger] s[i], #[trigger] s[j])
}

/// Whether `s` and `m` hold the same texts, however often and in whatever order.
pub open spec fn same_members(s: Seq<Seq<char>>, m: Seq<Seq<char>>) -> bool {
    forall|x: Seq<char>| s.contains(x) <==> m.contains(x)
}

/// Whether `s` lists the texts of `m` once each, in dictionary order.
pub open spec fn is_ordered_set_of(s: Seq<Seq<char>>, m: Seq<Seq<char>>) -> bool {
    strictly_ascending(s) && same_members(s, m)
}

/// The texts of `m`, once each, in dictionary order.
pub open spec fn sorted_unique(m: Seq<Seq<char>>) -> Seq<Seq<char>> {
    choose|s: Seq<Seq<char>>| is_ordered_set_of(s, m)
}

/// A text is a member of `s.push(x)` exactly when it is a member of `s` or is `x`.
proof fn lemma_member_after_push(s: Seq<Seq<char>>, x: Seq<char>, y: Seq<char>)
    ensures
        s.push(x).contains(y) <==> s.contains(y) || y == x,
{
    let t = s.push(x);
    if t.contains(y) {
        let i = choose|i: int| 0 <= i < t.len() && t[i] == y;
        if i < s.len() {
            assert(s[i] == y);
        }
    }
    if s.contains(y) {
        let i = choose|i: int| 0 <= i < s.len() && s[i] == y;
        assert(t[i] == y);
    }
    if y == x {
        assert(t[s.len() as int] == y);
    }
}

/// A text is a member of `s.insert(at, x)` exactly when it is a member of
/// `s` or is `x`.
proof fn lemma_member_after_insert(s: Seq<Seq<char>>, at: int, x: Seq<char>, y: Seq<char>)
    requires
        0 <= at <= s.len(),
    ensures
        s.insert(at, x).contains(y) <==> s.contains(y) || y == x,
{
    let t = s.insert(at, x);
    if t.contains(y) {
        let i = choose|i: int| 0 <= i < t.len() && t[i] == y;
        if i < at {
            assert(s[i] == y);
        } else if i > at {
            assert(s[i - 1] == y);
        }
    }
    if s.contains(y) {
        let i = choose|i: int| 0 <= i < s.len() && s[i] == y;
        if i < at {
            assert(t[i] == y);
        } else {
            assert(t[i + 1] == y);
        }
    }
    if y == x {
        assert(t[at] == y);
    }
}

/// Sequences with the same members still have the same members when the
/// same text is added to both.
proof fn lemma_same_members_push(a: Seq<Seq<char>>, b: Seq<Seq<char>>, x: Seq<char>)
    requires
        same_members(a, b),
    ensures
        same_members(a.push(x), b.push(x)),
{
    assert forall|y: Seq<char>| a.push(x).contains(y) <==> b.push(x).contains(y) by {
        lemma_member_after_push(a, x, y);
        lemma_member_after_push(b, x, y);
    }
}

/// Adding a text that is a member already adds no member.
proof fn lemma_same_members_repeat(a: Seq<Seq<char>>, x: Seq<char>)
    requires
        a.contains(x),
    ensures
        same_members(a, a.push(x)),
{
    assert forall|y: Seq<char>| a.contains(y) <==> a.push(x).contains(y) by {
        lemma_member_after_push(a, x, y);
    }
}

/// What is left of an ascending sequence without its last text is ascending.
proof fn lemma_ascending_without_last(s: Seq<Seq<char>>)
    requires
        strictly_ascending(s),
        s.len() > 0,
    ensures
        strictly_ascending(s.drop_last()),
        !s.drop_last().contains(s.last()),
        forall|k: int| 0 <= k < s.len() - 1 ==> text_lt(#[trigger] s[k], s.last()),
{
    let rest = s.drop_last();
    assert forall|i: int, j: int| 0 <= i < j < rest.len() implies text_lt(
        #[trigger] rest[i],
        #[trigger] rest[j],
    ) by {
        assert(text_lt(s[i], s[j]));
    }
    assert forall|k: int| 0 <= k < s.len() - 1 implies text_lt(#[trigger] s[k], s.last()) by {
        assert(text_lt(s[k], s[s.len() - 1]));
    }
    if rest.contains(s.last()) {
        let i = choose|i: int| 0 <= i < rest.len() && rest[i] == s.last();
        assert(text_lt(s[i], s.last()));
        lemma_text_lt_irreflexive(s.last());
    }
}

/// An ascending sequence holds no text twice.
pub proof fn lemma_ascending_no_duplicates(s: Seq<Seq<char>>)
    requires
        strictly_ascending(s),
    ensures
        s.no_duplicates(),
{
    assert forall|i: int, j: int| 0 <= i < s.len() && 0 <= j < s.len() && i != j implies s[i]
        != s[j] by {
        lemma_text_lt_irreflexive(s[i]);
        if i < j {
            assert(text_lt(s[i], s[j]));
        } else {
            assert(text_lt(s[j], s[i]));
        }
    }
}

/// Two ascending sequences with the same members are the same sequence.
pub proof fn lemma_ordered_set_unique(a: Seq<Seq<char>>, b: Seq<Seq<char>>)
    requires
        strictly_ascending(a),
        strictly_ascending(b),
        same_members(a, b),
    ensures
        a == b,
    decreases a.len(),
{
    if a.len() == 0 || b.len() == 0 {
        if a.len() > 0 {
            assert(a.contains(a[0]));
        }
        if b.len() > 0 {
            assert(b.contains(b[0]));
        }
        assert(a =~= b);
    } else {
        // The last text of each sequence is its greatest, and is a member
        // of the other sequence: the two are the same text.
        lemma_ascending_without_last(a);
        lemma_ascending_without_last(b);
        assert(a.contains(a.last()) && b.contains(a.last()));
        assert(b.contains(b.last()) && a.contains(b.last()));
        if a.last() != b.last() {
            let ia = choose|i: int| 0 <= i < a.len() && a[i] == b.last();
            let ib = choose|i: int| 0 <= i < b.len() && b[i] == a.last();
            assert(text_lt(a[ia], a.last()));
            assert(text_lt(b[ib], b.last()));
            lemma_text_lt_asymmetric(a.last(), b.last());
        }
        // Without it, the rests have the same members again.
        assert(a =~= a.drop_last().push(a.last()));
        assert(b =~= b.drop_last().push(b.last()));
        assert forall|y: Seq<char>| a.drop_last().contains(y) <==> b.drop_last().contains(y) by {
            lemma_member_after_push(a.drop_last(), a.last(), y);
            lemma_member_after_push(b.drop_last(), b.last(), y);
        }
        lemma_ordered_set_unique(a.drop_last(), b.drop_last());
    }
}

/// A sequence that lists the texts of `m` once each in order is the one
/// that `sorted_unique` names.
pub proof fn lemma_sorted_unique_is(s: Seq<Seq<char>>, m: Seq<Seq<char>>)
    requires
        is_ordered_set_of(s, m),
    ensures
        sorted_unique(m) == s,
{
    lemma_ordered_set_unique(sorted_unique(m), s);
}

/// Putting `x` into an ascending sequence at the place `at`, after the texts
/// that come before it and ahead of those that come after it, keeps the
/// sequence ascending and makes `x` a member.
proof fn lemma_insert_keeps_order(s: Seq<Seq<char>>, at: int, x: Seq<char>)
    requires
        strictly_ascending(s),
        0 <= at <= s.len(),
        forall|k: int| 0 <= k < at ==> text_lt(#[trigger] s[k], x),
        at < s.len() ==> text_lt(x, s[at]),
    ensures
        is_ordered_set_of(s.insert(at, x), s.push(x)),
{
    let t = s.insert(at, x);
    assert forall|i: int, j: int| 0 <= i < j < t.len() implies text_lt(
        #[trigger] t[i],
        #[trigger] t[j],
    ) by {
        if j == at {
            assert(t[i] == s[i]);
        } else if i == at {
            assert(t[j] == s[j - 1]);
            if j - 1 > at {
                assert(text_lt(s[at], s[j - 1]));
                lemma_text_lt_transitive(x, s[at], s[j - 1]);
            }
        } else {
            let si = if i < at { i } else { i - 1 };
            let sj = if j < at { j } else { j - 1 };
            assert(t[i] == s[si] && t[j] == s[sj]);
            assert(text_lt(s[si], s[sj]));
        }
    }
    assert forall|y: Seq<char>| t.contains(y) <==> s.push(x).contains(y) by {
        lemma_member_after_insert(s, at, x, y);
        lemma_member_after_push(s, x, y);
    }
}

/// How many texts at the front of `s` come before `x`.
spec fn rank(s: Seq<Seq<char>>, x: Seq<char>) -> int
    decreases s.len(),
{
    if s.len() == 0 {
        0
    } else if text_lt(s.last(), x) {
        s.len() as int
    } else {
        rank(s.drop_last(), x)
    }
}

/// In an ascending sequence the texts before `x` are exactly those ahead of
/// place `rank(s, x)`.
proof fn lemma_rank_divides(s: Seq<Seq<char>>, x: Seq<char>)
    requires
        strictly_ascending(s),
    ensures
        0 <= rank(s, x) <= s.len(),
        forall|k: int| 0 <= k < rank(s, x) ==> text_lt(#[trigger] s[k], x),
        rank(s, x) < s.len() ==> !text_lt(s[rank(s, x)], x),
    decreases s.len(),
{
    if s.len() > 0 {
        lemma_ascending_without_last(s);
        if text_lt(s.last(), x) {
            assert forall|k: int| 0 <= k < s.len() implies text_lt(#[trigger] s[k], x) by {
                if k < s.len() - 1 {
                    lemma_text_lt_transitive(s[k], s.last(), x);
                }
            }
        } else {
            let rest = s.drop_last();
            lemma_rank_divides(rest, x);
            assert forall|k: int| 0 <= k < rank(s, x) implies text_lt(#[trigger] s[k], x) by {
                assert(s[k] == rest[k]);
            }
            if rank(s, x) < rest.len() {
                assert(s[rank(s, x)] == rest[rank(rest, x)]);
            }
        }
    }
}

/// Every sequence of texts has its ordered set: `sorted_unique(m)` is
/// ascending and holds exactly the texts of `m`.
pub proof fn lemma_sorted_unique_exists(m: Seq<Seq<char>>)
    ensures
        is_ordered_set_of(sorted_unique(m), m),
    decreases m.len(),
{
    if m.len() == 0 {
        assert(is_ordered_set_of(Seq::<Seq<char>>::empty(), m));
    } else {
        let seen = m.drop_last();
        let x = m.last();
        lemma_sorted_unique_exists(seen);
        let had = sorted_unique(seen);
        assert(m =~= seen.push(x));
        lemma_same_members_push(had, seen, x);
        if had.contains(x) {
            lemma_same_members_repeat(had, x);
            assert(is_ordered_set_of(had, m));
        } else {
            lemma_rank_divides(had, x);
            let at = rank(had, x);
            if at < had.len() {
                assert(had.contains(had[at]));
                lemma_text_lt_total(had[at], x);
            }
            lemma_insert_keeps_order(had, at, x);
            assert(is_ordered_set_of(had.insert(at, x), m));
        }
    }
}

/// However often a text occurs among the matches, and wherever, the set
/// built from them holds it exactly once; a text that does not occur among
/// them is not in the set.
pub proof fn lemma_each_match_once(m: Seq<Seq<char>>, x: Seq<char>)
    ensures
        sorted_unique(m).no_duplicates(),
        m.contains(x) ==> sorted_unique(m).to_multiset().count(x) == 1,
        !m.contains(x) ==> sorted_unique(m).to_multiset().count(x) == 0,
{
    broadcast use vstd::multiset::group_multiset_axioms;

    let s = sorted_unique(m);
    lemma_sorted_unique_exists(m);
    lemma_ascending_no_duplicates(s);
    s.lemma_multiset_has_no_duplicates();
    s.to_multiset_ensures();
}

/// The set does not depend on how often or in what order the matches come:
/// matches with the same members give the same set.
pub proof fn lemma_sorted_unique_of_same_members(m: Seq<Seq<char>>, n: Seq<Seq<char>>)
    requires
        same_members(m, n),
    ensures
        sorted_unique(m) == sorted_unique(n),
{
    lemma_sorted_unique_exists(m);
    lemma_sorted_unique_exists(n);
    lemma_ordered_set_unique(sorted_unique(m), sorted_unique(n));
}

/// Adds `item` to the ascending `items` unless it is there already, and says
/// whether it was added.
fn insert_ordered(items: &mut Vec<String>, item: String) -> (added: bool)
    requires
        strictly_ascending(texts(old(items)@)),
    ensures
        added == !texts(old(items)@).contains(item@),
        is_ordered_set_of(texts(final(items)@), texts(old(items)@).push(item@)),
        !added ==> final(items)@ == old(items)@,
{
    let ghost before = texts(items@);
    let mut at: usize = 0;
    while at < items.len() && precedes(items[at].as_str(), item.as_str())
        invariant
            at <= items.len(),
            items == old(items),
            texts(items@) == before,
            forall|k: int| 0 <= k < at ==> text_lt(#[trigger] before[k], item@),
        decreases items.len() - at,
    {
        at += 1;
    }
    if at < items.len() && items[at] == item {
        proof {
            assert(before[at as int] == item@);
            lemma_same_members_repeat(before, item@);
        }
        return false;
    }
    proof {
        // Nothing from `at` on comes before `item` or is `item`, so all of
        // it comes after.
        if at < before.len() {
            lemma_text_lt_total(before[at as int], item@);
        }
        lemma_insert_keeps_order(before, at as int, item@);
        if before.contains(item@) {
            let i = choose|i: int| 0 <= i < before.len() && before[i] == item@;
            lemma_text_lt_irreflexive(item@);
            if i > at {
                assert(text_lt(before[at as int], before[i]));
                lemma_text_lt_asymmetric(before[at as int], item@);
            }
        }
    }
    let ghost text = item@;
    items.insert(at, item);
    assert(texts(items@) =~= before.insert(at as int, text));
    true
}

/// A set of distinct strings, held in dictionary order.
#[derive(Debug)]
pub struct CandidateSet {
    items: Vec<String>,
}

impl View for CandidateSet {
    type V = Seq<Seq<char>>;

    /// The members, in dictionary order.
    closed spec fn view(&self) -> Seq<Seq<char>> {
        texts(self.items@)
    }
}

impl CandidateSet {
    #[verifier::type_invariant]
    spec fn in_order(&self) -> bool {
        strictly_ascending(texts(self.items@))
    }

    /// The empty set.
    pub fn new() -> (set: CandidateSet)
        ensures
            set@ == Seq::<Seq<char>>::empty(),
    {
        let set = CandidateSet { items: Vec::new() };
        assert(set@ =~= Seq::<Seq<char>>::empty());
        set
    }

    /// The set of the strings in `matches`: each of them once, however often
    /// it occurs there, in dictionary order.
    pub fn from_matches(matches: &Vec<String>) -> (set: CandidateSet)
        ensures
            set@ == sorted_unique(texts(matches@)),
            is_ordered_set_of(set@, texts(matches@)),
    {
        let ghost all = texts(matches@);
        let mut items: Vec<String> = Vec::new();
        let mut i: usize = 0;
        while i < matches.len()
            invariant
                i <= matches.len(),
                all == texts(matches@),
                is_ordered_set_of(texts(items@), all.take(i as int)),
            decreases matches.len() - i,
        {
            proof {
                assert(all.take(i + 1) =~= all.take(i as int).push(all[i as int]));
                lemma_same_members_push(texts(items@), all.take(i as int), all[i as int]);
            }
            insert_ordered(&mut items, matches[i].clone());
            i += 1;
        }
        proof {
            assert(all.take(i as int) =~= all);
            lemma_sorted_unique_is(texts(items@), all);
        }
        CandidateSet { items }
    }

    /// How many members the set has.
    pub fn len(&self) -> (n: usize)
        ensures
            n == self@.len(),
    {
        self.items.len()
    }

    /// Whether the set has no member.
    pub fn is_empty(&self) -> (empty: bool)
        ensures
            empty == (self@.len() == 0),
    {
        self.items.len() == 0
    }

    /// The member at place `i` of the dictionary order, if there are so many.
    pub fn get(&self, i: usize) -> (item: Option<&String>)
        ensures
            i < self@.len() ==> item is Some && item->Some_0@ == self@[i as int],
            i >= self@.len() ==> item is None,
    {
        if i < self.items.len() {
            Some(&self.items[i])
        } else {
            None
        }
    }

    /// The members in dictionary order, none of them twice.
    pub fn items(&self) -> (items: &Vec<String>)
        ensures
            texts(items@) == self@,
            strictly_ascending(self@),
    {
        proof {
            use_type_invariant(self);
        }
        &self.items
    }
}

} // verus!
