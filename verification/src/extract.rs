//! Finding every piece of a text that matches a pattern.

use vstd::prelude::*;
use vstd::string::StringExecFns;
use regex::Regex;
use crate::candidates::{sorted_unique, CandidateSet};
use crate::text::texts;

verus! {

/// The pattern for e-mail addresses: a local part, `@`, a domain, a dot and
/// a top-level label of two or more letters.
pub const STANDARD_EMAIL_REGEX: &'static str = r"[a-zA-Z0-9._%+-]+@[a-zA-Z0-9.-]+\.[a-zA-Z]{2,}";

/// The pattern for telephone numbers that is used when the caller gives
/// none: an optional country code with an optional plus sign, then three
/// groups of digits, each group optionally followed by a space, a hyphen or
/// a dot. It matches more than telephone numbers; the filter sorts them out.
pub const DEFAULT_PHONE_REGEX: &'static str =
    r"(?:\+?\d{1,4}[-.\s]?)?\d{1,4}[-.\s]?\d{1,4}[-.\s]?\d{1,9}";

/// Whether `piece` stands in `text`, as one unbroken run of its characters.
pub open spec fn is_piece_of(piece: Seq<char>, text: Seq<char>) -> bool {
    exists|from: int, to: int| 0 <= from <= to <= text.len() && piece == text.subrange(from, to)
}

/// Why a pattern is refused: the message of the error that compiling it
/// gives. Nothing for a pattern that compiles.
pub uninterp spec fn pattern_complaint(pattern: Seq<char>) -> Option<Seq<char>>;

/// The pieces of `haystack` that a pattern matches, from left to right,
/// none overlapping another.
pub uninterp spec fn pattern_matches(pattern: Seq<char>, haystack: Seq<char>) -> Seq<Seq<char>>;

/// Compiles `pattern` with `Regex::new` and collects what `Regex::find_iter`
/// finds in `haystack`.
///
/// `Regex::new` returns the compiled expression, or an error for a pattern
/// that is not valid or that compiles to more than the size limit allows.
/// Which of the two, and the `Display` text of the error, depend on the
/// pattern alone: `pattern_complaint` is the name of that text.
///
/// `Regex::find_iter` yields the successive non-overlapping matches in the
/// haystack, and `Match::as_str` the matched piece of each, which is a slice
/// of the haystack. They depend on the pattern and the haystack alone:
/// `pattern_matches` is the name of their sequence.
#[verifier::external_body]
fn find_matches(pattern: &str, haystack: &str) -> (found: Result<Vec<String>, String>)
    ensures
        match found {
            Ok(pieces) => {
                &&& pattern_complaint(pattern@) is None
                &&& texts(pieces@) == pattern_matches(pattern@, haystack@)
                &&& forall|i: int|
                    0 <= i < pieces@.len() ==> is_piece_of(#[trigger] pieces@[i]@, haystack@)
            },
            Err(complaint) => pattern_complaint(pattern@) == Some(complaint@),
        },
{
    match Regex::new(pattern) {
        Ok(re) => Ok(re.find_iter(haystack).map(|m| m.as_str().to_string()).collect()),
        Err(error) => Err(error.to_string()),
    }
}

/// A pattern that could not be compiled.
#[derive(Debug, Clone, PartialEq, Eq)]
pub struct PatternError {
    /// The pattern as it was given.
    pub pattern: String,
    /// Why it was refused.
    pub complaint: String,
}

impl PatternError {
    /// The refusal in one line, for the user.
    pub fn describe(&self) -> (line: String)
        ensures
            line@ == "Invalid regex pattern '"@ + self.pattern@ + "': "@ + self.complaint@,
    {
        let mut line = String::from_str("Invalid regex pattern '");
        line.append(self.pattern.as_str());
        line.append("': ");
        line.append(self.complaint.as_str());
        line
    }
}

/// The candidates that `pattern` finds in `content`: its matches, once each
/// in dictionary order. Nothing when the pattern does not compile.
pub open spec fn candidates_of(content: Seq<char>, pattern: Seq<char>) -> Option<Seq<Seq<char>>> {
    if pattern_complaint(pattern) is None {
        Some(sorted_unique(pattern_matches(pattern, content)))
    } else {
        None
    }
}

/// Whether `outcome` is what extraction from `content` with `pattern`
/// yields: the candidates, or the pattern with the complaint about it.
pub open spec fn extraction_yields(
    content: Seq<char>,
    pattern: Seq<char>,
    outcome: Result<CandidateSet, PatternError>,
) -> bool {
    match outcome {
        Ok(set) => candidates_of(content, pattern) == Some(set@),
        Err(e) => {
            &&& pattern_complaint(pattern) == Some(e.complaint@)
            &&& e.pattern@ == pattern
        },
    }
}

/// Collects the distinct pieces of `content` that match `regex_pattern`.
/// A pattern that does not compile is reported with its complaint.
pub fn extract_details(content: &str, regex_pattern: &str) -> (outcome: Result<
    CandidateSet,
    PatternError,
>)
    ensures
        extraction_yields(content@, regex_pattern@, outcome),
        outcome matches Ok(set) ==> forall|i: int|
            0 <= i < set@.len() ==> is_piece_of(#[trigger] set@[i], content@),
{
    match find_matches(regex_pattern, content) {
        Ok(found) => {
            let set = CandidateSet::from_matches(&found);
            assert forall|i: int| 0 <= i < set@.len() implies is_piece_of(
                #[trigger] set@[i],
                content@,
            ) by {
                assert(set@.contains(set@[i]));
                let k = choose|k: int|
                    0 <= k < texts(found@).len() && texts(found@)[k] == set@[i];
                assert(is_piece_of(found@[k]@, content@));
            }
            Ok(set)
        },
        Err(complaint) => Err(PatternError { pattern: regex_pattern.to_owned(), complaint }),
    }
}

/// Extraction is a function of the text and the pattern: two runs on the
/// same text with the same pattern give the same set of candidates, or fail
/// alike with the same complaint.
pub proof fn lemma_extraction_repeatable(
    content: Seq<char>,
    pattern: Seq<char>,
    first: Result<CandidateSet, PatternError>,
    second: Result<CandidateSet, PatternError>,
)
    requires
        extraction_yields(content, pattern, first),
        extraction_yields(content, pattern, second),
    ensures
        first is Ok <==> second is Ok,
        first is Ok ==> first->Ok_0@ == second->Ok_0@,
        first is Err ==> first->Err_0.pattern@ == second->Err_0.pattern@
            && first->Err_0.complaint@ == second->Err_0.complaint@,
{
}

} // verus!
