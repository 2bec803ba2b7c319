//! One pass over the text of a page: telephone numbers and e-mail addresses.

use vstd::prelude::*;
use crate::candidates::CandidateSet;
use crate::extract::{
    candidates_of, extract_details, pattern_complaint, PatternError, DEFAULT_PHONE_REGEX,
    STANDARD_EMAIL_REGEX,
};
use crate::filter::{plausible_among, AcceptedPhoneSet};

verus! {

/// The message that is sent when the caller gives none.
pub const DEFAULT_MESSAGE: &'static str = "Hi, Batscram needs your help";

/// `given`, or `fallback` where nothing was given.
pub open spec fn or_default(given: Seq<char>, fallback: Seq<char>) -> Seq<char> {
    if given.len() == 0 {
        fallback
    } else {
        given
    }
}

/// What a scan works with: the pattern for telephone numbers and the
/// message for the links.
#[derive(Debug, Clone, PartialEq, Eq)]
pub struct ScanConfig {
    /// The pattern that finds candidates for telephone numbers.
    pub phone_pattern: String,
    /// The message that the links carry.
    pub message: String,
}

impl ScanConfig {
    /// The configuration for a pattern and a message as the caller gave
    /// them. An empty pattern stands for the default pattern, an empty
    /// message for the default message.
    pub fn new(phone_pattern: &str, message: &str) -> (config: ScanConfig)
        ensures
            config.phone_pattern@ == or_default(phone_pattern@, DEFAULT_PHONE_REGEX@),
            config.message@ == or_default(message@, DEFAULT_MESSAGE@),
    {
        let phone_pattern = if phone_pattern.is_empty() {
            DEFAULT_PHONE_REGEX.to_owned()
        } else {
            phone_pattern.to_owned()
        };
        let message = if message.is_empty() {
            DEFAULT_MESSAGE.to_owned()
        } else {
            message.to_owned()
        };
        ScanConfig { phone_pattern, message }
    }
}

/// What a scan found on a page.
#[derive(Debug)]
pub struct PageContacts {
    /// The plausible telephone numbers.
    pub phones: AcceptedPhoneSet,
    /// The e-mail addresses.
    pub emails: CandidateSet,
    /// Why the pattern for telephone numbers was refused, if it was.
    pub phone_error: Option<PatternError>,
    /// Why the pattern for e-mail addresses was refused, if it was.
    pub email_error: Option<PatternError>,
}

/// The candidates that were found; none where the pattern was refused.
pub open spec fn found_or_none(found: Option<Seq<Seq<char>>>) -> Seq<Seq<char>> {
    match found {
        Some(candidates) => candidates,
        None => Seq::<Seq<char>>::empty(),
    }
}

/// Whether `report` says what became of compiling `pattern`: nothing where
/// it compiled, else the pattern and the complaint.
pub open spec fn reports_refusal(pattern: Seq<char>, report: Option<PatternError>) -> bool {
    match report {
        None => pattern_complaint(pattern) is None,
        Some(e) => {
            &&& pattern_complaint(pattern) == Some(e.complaint@)
            &&& e.pattern@ == pattern
        },
    }
}

/// Scans the text of a page, once for telephone numbers and once for
/// e-mail addresses. A pattern that is refused gives no candidates of its
/// kind and a report; the other kind is still looked for.
pub fn scan_page(body: &str, config: &ScanConfig) -> (contacts: PageContacts)
    ensures
        contacts.phones@ == plausible_among(
            found_or_none(candidates_of(body@, config.phone_pattern@)),
        ),
        reports_refusal(config.phone_pattern@, contacts.phone_error),
        contacts.emails@ == found_or_none(candidates_of(body@, STANDARD_EMAIL_REGEX@)),
        reports_refusal(STANDARD_EMAIL_REGEX@, contacts.email_error),
{
    let (phones, phone_error) = match extract_details(body, config.phone_pattern.as_str()) {
        Ok(candidates) => (AcceptedPhoneSet::from_candidates(&candidates), None),
        Err(e) => {
            proof {
                reveal(Seq::filter);
            }
            (AcceptedPhoneSet::new(), Some(e))
        },
    };
    let (emails, email_error) = match extract_details(body, STANDARD_EMAIL_REGEX) {
        Ok(candidates) => (candidates, None),
        Err(e) => (CandidateSet::new(), Some(e)),
    };
    PageContacts { phones, emails, phone_error, email_error }
}

} // verus!
