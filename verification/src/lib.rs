//! Extraction of telephone numbers and e-mail addresses from the text of a
//! web page.
//!
//! A pattern finds candidates in the text ([`extract`]); they are collected
//! into a set in dictionary order ([`candidates`]). Candidates for telephone
//! numbers pass a test that drops dates, numbers with a dot and what is too
//! short or too long ([`filter`], [`date`]). A number that passed is reduced
//! to its last ten digits ([`normalize`]) and put, with an encoded message,
//! into a link ([`link`]). [`scan`] runs the two extractions of one page.

pub mod candidates;
pub mod date;
pub mod extract;
pub mod filter;
pub mod link;
pub mod normalize;
pub mod order;
pub mod scan;
pub mod text;

pub use crate::candidates::CandidateSet;
pub use crate::date::is_date;
pub use crate::extract::{extract_details, PatternError};
pub use crate::filter::{is_plausible_phone, AcceptedPhoneSet};
pub use crate::link::{message_link, message_links, MessageLink, NormalizationFailure};
pub use crate::normalize::normalize_phone;
pub use crate::scan::{scan_page, PageContacts, ScanConfig};
