//! Links that open a chat with a telephone number, the message filled in.

use vstd::prelude::*;
use vstd::string::StringExecFns;
use vstd::utf8::encode_utf8;
use crate::filter::AcceptedPhoneSet;
use crate::normalize::{normalize_phone, normalized_phone};
use crate::text::texts;

verus! {

/// Whether form encoding leaves a byte as it is: the letters and digits of
/// ASCII and `*`, `-`, `.` and `_`.
pub open spec fn stays_unencoded(byte: u8) -> bool {
    ||| byte == 0x2A
    ||| byte == 0x2D
    ||| byte == 0x2E
    ||| 0x30 <= byte <= 0x39
    ||| 0x41 <= byte <= 0x5A
    ||| byte == 0x5F
    ||| 0x61 <= byte <= 0x7A
}

/// The hexadecimal digit for a number from 0 to 15, in upper case.
pub open spec fn hex_digit(n: int) -> char {
    seq!['0', '1', '2', '3', '4', '5', '6', '7', '8', '9', 'A', 'B', 'C', 'D', 'E', 'F'][n]
}

/// What form encoding makes of one byte: the byte itself where it stays, a
/// plus sign for a space, and otherwise a percent sign with the two
/// hexadecimal digits of the byte.
pub open spec fn encoded_byte(byte: u8) -> Seq<char> {
    if stays_unencoded(byte) {
        seq![byte as char]
    } else if byte == 0x20 {
        seq!['+']
    } else {
        seq!['%', hex_digit(byte as int / 16), hex_digit(byte as int % 16)]
    }
}

/// What form encoding makes of a run of bytes: the encodings of the bytes,
/// one after the other.
pub open spec fn form_encoded(bytes: Seq<u8>) -> Seq<char>
    decreases bytes.len(),
{
    if bytes.len() == 0 {
        Seq::<char>::empty()
    } else {
        form_encoded(bytes.drop_last()) + encoded_byte(bytes.last())
    }
}

/// Whether a character can stand in the query of a link as it is: a letter
/// or digit of ASCII, one of `*`, `-`, `.`, `_`, or one of the two signs of
/// the encoding, `+` and `%`.
pub open spec fn is_query_safe(c: char) -> bool {
    ||| c == '+'
    ||| c == '%'
    ||| c == '*'
    ||| c == '-'
    ||| c == '.'
    ||| c == '_'
    ||| '0' <= c <= '9'
    ||| 'A' <= c <= 'Z'
    ||| 'a' <= c <= 'z'
}

/// Form encoding leaves nothing behind that could end or split the query:
/// every character of an encoding is safe.
pub proof fn lemma_form_encoded_safe(bytes: Seq<u8>)
    ensures
        forall|i: int|
            0 <= i < form_encoded(bytes).len() ==> is_query_safe(#[trigger] form_encoded(bytes)[i]),
    decreases bytes.len(),
{
    if bytes.len() > 0 {
        lemma_form_encoded_safe(bytes.drop_last());
        let byte = bytes.last();
        let head = form_encoded(bytes.drop_last());
        let tail = encoded_byte(byte);
        assert forall|k: int| 0 <= k < tail.len() implies is_query_safe(#[trigger] tail[k]) by {
            if stays_unencoded(byte) {
                assert(tail[k] == byte as char);
            } else if byte != 0x20 {
                assert(0 <= byte as int / 16 < 16 && 0 <= byte as int % 16 < 16);
            }
        }
        assert forall|i: int| 0 <= i < form_encoded(bytes).len() implies is_query_safe(
            #[trigger] form_encoded(bytes)[i],
        ) by {
            if i < head.len() {
                assert(form_encoded(bytes)[i] == head[i]);
            } else {
                assert(form_encoded(bytes)[i] == tail[i - head.len()]);
            }
        }
    }
}

/// A message as it stands in the query of a link: the form encoding of its
/// UTF-8 bytes.
pub open spec fn encoded_message(message: Seq<char>) -> Seq<char> {
    form_encoded(encode_utf8(message))
}

/// The link for a normalized telephone number and an encoded message.
pub open spec fn link_text(phone: Seq<char>, encoded: Seq<char>) -> Seq<char> {
    "https://wa.me/"@ + phone + "?text="@ + encoded
}

/// `url::form_urlencoded::byte_serialize` walks over the bytes it is given
/// and yields, piece by piece, runs of bytes that stay as they are, `+` for
/// each space and `%XX` for every other byte; collected, the pieces are the
/// form encoding of the bytes. Here the bytes are those of the message.
#[verifier::external_body]
fn form_encode(message: &str) -> (encoded: String)
    ensures
        encoded@ == encoded_message(message@),
{
    url::form_urlencoded::byte_serialize(message.as_bytes()).collect()
}

/// Puts a normalized telephone number and an encoded message into a link.
pub fn format_link(phone: &str, encoded: &str) -> (link: String)
    ensures
        link@ == link_text(phone@, encoded@),
{
    let mut link = String::from_str("https://wa.me/");
    link.append(phone);
    link.append("?text=");
    link.append(encoded);
    link
}

/// A link for one telephone number.
#[derive(Debug, Clone, PartialEq, Eq)]
pub struct MessageLink {
    /// The digits of the number that the link addresses.
    pub phone: String,
    /// The link itself.
    pub url: String,
}

impl MessageLink {
    /// The link in one line, for the user.
    pub fn describe(&self) -> (line: String)
        ensures
            line@ == "WhatsApp message link for "@ + self.phone@ + ": "@ + self.url@,
    {
        let mut line = String::from_str("WhatsApp message link for ");
        line.append(self.phone.as_str());
        line.append(": ");
        line.append(self.url.as_str());
        line
    }
}

/// A candidate for which no link can be made, because it holds no digit.
#[derive(Debug, Clone, PartialEq, Eq)]
pub struct NormalizationFailure {
    /// The candidate as it was found.
    pub candidate: String,
}

impl NormalizationFailure {
    /// The failure in one line, for the user.
    pub fn describe(&self) -> (line: String)
        ensures
            line@ == "Could not generate link for '"@ + self.candidate@
                + "' (no digits found after cleaning)"@,
    {
        let mut line = String::from_str("Could not generate link for '");
        line.append(self.candidate.as_str());
        line.append("' (no digits found after cleaning)");
        line
    }
}

/// Whether `outcome` is what making a link for `candidate` with the encoded
/// message gives: the link for its normalized form, or the candidate itself
/// given back where it has no normalized form.
pub open spec fn link_outcome_of(
    candidate: Seq<char>,
    encoded: Seq<char>,
    outcome: Result<MessageLink, NormalizationFailure>,
) -> bool {
    match outcome {
        Ok(link) => {
            &&& normalized_phone(candidate) == Some(link.phone@)
            &&& link.url@ == link_text(link.phone@, encoded)
        },
        Err(failure) => {
            &&& normalized_phone(candidate) is None
            &&& failure.candidate@ == candidate
        },
    }
}

/// Makes the link for one candidate, or reports that it holds no digit.
pub fn link_for(candidate: &str, encoded: &str) -> (outcome: Result<
    MessageLink,
    NormalizationFailure,
>)
    ensures
        link_outcome_of(candidate@, encoded@, outcome),
{
    match normalize_phone(candidate) {
        Some(phone) => {
            let url = format_link(phone.as_str(), encoded);
            Ok(MessageLink { phone, url })
        },
        None => Err(NormalizationFailure { candidate: candidate.to_owned() }),
    }
}

/// Makes the link that sends `message` to one candidate, or reports that
/// the candidate holds no digit.
pub fn message_link(candidate: &str, message: &str) -> (outcome: Result<
    MessageLink,
    NormalizationFailure,
>)
    ensures
        link_outcome_of(candidate@, encoded_message(message@), outcome),
{
    let encoded = form_encode(message);
    link_for(candidate, encoded.as_str())
}

/// Makes a link for every accepted telephone number, all with the same
/// message, which is encoded once. A number without digits gets a failure
/// in its place, and the numbers after it still get their links.
pub fn message_links(phones: &AcceptedPhoneSet, message: &str) -> (outcomes: Vec<
    Result<MessageLink, NormalizationFailure>,
>)
    ensures
        outcomes@.len() == phones@.len(),
        forall|i: int|
            0 <= i < phones@.len() ==> link_outcome_of(
                phones@[i],
                encoded_message(message@),
                #[trigger] outcomes@[i],
            ),
{
    let encoded = form_encode(message);
    let items = phones.items();
    let mut outcomes: Vec<Result<MessageLink, NormalizationFailure>> = Vec::new();
    let mut i: usize = 0;
    while i < items.len()
        invariant
            i <= items.len(),
            texts(items@) == phones@,
            outcomes@.len() == i,
            forall|k: int|
                0 <= k < i ==> link_outcome_of(phones@[k], encoded@, #[trigger] outcomes@[k]),
        decreases items.len() - i,
    {
        let outcome = link_for(items[i].as_str(), encoded.as_str());
        outcomes.push(outcome);
        i += 1;
    }
    outcomes
}

} // verus!
