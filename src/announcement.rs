//! One signed announcement record: JSON body, PEM certificate and base64
//! signature, separated by blank lines.

use vstd::prelude::*;
use crate::json::json_of_text;
use crate::service_info::{body_of_json, AnnouncementBody, AnnouncementBodyView, ServiceInfoParseError};
use crate::text::{chars_of, pieces_view, split_chars, split_on, string_of};

verus! {

#[derive(Debug)]
pub enum AnnouncementParseError {
    MissingJson,
    MissingCertificate,
    MissingSignature,
    TooManyParts,
    ServiceInfoParseError(ServiceInfoParseError),
    ExpectedJsonArray,
}

/// A decoded announcement, with the certificate and signature that vouch for it.
#[derive(Debug)]
pub struct AnnouncementPacket {
    pub body: AnnouncementBody,
    pub certificate: String,
    pub signature: String,
}

pub open spec fn blank_line() -> Seq<char> {
    seq!['\n', '\n']
}

/// The parts of a record between blank lines.
pub open spec fn record_parts(text: Seq<char>) -> Seq<Seq<char>> {
    split_on(text, blank_line())
}

/// The body of a record, when it decodes.
pub open spec fn record_body(text: Seq<char>) -> Option<AnnouncementBodyView> {
    let parts = record_parts(text);
    if parts.len() != 3 {
        None
    } else {
        match json_of_text(parts[0]) {
            None => None,
            Some(j) => match body_of_json(j) {
                Err(_) => None,
                Ok(b) => Some(b),
            },
        }
    }
}

/// How many actions a record announces, when it decodes.
pub open spec fn record_actions(text: Seq<char>) -> Option<nat> {
    let parts = record_parts(text);
    if parts.len() != 3 {
        None
    } else {
        match json_of_text(parts[0]) {
            None => None,
            Some(j) => match body_of_json(j) {
                Err(_) => None,
                Ok(b) => Some(b.actions.len()),
            },
        }
    }
}

impl AnnouncementPacket {
    /// Splits a record at blank lines into body, certificate and signature,
    /// and decodes the body.
    pub fn parse(v: &str) -> (r: Result<AnnouncementPacket, AnnouncementParseError>)
        ensures
            record_parts(v@).len() == 1 ==> r matches Err(AnnouncementParseError::MissingCertificate),
            record_parts(v@).len() == 2 ==> r matches Err(AnnouncementParseError::MissingSignature),
            record_parts(v@).len() > 3 ==> r matches Err(AnnouncementParseError::TooManyParts),
            record_parts(v@).len() == 3 ==> match json_of_text(record_parts(v@)[0]) {
                None => r matches Err(AnnouncementParseError::ServiceInfoParseError(ServiceInfoParseError::JsonError(_))),
                Some(j) => match body_of_json(j) {
                    Err(e) => r == Err::<AnnouncementPacket, AnnouncementParseError>(AnnouncementParseError::ServiceInfoParseError(e)),
                    Ok(b) => r matches Ok(p) && p.body@ == b && p.certificate@ == record_parts(v@)[1]
                        && p.signature@ == record_parts(v@)[2],
                },
            },
    {
        let cs = chars_of(v);
        let delim: [char; 2] = ['\n', '\n'];
        assert(delim@ =~= blank_line());
        let parts = split_chars(&cs, delim.as_slice());
        proof {
            lemma_split_nonempty(v@, blank_line());
        }
        if parts.len() == 1 {
            return Err(AnnouncementParseError::MissingCertificate);
        }
        if parts.len() == 2 {
            return Err(AnnouncementParseError::MissingSignature);
        }
        if parts.len() > 3 {
            return Err(AnnouncementParseError::TooManyParts);
        }
        assert(pieces_view(parts@)[0] == parts@[0]@);
        assert(pieces_view(parts@)[1] == parts@[1]@);
        assert(pieces_view(parts@)[2] == parts@[2]@);
        let json = string_of(parts[0].as_slice());
        let body = match AnnouncementBody::parse(json.as_str()) {
            Ok(b) => b,
            Err(e) => {
                return Err(AnnouncementParseError::ServiceInfoParseError(e));
            },
        };
        Ok(
            AnnouncementPacket {
                body,
                certificate: string_of(parts[1].as_slice()),
                signature: string_of(parts[2].as_slice()),
            },
        )
    }

    /// Whether the signature vouches for the body. No certificate check is
    /// available here, so every announcement is taken as authorized; callers
    /// that can check signatures hand their own outcome to
    /// `ServiceRegistry::insert_announcement`.
    pub fn signature_is_valid(&self) -> (r: bool)
        ensures
            r,
    {
        true
    }
}

proof fn lemma_split_nonempty(s: Seq<char>, d: Seq<char>)
    ensures
        split_on(s, d).len() >= 1,
    decreases s.len(),
{
    let i = crate::text::find_seq(s, d, 0);
    if !(d.len() == 0 || i < 0 || i + d.len() > s.len()) {
        lemma_split_nonempty(s.subrange(i + d.len(), s.len() as int), d);
    }
}

} // verus!
