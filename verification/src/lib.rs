//! A verified core for CGI request handling: it classifies environment
//! variables into exposed headers and plain variables, decodes
//! percent-encoded query strings into name/value pairs, parses
//! `multipart/form-data` bodies into parts, and builds well-formed HTTP
//! responses.  Reading the process environment and the standard streams is
//! left to the embedding program; everything here works on plain values.

use vstd::prelude::*;
use vstd::string::StringExecFns;
use vstd::utf8::encode_utf8;

pub mod decode;
pub mod header;
pub mod multipart;
pub mod query;
pub mod request;
pub mod response;
pub mod scan;
pub mod strmap;
pub mod text;

pub use crate::multipart::MultipartPart;
pub use crate::request::Body;
pub use crate::request::Query;
pub use crate::request::BodyPlan;
pub use crate::request::BodyRead;
pub use crate::request::Request;
pub use crate::request::Vars;
pub use crate::response::EmptyResponse;
pub use crate::response::FullResponse;
pub use crate::strmap::StrMap;

verus! {

/// An error produced while assembling a request.
///
/// Each error carries a suggested outward-facing HTTP status code and
/// message, plus an inward-facing detail string for debugging.
pub struct Error {
    /// Recommended HTTP response code to use if sending an error response
    /// due to this error.
    pub code: u16,
    /// Recommended error message to return in an error response due to
    /// this error.
    pub message: String,
    /// Detailed description for inspection and logging.
    pub details: String,
}

impl Error {
    /// Build an error from its status code, message, and detail text.
    pub fn new(code: u16, message: &str, details: String) -> (r: Error)
        ensures
            r.code == code,
            r.message@ == message@,
            r.details@ == details@,
    {
        Error { code, message: String::from_str(message), details }
    }

    /// The error as one line of text: the detail string with the status
    /// code in parentheses.
    pub fn describe(&self) -> (r: String)
        ensures
            r@ == self.details@ + " ("@ + crate::text::dec_chars(self.code as int) + ")"@,
    {
        let mut s = self.details.clone();
        s.append(" (");
        crate::text::push_dec(&mut s, self.code as u64);
        s.append(")");
        s
    }

    /// Consume this error and return a response appropriate to send back
    /// to the user agent: the error's status code, a plain-text content
    /// type, and the error's message as the body.
    pub fn to_response(self) -> (r: crate::response::FullResponse)
        ensures
            r.spec_status() == self.code,
            r.spec_content_type() == "text/plain"@,
            r.spec_headers() == Seq::<(Seq<char>, Seq<char>)>::empty(),
            r.spec_body() == encode_utf8(self.message@),
    {
        crate::response::EmptyResponse::new(self.code).with_content_type(
            "text/plain",
        ).with_body(self.message.as_str().as_bytes())
    }
}

} // verus!
