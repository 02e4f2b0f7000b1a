//! The error taxonomy of team discovery. Every failure aborts the whole
//! discovery call; callers branch on the variant and show its message.

use vstd::prelude::*;
use vstd::string::StringExecFns;
use crate::text::bytes_hex;
use crate::text::bytes_hex_string;
use crate::text::dec_int;
use crate::text::decimal_string;

verus! {

/// openssl's error type, carried through unread when certificate parsing fails.
#[verifier::external_type_specification]
#[verifier::external_body]
pub struct ExErrorStack(openssl::error::ErrorStack);

/// Why a discovery call failed.
#[derive(Debug)]
pub enum Error {
    /// The credential-store query could not be run or exited unsuccessfully;
    /// carries the failure's description.
    SecurityCommandFailed(String),
    /// The buffer could not be parsed as a stack of PEM-encoded certificates.
    X509ParseFailed(openssl::error::ErrorStack),
    /// A certificate's subject has no attribute of the required type; carries
    /// that attribute type's numeric identifier.
    X509FieldMissing(i32),
    /// A subject attribute's value is not valid UTF-8 text; carries the bytes
    /// that failed to decode.
    FieldNotValidUtf8(Vec<u8>),
}

/// Relies on `ErrorStack`'s `Display` rendering (through `ToString`) for the
/// human-readable form of an openssl failure.
#[verifier::external_body]
fn error_stack_message(e: &openssl::error::ErrorStack) -> String {
    e.to_string()
}

impl Error {
    /// A human-readable rendering of the error, one line per variant, the
    /// variant's context included: the command failure's description, the
    /// openssl parse failure's rendering, the missing field's identifier in
    /// decimal, or the undecodable bytes in hexadecimal.
    pub fn message(&self) -> (r: String)
        ensures
            (self matches Error::SecurityCommandFailed(m) ==> r@ == "Failed to call `security` command: "@ + m@),
            (self matches Error::X509ParseFailed(_) ==> r@.len() >= "Failed to parse X509 cert: "@.len()
                && r@.subrange(0, "Failed to parse X509 cert: "@.len() as int) == "Failed to parse X509 cert: "@),
            (self matches Error::X509FieldMissing(nid) ==> r@ == "Missing X509 field: "@ + dec_int(nid as int)),
            (self matches Error::FieldNotValidUtf8(b) ==> r@ == "Field contained invalid UTF-8: "@ + bytes_hex(b@)),
    {
        match self {
            Error::SecurityCommandFailed(m) => {
                let mut s = "Failed to call `security` command: ".to_owned();
                s.append(m.as_str());
                s
            },
            Error::X509ParseFailed(es) => {
                let mut s = "Failed to parse X509 cert: ".to_owned();
                let detail = error_stack_message(es);
                s.append(detail.as_str());
                proof {
                    let prefix = "Failed to parse X509 cert: "@;
                    assert(s@.subrange(0, prefix.len() as int) =~= prefix);
                }
                s
            },
            Error::X509FieldMissing(nid) => {
                let mut s = "Missing X509 field: ".to_owned();
                let d = decimal_string(*nid);
                s.append(d.as_str());
                s
            },
            Error::FieldNotValidUtf8(b) => {
                let mut s = "Field contained invalid UTF-8: ".to_owned();
                let hex = bytes_hex_string(b.as_slice());
                s.append(hex.as_str());
                s
            },
        }
    }
}

} // verus!
