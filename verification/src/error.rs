//! Every failure mode of the service as a specific variant.

use vstd::prelude::*;

use crate::domain::CandidateError;
use crate::text::{append, append_str, decimal, string_of, usize_text};

verus! {

/// Why a routed request's `scope` did not decode into a source reference.
#[derive(Clone, Copy, Debug, PartialEq, Eq, Structural)]
pub enum ScopeError {
    MissingSourceSeparator,
    MissingDigestSeparator,
    MissingLocationSeparator,
    MissingVersionSeparator,
    InvalidDocumentId,
    InvalidDocumentVersion,
    EmptyLocation,
    DigestNotBase64url,
    DigestWrongLength,
}

impl ScopeError {
    pub open spec fn text(self) -> Seq<char> {
        match self {
            ScopeError::MissingSourceSeparator =>
                "scope must contain '|' separating the header from source text"@,
            ScopeError::MissingDigestSeparator =>
                "scope header must contain '!' before the content digest"@,
            ScopeError::MissingLocationSeparator =>
                "scope header must contain '#' before the location"@,
            ScopeError::MissingVersionSeparator =>
                "scope header must contain '@' before the version"@,
            ScopeError::InvalidDocumentId => "document_id must be a UUID"@,
            ScopeError::InvalidDocumentVersion => "document_version must be an integer"@,
            ScopeError::EmptyLocation => "location must not be empty"@,
            ScopeError::DigestNotBase64url => "content digest must be base64url"@,
            ScopeError::DigestWrongLength => "content digest must be exactly 32 bytes"@,
        }
    }

    /// The human-readable reason.
    pub fn reason(self) -> (r: &'static str)
        ensures
            r@ == self.text(),
    {
        match self {
            ScopeError::MissingSourceSeparator =>
                "scope must contain '|' separating the header from source text",
            ScopeError::MissingDigestSeparator =>
                "scope header must contain '!' before the content digest",
            ScopeError::MissingLocationSeparator =>
                "scope header must contain '#' before the location",
            ScopeError::MissingVersionSeparator =>
                "scope header must contain '@' before the version",
            ScopeError::InvalidDocumentId => "document_id must be a UUID",
            ScopeError::InvalidDocumentVersion => "document_version must be an integer",
            ScopeError::EmptyLocation => "location must not be empty",
            ScopeError::DigestNotBase64url => "content digest must be base64url",
            ScopeError::DigestWrongLength => "content digest must be exactly 32 bytes",
        }
    }
}

/// Every failure mode of the service. Failures of the kernel client, of
/// reading a file and of the database carry their description.
#[derive(Debug)]
pub enum ParserError {
    MissingEnv(String),
    InvalidServiceId,
    Client(String),
    UnexpectedStatus(u16),
    MalformedResponse(String),
    /// `KERNEL_CA_CERT_PATH` was set but the file could not be read.
    CaCertificateUnreadable(String),
    /// `ENROLLMENT_CHALLENGE` was set but the projected ServiceAccount
    /// token file it implies (`WORKLOAD_TOKEN_PATH`) could not be read.
    EnrollmentTokenUnreadable(String),
    /// `ENROLLMENT_CHALLENGE` was not a valid base64url-encoded 32-byte
    /// value.
    InvalidEnrollmentChallenge,
    /// A routed request's `scope` did not decode into what `pf2e.parse`
    /// expects.
    MalformedScope(ScopeError),
    /// A routed request's `action` is not one this service performs.
    UnknownAction(String),
    /// The admission Request submitted to the kernel was not accepted.
    AdmissionNotAccepted(u16),
    Database(String),
    Candidate(CandidateError),
}

pub open spec fn candidate_error_text(e: CandidateError) -> Seq<char> {
    match e {
        CandidateError::EmptySourceText => "source text must not be empty"@,
        CandidateError::SourceDigestMismatch =>
            "this document version was already parsed under a different content digest"@,
        CandidateError::Repository => "candidate repository operation failed"@,
    }
}

/// The human-readable description of a `ParserError`.
pub open spec fn parser_error_text(e: &ParserError) -> Seq<char> {
    match e {
        ParserError::MissingEnv(name) => "missing required environment variable "@ + name@,
        ParserError::InvalidServiceId => "service ID must be a UUID"@,
        ParserError::Client(e) => "kernel client error: "@ + e@,
        ParserError::UnexpectedStatus(status) => "kernel returned unexpected status "@ + decimal(
            *status as nat,
        ),
        ParserError::MalformedResponse(m) => "malformed kernel response: "@ + m@,
        ParserError::CaCertificateUnreadable(e) => "could not read KERNEL_CA_CERT_PATH: "@ + e@,
        ParserError::EnrollmentTokenUnreadable(e) => "could not read WORKLOAD_TOKEN_PATH: "@
            + e@,
        ParserError::InvalidEnrollmentChallenge =>
            "ENROLLMENT_CHALLENGE is not a valid base64url 32-byte value"@,
        ParserError::MalformedScope(reason) => "malformed request scope: "@ + reason.text(),
        ParserError::UnknownAction(action) => "unknown action: "@ + action@,
        ParserError::AdmissionNotAccepted(status) =>
            "pf2e.rules.admit submission was not accepted (status "@ + decimal(*status as nat)
                + ")"@,
        ParserError::Database(e) => "parser database error: "@ + e@,
        ParserError::Candidate(error) => "parser domain error: "@ + candidate_error_text(*error),
    }
}

impl ParserError {
    /// The human-readable description of the error.
    pub fn message(&self) -> (r: String)
        ensures
            r@ == parser_error_text(self),
    {
        let mut out: Vec<char> = Vec::new();
        match self {
            ParserError::MissingEnv(name) => {
                append_str(&mut out, "missing required environment variable ");
                append_str(&mut out, name.as_str());
            },
            ParserError::InvalidServiceId => {
                append_str(&mut out, "service ID must be a UUID");
            },
            ParserError::Client(e) => {
                append_str(&mut out, "kernel client error: ");
                append_str(&mut out, e.as_str());
            },
            ParserError::UnexpectedStatus(status) => {
                append_str(&mut out, "kernel returned unexpected status ");
                let n = usize_text(*status as usize);
                append(&mut out, &n);
            },
            ParserError::MalformedResponse(m) => {
                append_str(&mut out, "malformed kernel response: ");
                append_str(&mut out, m.as_str());
            },
            ParserError::CaCertificateUnreadable(e) => {
                append_str(&mut out, "could not read KERNEL_CA_CERT_PATH: ");
                append_str(&mut out, e.as_str());
            },
            ParserError::EnrollmentTokenUnreadable(e) => {
                append_str(&mut out, "could not read WORKLOAD_TOKEN_PATH: ");
                append_str(&mut out, e.as_str());
            },
            ParserError::InvalidEnrollmentChallenge => {
                append_str(&mut out, "ENROLLMENT_CHALLENGE is not a valid base64url 32-byte value");
            },
            ParserError::MalformedScope(reason) => {
                append_str(&mut out, "malformed request scope: ");
                append_str(&mut out, reason.reason());
            },
            ParserError::UnknownAction(action) => {
                append_str(&mut out, "unknown action: ");
                append_str(&mut out, action.as_str());
            },
            ParserError::AdmissionNotAccepted(status) => {
                append_str(&mut out, "pf2e.rules.admit submission was not accepted (status ");
                let n = usize_text(*status as usize);
                append(&mut out, &n);
                append_str(&mut out, ")");
            },
            ParserError::Database(e) => {
                append_str(&mut out, "parser database error: ");
                append_str(&mut out, e.as_str());
            },
            ParserError::Candidate(error) => {
                append_str(&mut out, "parser domain error: ");
                append_str(&mut out, error.message());
            },
        }
        string_of(&out)
    }
}


impl From<CandidateError> for ParserError {
    fn from(error: CandidateError) -> (r: ParserError) {
        ParserError::Candidate(error)
    }
}

impl vstd::std_specs::convert::FromSpecImpl<CandidateError> for ParserError {
    open spec fn obeys_from_spec() -> bool {
        true
    }

    open spec fn from_spec(error: CandidateError) -> ParserError {
        ParserError::Candidate(error)
    }
}

} // verus!
