//! Interprets a routed `pf2e.parse` Request and hands each resulting
//! candidate on through a governed `pf2e.rules.admit` Request.
//!
//! The kernel's Request carries only an `action` and a `scope` string, so
//! both hops put their payload in the scope:
//!
//! - input (`pf2e.parse`):
//!   `<document_id>@<document_version>#<location>!<content_digest_b64url>|<source_text>`
//! - output (`pf2e.rules.admit`):
//!   `<candidate_id>@<parser_version>#<rule_type>!<confidence>|<document_id>~<document_version>~<digest_b64>~<location>~<name>`

use vstd::prelude::*;

use crate::domain::{
    Candidate, CandidateError, CandidateRepository, CandidateView, ParseOutcome, SourceReference,
    SourceReferenceView,
};
use crate::encoding::{base64url_bytes, base64url_text, decode_base64url, encode_digest};
use crate::error::{ParserError, ScopeError};
use crate::ids::{hyphenated, parse_uuid, uuid_text, uuid_value};
use crate::kernel_client::KernelPort;
use crate::text::{
    append, append_str, chars_of, decimal, digit_char, i64_text, i64_value, parse_i64,
    signed_decimal, split_once, split_once_of, string_of, usize_text,
};

verus! {

pub const PARSE_ACTION: &'static str = "pf2e.parse";

pub const ADMIT_ACTION: &'static str = "pf2e.rules.admit";

/// Every action this service subscribes to and performs.
pub const ACTIONS: [&'static str; 1] = ["pf2e.parse"];

/// The parser version recorded with every parse run.
pub const PARSER_VERSION: &'static str = "pf2e-parser-0.1.0";

#[derive(Debug)]
pub enum DispatchOutcome {
    Parsed { candidate_count: usize, was_already_processed: bool },
}

/// The source reference a `pf2e.parse` scope carries, or why it does not
/// decode.
pub open spec fn scope_source(scope: Seq<char>) -> Result<SourceReferenceView, ScopeError> {
    match split_once(scope, '|') {
        None => Err(ScopeError::MissingSourceSeparator),
        Some((header, source_text)) => match split_once(header, '!') {
            None => Err(ScopeError::MissingDigestSeparator),
            Some((id_version_location, digest)) => match split_once(id_version_location, '#') {
                None => Err(ScopeError::MissingLocationSeparator),
                Some((id_version, location)) => match split_once(id_version, '@') {
                    None => Err(ScopeError::MissingVersionSeparator),
                    Some((id, version)) => match uuid_value(id) {
                        None => Err(ScopeError::InvalidDocumentId),
                        Some(document_id) => match i64_value(version) {
                            None => Err(ScopeError::InvalidDocumentVersion),
                            Some(document_version) => if location.len() == 0 {
                                Err(ScopeError::EmptyLocation)
                            } else {
                                match base64url_bytes(digest) {
                                    None => Err(ScopeError::DigestNotBase64url),
                                    Some(bytes) => if bytes.len() != 32 {
                                        Err(ScopeError::DigestWrongLength)
                                    } else {
                                        Ok(
                                            SourceReferenceView {
                                                document_id,
                                                document_version,
                                                content_digest: bytes,
                                                location,
                                                source_text,
                                            },
                                        )
                                    },
                                }
                            },
                        },
                    },
                },
            },
        },
    }
}

fn decode_digest(value: &Vec<char>) -> (r: Result<[u8; 32], ScopeError>)
    ensures
        r matches Ok(d) ==> base64url_bytes(value@) == Some(d@),
        r matches Err(e) ==> (base64url_bytes(value@) is None && e == ScopeError::DigestNotBase64url)
            || (base64url_bytes(value@) matches Some(b) && b.len() != 32 && e
            == ScopeError::DigestWrongLength),
{
    let bytes = match decode_base64url(value) {
        Some(b) => b,
        None => return Err(ScopeError::DigestNotBase64url),
    };
    if bytes.len() != 32 {
        return Err(ScopeError::DigestWrongLength);
    }
    let mut digest: [u8; 32] = [0u8; 32];
    let mut i: usize = 0;
    while i < 32
        invariant
            i <= 32,
            bytes.len() == 32,
            forall|k: int| 0 <= k < i ==> digest@[k] == bytes@[k],
        decreases 32 - i,
    {
        digest[i] = bytes[i];
        i = i + 1;
    }
    assert(digest@ =~= bytes@);
    Ok(digest)
}

/// Decodes a `pf2e.parse` scope into the source reference it carries.
pub fn parse_input_scope(scope: &str) -> (r: Result<SourceReference, ParserError>)
    ensures
        match scope_source(scope@) {
            Ok(v) => (r matches Ok(s) && s@ == v),
            Err(e) => (r matches Err(ParserError::MalformedScope(f)) && f == e),
        },
{
    let s = chars_of(scope);
    let (header, source_text) = match split_once_of(&s, '|') {
        Some(p) => p,
        None => return Err(ParserError::MalformedScope(ScopeError::MissingSourceSeparator)),
    };
    let (id_version_location, digest) = match split_once_of(&header, '!') {
        Some(p) => p,
        None => return Err(ParserError::MalformedScope(ScopeError::MissingDigestSeparator)),
    };
    let (id_version, location) = match split_once_of(&id_version_location, '#') {
        Some(p) => p,
        None => return Err(ParserError::MalformedScope(ScopeError::MissingLocationSeparator)),
    };
    let (id, version) = match split_once_of(&id_version, '@') {
        Some(p) => p,
        None => return Err(ParserError::MalformedScope(ScopeError::MissingVersionSeparator)),
    };
    let document_id = match parse_uuid(&id) {
        Some(v) => v,
        None => return Err(ParserError::MalformedScope(ScopeError::InvalidDocumentId)),
    };
    let document_version = match parse_i64(&version) {
        Some(v) => v,
        None => return Err(ParserError::MalformedScope(ScopeError::InvalidDocumentVersion)),
    };
    if location.len() == 0 {
        return Err(ParserError::MalformedScope(ScopeError::EmptyLocation));
    }
    let content_digest = match decode_digest(&digest) {
        Ok(d) => d,
        Err(e) => return Err(ParserError::MalformedScope(e)),
    };
    Ok(
        SourceReference {
            document_id,
            document_version,
            content_digest,
            location: string_of(&location),
            source_text: string_of(&source_text),
        },
    )
}

/// The wire shape of a `pf2e.parse` scope: a scope written as
/// `<document_id>@<document_version>#<location>!<digest>|<source_text>`
/// decodes to exactly those parts, whenever the identifier and version
/// read as such, the digest decodes to 32 bytes, and no part before the
/// source text holds a separator that ends it early.
pub proof fn law_scope_wire_shape(
    id_text: Seq<char>,
    document_id: u128,
    version_text: Seq<char>,
    document_version: i64,
    location: Seq<char>,
    digest_text: Seq<char>,
    digest: Seq<u8>,
    source_text: Seq<char>,
)
    requires
        uuid_value(id_text) == Some(document_id),
        i64_value(version_text) == Some(document_version),
        base64url_bytes(digest_text) == Some(digest),
        digest.len() == 32,
        location.len() > 0,
        !id_text.contains('@') && !id_text.contains('#') && !id_text.contains('!')
            && !id_text.contains('|'),
        !version_text.contains('#') && !version_text.contains('!') && !version_text.contains('|'),
        !location.contains('!') && !location.contains('|'),
        !digest_text.contains('|'),
    ensures
        scope_source(
            id_text + seq!['@'] + version_text + seq!['#'] + location + seq!['!'] + digest_text
                + seq!['|'] + source_text,
        ) == Ok::<SourceReferenceView, ScopeError>(
            SourceReferenceView {
                document_id,
                document_version,
                content_digest: digest,
                location,
                source_text,
            },
        ),
{
    let iv = id_text + seq!['@'] + version_text;
    let ivl = iv + seq!['#'] + location;
    let header = ivl + seq!['!'] + digest_text;
    let scope = header + seq!['|'] + source_text;
    assert(scope =~= id_text + seq!['@'] + version_text + seq!['#'] + location + seq!['!']
        + digest_text + seq!['|'] + source_text);
    assert(!header.contains('|')) by {
        if header.contains('|') {
            let k = choose|k: int| 0 <= k < header.len() && header[k] == '|';
            if k < ivl.len() {
                if k < iv.len() {
                    if k < id_text.len() {
                        assert(id_text[k] == '|');
                    } else if k > id_text.len() {
                        assert(version_text[k - id_text.len() - 1] == '|');
                    }
                } else if k > iv.len() {
                    assert(location[k - iv.len() - 1] == '|');
                }
            } else if k > ivl.len() {
                assert(digest_text[k - ivl.len() - 1] == '|');
            }
        }
    }
    crate::text::lemma_split_once_concat(header, '|', source_text);
    assert(!ivl.contains('!')) by {
        if ivl.contains('!') {
            let k = choose|k: int| 0 <= k < ivl.len() && ivl[k] == '!';
            if k < iv.len() {
                if k < id_text.len() {
                    assert(id_text[k] == '!');
                } else if k > id_text.len() {
                    assert(version_text[k - id_text.len() - 1] == '!');
                }
            } else if k > iv.len() {
                assert(location[k - iv.len() - 1] == '!');
            }
        }
    }
    crate::text::lemma_split_once_concat(ivl, '!', digest_text);
    assert(!iv.contains('#')) by {
        if iv.contains('#') {
            let k = choose|k: int| 0 <= k < iv.len() && iv[k] == '#';
            if k < id_text.len() {
                assert(id_text[k] == '#');
            } else if k > id_text.len() {
                assert(version_text[k - id_text.len() - 1] == '#');
            }
        }
    }
    crate::text::lemma_split_once_concat(iv, '#', location);
    crate::text::lemma_split_once_concat(id_text, '@', version_text);
}

/// A confidence in hundredths written with two decimals (`90` as `0.90`).
pub open spec fn confidence_text(hundredths: nat) -> Seq<char> {
    decimal(hundredths / 100) + seq!['.', digit_char((hundredths % 100) / 10), digit_char(
        hundredths % 10,
    )]
}

/// The scope of the `pf2e.rules.admit` Request for one candidate.
pub open spec fn admit_scope(source: SourceReferenceView, candidate: CandidateView) -> Seq<char> {
    hyphenated(candidate.candidate_id) + "@"@ + PARSER_VERSION@ + "#"@ + candidate.rule_type.name()
        + "!"@ + confidence_text(candidate.confidence as nat) + "|"@ + hyphenated(
        source.document_id,
    ) + "~"@ + signed_decimal(source.document_version as int) + "~"@ + base64url_text(
        source.content_digest,
    ) + "~"@ + source.location + "~"@ + match candidate.name {
        Some(n) => n,
        None => seq![],
    }
}

/// Builds the scope of the `pf2e.rules.admit` Request for one candidate.
pub fn admit_scope_for(source: &SourceReference, candidate: &Candidate) -> (r: String)
    ensures
        r@ == admit_scope(source@, candidate@),
{
    let mut out = uuid_text(candidate.candidate_id);
    append_str(&mut out, "@");
    append_str(&mut out, PARSER_VERSION);
    append_str(&mut out, "#");
    append_str(&mut out, candidate.rule_type.as_str());
    append_str(&mut out, "!");
    let whole = usize_text((candidate.confidence / 100) as usize);
    append(&mut out, &whole);
    let tenths: u32 = (candidate.confidence % 100) / 10;
    let hundredths: u32 = candidate.confidence % 10;
    let frac = vec!['.', char_of_digit(tenths), char_of_digit(hundredths)];
    append(&mut out, &frac);
    append_str(&mut out, "|");
    let id = uuid_text(source.document_id);
    append(&mut out, &id);
    append_str(&mut out, "~");
    let version = i64_text(source.document_version);
    append(&mut out, &version);
    append_str(&mut out, "~");
    let digest = encode_digest(&source.content_digest);
    append(&mut out, &digest);
    append_str(&mut out, "~");
    append_str(&mut out, source.location.as_str());
    append_str(&mut out, "~");
    match &candidate.name {
        Some(n) => append_str(&mut out, n.as_str()),
        None => {},
    }
    assert(out@ =~= admit_scope(source@, candidate@));
    string_of(&out)
}

/// The scopes of the `pf2e.rules.admit` Requests that hand on the
/// candidates of one parse run, one per candidate and in its order.
pub fn admission_scopes(outcome: &ParseOutcome) -> (r: Vec<String>)
    ensures
        r.len() == outcome.candidates.len(),
        forall|i: int|
            0 <= i < r.len() ==> #[trigger] r[i]@ == admit_scope(
                outcome.source@,
                outcome.candidates[i]@,
            ),
{
    let mut out: Vec<String> = Vec::new();
    let mut i: usize = 0;
    while i < outcome.candidates.len()
        invariant
            i <= outcome.candidates.len(),
            out.len() == i,
            forall|k: int|
                0 <= k < i ==> #[trigger] out[k]@ == admit_scope(
                    outcome.source@,
                    outcome.candidates[k]@,
                ),
        decreases outcome.candidates.len() - i,
    {
        out.push(admit_scope_for(&outcome.source, &outcome.candidates[i]));
        i = i + 1;
    }
    out
}

fn char_of_digit(d: u32) -> (c: char)
    requires
        d < 10,
    ensures
        c == digit_char(d as nat),
{
    if d == 0 {
        '0'
    } else if d == 1 {
        '1'
    } else if d == 2 {
        '2'
    } else if d == 3 {
        '3'
    } else if d == 4 {
        '4'
    } else if d == 5 {
        '5'
    } else if d == 6 {
        '6'
    } else if d == 7 {
        '7'
    } else if d == 8 {
        '8'
    } else {
        '9'
    }
}

/// What a `pf2e.parse` Request comes to, given what the repository
/// answered and the first submission the kernel did not accept (if any):
/// a repository error as `ParserError::Candidate`, else the refused
/// submission's error, else the parse's candidate count and whether it
/// was already processed.
pub fn dispatch_result(
    parsed: Result<ParseOutcome, CandidateError>,
    first_refusal: Option<ParserError>,
) -> (r: Result<DispatchOutcome, ParserError>)
    ensures
        match parsed {
            Err(e) => r == Err::<DispatchOutcome, ParserError>(ParserError::Candidate(e)),
            Ok(o) => match first_refusal {
                Some(e) => r == Err::<DispatchOutcome, ParserError>(e),
                None => r == Ok::<DispatchOutcome, ParserError>(
                    DispatchOutcome::Parsed {
                        candidate_count: o.candidates.len(),
                        was_already_processed: o.was_already_processed,
                    },
                ),
            },
        },
{
    match parsed {
        Err(e) => Err(ParserError::Candidate(e)),
        Ok(o) => match first_refusal {
            Some(e) => Err(e),
            None => Ok(
                DispatchOutcome::Parsed {
                    candidate_count: o.candidates.len(),
                    was_already_processed: o.was_already_processed,
                },
            ),
        },
    }
}

/// What the admission loop makes of one kernel answer: the refusal it
/// stops on, or none when the submission was accepted and it goes on.
pub fn next_refusal(answer: Result<(), ParserError>) -> (r: Option<ParserError>)
    ensures
        match answer {
            Ok(()) => r is None,
            Err(e) => r == Some(e),
        },
{
    match answer {
        Ok(()) => None,
        Err(e) => Some(e),
    }
}

/// Interprets a routed Request: for `pf2e.parse`, decodes its scope, runs
/// the parse once through `repository`, and submits a `pf2e.rules.admit`
/// Request per candidate (the scopes `admission_scopes` writes, in
/// order) through `kernel`, stopping at the first one not accepted. The
/// result is `dispatch_result` of the repository's answer and that
/// refusal.
pub fn dispatch<R: CandidateRepository, K: KernelPort>(
    action: &str,
    scope: &str,
    repository: &R,
    kernel: &K,
) -> (r: Result<DispatchOutcome, ParserError>)
    ensures
        action@ != PARSE_ACTION@ ==> (r matches Err(ParserError::UnknownAction(a)) && a@
            == action@),
        action@ == PARSE_ACTION@ ==> (scope_source(scope@) matches Err(e) ==> (r matches Err(
            ParserError::MalformedScope(f),
        ) && f == e)),
        r is Ok ==> action@ == PARSE_ACTION@ && scope_source(scope@) is Ok,
{
    let a = chars_of(action);
    if !crate::text::same_as(&a, PARSE_ACTION) {
        return Err(ParserError::UnknownAction(string_of(&a)));
    }
    let source = parse_input_scope(scope)?;
    let parsed = repository.parse_once(PARSER_VERSION, source);
    let outcome = match parsed {
        Ok(o) => o,
        Err(e) => return dispatch_result(Err(e), None),
    };
    let scopes = admission_scopes(&outcome);
    let mut refusal: Option<ParserError> = None;
    let mut i: usize = 0;
    while i < scopes.len()
        invariant_except_break
            i <= scopes.len(),
            refusal is None,
        invariant
            action@ == PARSE_ACTION@,
            scope_source(scope@) is Ok,
        ensures
            refusal is None ==> i == scopes.len(),
        decreases scopes.len() - i,
    {
        let answer = kernel.submit_request(ADMIT_ACTION, scopes[i].as_str());
        refusal = next_refusal(answer);
        if refusal.is_some() {
            break;
        }
        i = i + 1;
    }
    dispatch_result(Ok(outcome), refusal)
}

} // verus!
