//! The candidate model: what a parse proposes, never an authoritative
//! rule, and the port through which a parse is run at most once per
//! `(document_id, document_version, content_digest, parser_version)`.

use vstd::prelude::*;

use crate::text::strs;

verus! {

/// The game system every candidate belongs to.
pub const SYSTEM: &'static str = "pf2e";

#[derive(Clone, Copy, Debug, PartialEq, Eq, Structural)]
pub enum RuleType {
    Action,
    Reaction,
    FreeAction,
    Feat,
    Condition,
    Unclassified,
}

impl RuleType {
    /// The wire name of the rule type.
    pub open spec fn name(self) -> Seq<char> {
        match self {
            RuleType::Action => "action"@,
            RuleType::Reaction => "reaction"@,
            RuleType::FreeAction => "free-action"@,
            RuleType::Feat => "feat"@,
            RuleType::Condition => "condition"@,
            RuleType::Unclassified => "unclassified"@,
        }
    }

    /// The rule type a wire name denotes; anything unknown is
    /// `Unclassified`.
    pub open spec fn from_name(value: Seq<char>) -> RuleType {
        if value == "action"@ {
            RuleType::Action
        } else if value == "reaction"@ {
            RuleType::Reaction
        } else if value == "free-action"@ {
            RuleType::FreeAction
        } else if value == "feat"@ {
            RuleType::Feat
        } else if value == "condition"@ {
            RuleType::Condition
        } else {
            RuleType::Unclassified
        }
    }

    pub fn as_str(self) -> (r: &'static str)
        ensures
            r@ == self.name(),
    {
        match self {
            RuleType::Action => "action",
            RuleType::Reaction => "reaction",
            RuleType::FreeAction => "free-action",
            RuleType::Feat => "feat",
            RuleType::Condition => "condition",
            RuleType::Unclassified => "unclassified",
        }
    }

    pub fn parse(value: &str) -> (r: RuleType)
        ensures
            r == RuleType::from_name(value@),
    {
        let v = crate::text::chars_of(value);
        RuleType::parse_chars(&v)
    }

    pub(crate) fn parse_chars(v: &Vec<char>) -> (r: RuleType)
        ensures
            r == RuleType::from_name(v@),
    {
        if crate::text::same_as(v, "action") {
            RuleType::Action
        } else if crate::text::same_as(v, "reaction") {
            RuleType::Reaction
        } else if crate::text::same_as(v, "free-action") {
            RuleType::FreeAction
        } else if crate::text::same_as(v, "feat") {
            RuleType::Feat
        } else if crate::text::same_as(v, "condition") {
            RuleType::Condition
        } else {
            RuleType::Unclassified
        }
    }
}

/// Every rule type's wire name reads back as that rule type.
pub proof fn law_rule_type_name_round_trip(t: RuleType)
    ensures
        RuleType::from_name(t.name()) == t,
{
    broadcast use vstd::string::group_string_axioms;

    reveal_strlit("action");
    reveal_strlit("reaction");
    reveal_strlit("free-action");
    reveal_strlit("feat");
    reveal_strlit("condition");
    reveal_strlit("unclassified");
    assert("action"@.len() == 6);
    assert("reaction"@.len() == 8);
    assert("free-action"@.len() == 11);
    assert("feat"@.len() == 4);
    assert("condition"@.len() == 9);
    assert("unclassified"@.len() == 12);
}

/// Identifies the exact source a candidate was parsed from. The UUID of
/// the document is held as its 128-bit value.
#[derive(Clone, Debug, PartialEq, Eq)]
pub struct SourceReference {
    pub document_id: u128,
    pub document_version: i64,
    pub content_digest: [u8; 32],
    pub location: String,
    pub source_text: String,
}

pub struct SourceReferenceView {
    pub document_id: u128,
    pub document_version: i64,
    pub content_digest: Seq<u8>,
    pub location: Seq<char>,
    pub source_text: Seq<char>,
}

impl View for SourceReference {
    type V = SourceReferenceView;

    open spec fn view(&self) -> SourceReferenceView {
        SourceReferenceView {
            document_id: self.document_id,
            document_version: self.document_version,
            content_digest: self.content_digest@,
            location: self.location@,
            source_text: self.source_text@,
        }
    }
}

/// The view of an optional string.
pub open spec fn opt_view(o: Option<String>) -> Option<Seq<char>> {
    match o {
        Some(s) => Some(s@),
        None => None,
    }
}

/// A proposed, non-authoritative PF2e rule candidate. `confidence` is in
/// hundredths (90 stands for 0.90); `candidate_id` is the UUID's 128-bit
/// value.
#[derive(Clone, Debug, PartialEq)]
pub struct Candidate {
    pub candidate_id: u128,
    pub rule_type: RuleType,
    pub name: Option<String>,
    pub traits: Vec<String>,
    pub trigger: Option<String>,
    pub requirements: Vec<String>,
    pub effect: Option<String>,
    pub prerequisites: Vec<String>,
    pub references: Vec<String>,
    pub source_text: String,
    pub inferences: Vec<String>,
    pub confidence: u32,
}

pub struct CandidateView {
    pub candidate_id: u128,
    pub rule_type: RuleType,
    pub name: Option<Seq<char>>,
    pub traits: Seq<Seq<char>>,
    pub trigger: Option<Seq<char>>,
    pub requirements: Seq<Seq<char>>,
    pub effect: Option<Seq<char>>,
    pub prerequisites: Seq<Seq<char>>,
    pub references: Seq<Seq<char>>,
    pub source_text: Seq<char>,
    pub inferences: Seq<Seq<char>>,
    pub confidence: u32,
}

impl View for Candidate {
    type V = CandidateView;

    open spec fn view(&self) -> CandidateView {
        CandidateView {
            candidate_id: self.candidate_id,
            rule_type: self.rule_type,
            name: opt_view(self.name),
            traits: strs(self.traits@),
            trigger: opt_view(self.trigger),
            requirements: strs(self.requirements@),
            effect: opt_view(self.effect),
            prerequisites: strs(self.prerequisites@),
            references: strs(self.references@),
            source_text: self.source_text@,
            inferences: strs(self.inferences@),
            confidence: self.confidence,
        }
    }
}

#[derive(Clone, Debug)]
pub struct ParseOutcome {
    pub source: SourceReference,
    pub candidates: Vec<Candidate>,
    pub was_already_processed: bool,
}

#[derive(Clone, Copy, Debug, PartialEq, Eq, Structural)]
pub enum CandidateError {
    EmptySourceText,
    /// `(document_id, document_version)` was already parsed under a
    /// different `content_digest`.
    SourceDigestMismatch,
    Repository,
}

impl CandidateError {
    /// The human-readable description of the error.
    pub fn message(self) -> (r: &'static str)
        ensures
            r@ == match self {
                CandidateError::EmptySourceText => "source text must not be empty"@,
                CandidateError::SourceDigestMismatch =>
                    "this document version was already parsed under a different content digest"@,
                CandidateError::Repository => "candidate repository operation failed"@,
            },
    {
        match self {
            CandidateError::EmptySourceText => "source text must not be empty",
            CandidateError::SourceDigestMismatch =>
                "this document version was already parsed under a different content digest",
            CandidateError::Repository => "candidate repository operation failed",
        }
    }
}

/// Runs (or recognizes a prior run of) one logical parse. An
/// implementation returns the same `candidate_id`s for a second call
/// with the same `(document_id, document_version, content_digest,
/// parser_version)`.
pub trait CandidateRepository {
    fn parse_once(&self, parser_version: &str, source: SourceReference) -> Result<
        ParseOutcome,
        CandidateError,
    >;
}

} // verus!
