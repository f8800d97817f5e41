use infernal_pf2e_parser_simple::domain::{CandidateError, RuleType, SYSTEM};
use infernal_pf2e_parser_simple::error::{ParserError, ScopeError};

const ALL: [RuleType; 6] = [
    RuleType::Action,
    RuleType::Reaction,
    RuleType::FreeAction,
    RuleType::Feat,
    RuleType::Condition,
    RuleType::Unclassified,
];

#[test]
fn every_rule_type_reads_back_from_its_wire_name() {
    for rule_type in ALL {
        assert_eq!(RuleType::parse(rule_type.as_str()), rule_type);
    }
}

#[test]
fn rule_type_wire_names_are_the_documented_ones() {
    let names: Vec<&str> = ALL.iter().map(|t| t.as_str()).collect();
    assert_eq!(
        names,
        vec!["action", "reaction", "free-action", "feat", "condition", "unclassified"]
    );
    assert_eq!(SYSTEM, "pf2e");
}

#[test]
fn an_unknown_or_differently_cased_rule_type_is_unclassified() {
    assert_eq!(RuleType::parse("spell"), RuleType::Unclassified);
    assert_eq!(RuleType::parse("Action"), RuleType::Unclassified);
    assert_eq!(RuleType::parse(""), RuleType::Unclassified);
}

#[test]
fn candidate_errors_describe_themselves() {
    assert_eq!(CandidateError::EmptySourceText.message(), "source text must not be empty");
    assert_eq!(
        CandidateError::SourceDigestMismatch.message(),
        "this document version was already parsed under a different content digest"
    );
    assert_eq!(
        CandidateError::Repository.message(),
        "candidate repository operation failed"
    );
}

#[test]
fn parser_errors_describe_themselves() {
    assert_eq!(
        ParserError::MissingEnv("KERNEL_AUTHORITY".to_owned()).message(),
        "missing required environment variable KERNEL_AUTHORITY"
    );
    assert_eq!(ParserError::InvalidServiceId.message(), "service ID must be a UUID");
    assert_eq!(
        ParserError::UnexpectedStatus(418).message(),
        "kernel returned unexpected status 418"
    );
    assert_eq!(
        ParserError::MalformedResponse("no body".to_owned()).message(),
        "malformed kernel response: no body"
    );
    assert_eq!(
        ParserError::InvalidEnrollmentChallenge.message(),
        "ENROLLMENT_CHALLENGE is not a valid base64url 32-byte value"
    );
    assert_eq!(
        ParserError::MalformedScope(ScopeError::EmptyLocation).message(),
        "malformed request scope: location must not be empty"
    );
    assert_eq!(
        ParserError::UnknownAction("x.y".to_owned()).message(),
        "unknown action: x.y"
    );
    assert_eq!(
        ParserError::AdmissionNotAccepted(503).message(),
        "pf2e.rules.admit submission was not accepted (status 503)"
    );
    assert_eq!(
        ParserError::Candidate(CandidateError::Repository).message(),
        "parser domain error: candidate repository operation failed"
    );
    assert!(matches!(
        ParserError::from(CandidateError::EmptySourceText),
        ParserError::Candidate(CandidateError::EmptySourceText)
    ));
}

#[test]
fn outside_failures_are_described_with_their_own_text() {
    assert_eq!(
        ParserError::Client("timed out".to_owned()).message(),
        "kernel client error: timed out"
    );
    assert_eq!(
        ParserError::CaCertificateUnreadable("no such file".to_owned()).message(),
        "could not read KERNEL_CA_CERT_PATH: no such file"
    );
    assert_eq!(
        ParserError::EnrollmentTokenUnreadable("denied".to_owned()).message(),
        "could not read WORKLOAD_TOKEN_PATH: denied"
    );
    assert_eq!(
        ParserError::Database("gone".to_owned()).message(),
        "parser database error: gone"
    );
}
