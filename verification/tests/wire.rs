use base64::engine::general_purpose::URL_SAFE_NO_PAD;
use base64::Engine;
use infernal_pf2e_parser_simple::dispatch::{admission_scopes, admit_scope_for, parse_input_scope, ACTIONS, PARSER_VERSION, PARSE_ACTION};
use infernal_pf2e_parser_simple::domain::{Candidate, ParseOutcome, RuleType, SourceReference};
use infernal_pf2e_parser_simple::error::{ParserError, ScopeError};
use infernal_pf2e_parser_simple::kernel_client::{
    admission_result, claims_path, complete_path, routed_request_path, seconds_to_i64,
    submission_body, subscription_needed, unix_seconds, unix_time, CREATED,
};

const DOC: &str = "67e55044-10b1-426f-9247-bb680e5fe0c8";

fn reason(scope: &str) -> ScopeError {
    match parse_input_scope(scope) {
        Err(ParserError::MalformedScope(reason)) => reason,
        other => panic!("expected a malformed scope, got {other:?}"),
    }
}

#[test]
fn a_well_formed_scope_decodes_into_its_parts() {
    let digest = [9_u8; 32];
    let scope = format!("{DOC}@-12#page 4!{}|Feat\nName: A|B", URL_SAFE_NO_PAD.encode(digest));

    let source = parse_input_scope(&scope).unwrap();

    assert_eq!(source.document_id, 0x67e55044_10b1_426f_9247_bb680e5fe0c8);
    assert_eq!(source.document_version, -12);
    assert_eq!(source.location, "page 4");
    assert_eq!(source.content_digest, digest);
    assert_eq!(source.source_text, "Feat\nName: A|B");
}

#[test]
fn every_malformed_scope_names_its_reason() {
    let digest = URL_SAFE_NO_PAD.encode([0_u8; 32]);
    assert_eq!(reason("no separators at all"), ScopeError::MissingSourceSeparator);
    assert_eq!(reason("header|text"), ScopeError::MissingDigestSeparator);
    assert_eq!(reason("header!digest|text"), ScopeError::MissingLocationSeparator);
    assert_eq!(reason("idversion#loc!digest|text"), ScopeError::MissingVersionSeparator);
    assert_eq!(reason(&format!("nope@1#p!{digest}|t")), ScopeError::InvalidDocumentId);
    assert_eq!(reason(&format!("{DOC}@one#p!{digest}|t")), ScopeError::InvalidDocumentVersion);
    assert_eq!(reason(&format!("{DOC}@ 1#p!{digest}|t")), ScopeError::InvalidDocumentVersion);
    assert_eq!(reason(&format!("{DOC}@1#!{digest}|t")), ScopeError::EmptyLocation);
    assert_eq!(reason(&format!("{DOC}@1#p!not base64|t")), ScopeError::DigestNotBase64url);
    assert_eq!(
        reason(&format!("{DOC}@1#p!{}|t", URL_SAFE_NO_PAD.encode([0_u8; 16]))),
        ScopeError::DigestWrongLength
    );
    assert_eq!(
        ScopeError::DigestWrongLength.reason(),
        "content digest must be exactly 32 bytes"
    );
}

#[test]
fn the_admission_scope_carries_identity_classification_and_provenance() {
    let source = SourceReference {
        document_id: 0x67e55044_10b1_426f_9247_bb680e5fe0c8,
        document_version: -3,
        content_digest: [0_u8; 32],
        location: "p1".to_owned(),
        source_text: "Action\nName: Stride".to_owned(),
    };
    let mut candidate = Candidate {
        candidate_id: 0x0123_4567_89ab_cdef_0123_4567_89ab_cdef,
        rule_type: RuleType::FreeAction,
        name: Some("Stride".to_owned()),
        traits: Vec::new(),
        trigger: None,
        requirements: Vec::new(),
        effect: None,
        prerequisites: Vec::new(),
        references: Vec::new(),
        source_text: "Action\nName: Stride".to_owned(),
        inferences: Vec::new(),
        confidence: 75,
    };

    assert_eq!(
        admit_scope_for(&source, &candidate),
        "01234567-89ab-cdef-0123-456789abcdef@pf2e-parser-0.1.0#free-action!0.75|67e55044-10b1-426f-9247-bb680e5fe0c8~-3~AAAAAAAAAAAAAAAAAAAAAAAAAAAAAAAAAAAAAAAAAAA~p1~Stride"
    );

    candidate.name = None;
    candidate.confidence = 20;
    assert!(admit_scope_for(&source, &candidate).ends_with("!0.20|67e55044-10b1-426f-9247-bb680e5fe0c8~-3~AAAAAAAAAAAAAAAAAAAAAAAAAAAAAAAAAAAAAAAAAAA~p1~"));
    assert_eq!(PARSER_VERSION, "pf2e-parser-0.1.0");
    assert_eq!(ACTIONS, [PARSE_ACTION]);
}

#[test]
fn one_admission_scope_is_written_per_candidate_in_order() {
    let source = SourceReference {
        document_id: 0x67e55044_10b1_426f_9247_bb680e5fe0c8,
        document_version: 2,
        content_digest: [0_u8; 32],
        location: "p9".to_owned(),
        source_text: "Feat\nName: A\n---\nFeat\nName: B".to_owned(),
    };
    let candidate = |id: u128, name: &str| Candidate {
        candidate_id: id,
        rule_type: RuleType::Feat,
        name: Some(name.to_owned()),
        traits: Vec::new(),
        trigger: None,
        requirements: Vec::new(),
        effect: None,
        prerequisites: Vec::new(),
        references: Vec::new(),
        source_text: format!("Feat\nName: {name}"),
        inferences: Vec::new(),
        confidence: 75,
    };
    let outcome = ParseOutcome {
        source: source.clone(),
        candidates: vec![candidate(1, "A"), candidate(2, "B")],
        was_already_processed: true,
    };

    let scopes = admission_scopes(&outcome);

    assert_eq!(
        scopes,
        vec![
            "00000000-0000-0000-0000-000000000001@pf2e-parser-0.1.0#feat!0.75|67e55044-10b1-426f-9247-bb680e5fe0c8~2~AAAAAAAAAAAAAAAAAAAAAAAAAAAAAAAAAAAAAAAAAAA~p9~A".to_owned(),
            "00000000-0000-0000-0000-000000000002@pf2e-parser-0.1.0#feat!0.75|67e55044-10b1-426f-9247-bb680e5fe0c8~2~AAAAAAAAAAAAAAAAAAAAAAAAAAAAAAAAAAAAAAAAAAA~p9~B".to_owned(),
        ]
    );
    let empty = ParseOutcome { source, candidates: Vec::new(), was_already_processed: false };
    assert!(admission_scopes(&empty).is_empty());
}

#[test]
fn only_a_created_submission_is_accepted() {
    assert!(admission_result(CREATED).is_ok());
    assert!(matches!(
        admission_result(503),
        Err(ParserError::AdmissionNotAccepted(503))
    ));
    assert!(matches!(
        admission_result(200),
        Err(ParserError::AdmissionNotAccepted(200))
    ));
}

#[test]
fn a_subscription_is_needed_only_when_none_is_active() {
    let active = vec!["other.event".to_owned(), "pf2e.parse".to_owned()];
    assert!(!subscription_needed(&active, "pf2e.parse"));
    assert!(subscription_needed(&active, "pf2e.parse.validate"));
    assert!(subscription_needed(&Vec::new(), "pf2e.parse"));
}

#[test]
fn request_paths_name_their_route_or_claim() {
    assert_eq!(claims_path("route-42"), "/v1/routes/route-42/claims");
    assert_eq!(routed_request_path("route-42"), "/v1/routes/route-42/request");
    assert_eq!(complete_path("claim-9"), "/v1/claims/claim-9/complete");
}

#[test]
fn the_submission_body_carries_the_action_and_scope() {
    let body = submission_body("pf2e.rules.admit", "abc");
    let value: serde_json::Value = serde_json::from_slice(&body).unwrap();
    assert_eq!(value["action"], "pf2e.rules.admit");
    assert_eq!(value["scope"], "abc");
    assert_eq!(
        value["artifact_schema_version_id"],
        "00000000-0000-0000-0000-000000000001"
    );
    assert_eq!(
        value["permission_policy_schema_version_id"],
        "00000000-0000-0000-0000-000000000002"
    );
    assert_eq!(value.as_object().unwrap().len(), 4);
}

#[test]
fn the_clock_reads_whole_seconds_and_saturates() {
    assert!(unix_time() > 1_600_000_000);
    assert_eq!(unix_seconds(None), 0);
    assert_eq!(unix_seconds(Some(42)), 42);
    assert_eq!(unix_seconds(Some(u64::MAX)), i64::MAX);
    assert_eq!(seconds_to_i64(5), 5);
    assert_eq!(seconds_to_i64(u64::MAX), i64::MAX);
}

#[test]
fn a_document_version_reads_as_an_i64_does() {
    let digest = URL_SAFE_NO_PAD.encode([1_u8; 32]);
    let version = |text: &str| parse_input_scope(&format!("{DOC}@{text}#p!{digest}|x")).map(|s| s.document_version);

    assert_eq!(version("+7").unwrap(), 7);
    assert_eq!(version("007").unwrap(), 7);
    assert_eq!(version("-9223372036854775808").unwrap(), i64::MIN);
    assert_eq!(version("9223372036854775807").unwrap(), i64::MAX);
    for bad in ["9223372036854775808", "-9223372036854775809", "", "-", "+", "1a", "--1", " 1"] {
        assert!(
            matches!(version(bad), Err(ParserError::MalformedScope(ScopeError::InvalidDocumentVersion))),
            "{bad:?}"
        );
    }
}
