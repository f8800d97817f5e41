use std::sync::Mutex;

use base64::engine::general_purpose::URL_SAFE_NO_PAD;
use base64::Engine;
use infernal_pf2e_parser_simple::dispatch::{
    admission_scopes, dispatch, dispatch_result, next_refusal, DispatchOutcome, ADMIT_ACTION,
    PARSE_ACTION,
};
use infernal_pf2e_parser_simple::domain::{
    Candidate, CandidateError, CandidateRepository, ParseOutcome, RuleType, SourceReference,
};
use infernal_pf2e_parser_simple::error::ParserError;
use infernal_pf2e_parser_simple::kernel_client::KernelPort;
use uuid::Uuid;

#[derive(Default)]
struct FakeRepository {
    result: Option<Result<ParseOutcome, CandidateError>>,
}

impl CandidateRepository for FakeRepository {
    fn parse_once(
        &self,
        _parser_version: &str,
        source: SourceReference,
    ) -> Result<ParseOutcome, CandidateError> {
        match &self.result {
            Some(Ok(outcome)) => Ok(ParseOutcome {
                source,
                candidates: outcome.candidates.clone(),
                was_already_processed: outcome.was_already_processed,
            }),
            Some(Err(error)) => Err(*error),
            None => Ok(ParseOutcome {
                source,
                candidates: vec![sample_candidate()],
                was_already_processed: false,
            }),
        }
    }
}

fn sample_candidate() -> Candidate {
    Candidate {
        candidate_id: Uuid::new_v4().as_u128(),
        rule_type: RuleType::Action,
        name: Some("Stride".to_owned()),
        traits: Vec::new(),
        trigger: None,
        requirements: Vec::new(),
        prerequisites: Vec::new(),
        effect: Some("Move.".to_owned()),
        references: Vec::new(),
        source_text: "Action\nName: Stride\nEffect: Move.".to_owned(),
        inferences: Vec::new(),
        confidence: 90,
    }
}

#[derive(Default)]
struct FakeKernel {
    submissions: Mutex<Vec<(String, String)>>,
    submission_result: Option<Result<(), ParserError>>,
}

impl KernelPort for FakeKernel {
    fn submit_request(&self, action: &str, scope: &str) -> Result<(), ParserError> {
        self.submissions
            .lock()
            .unwrap()
            .push((action.to_owned(), scope.to_owned()));
        match &self.submission_result {
            Some(Ok(())) | None => Ok(()),
            Some(Err(ParserError::AdmissionNotAccepted(status))) => {
                Err(ParserError::AdmissionNotAccepted(*status))
            }
            Some(Err(_)) => unreachable!(),
        }
    }
}

fn scope_for(document_id: Uuid, version: i64, location: &str, digest: [u8; 32], text: &str) -> String {
    format!(
        "{document_id}@{version}#{location}!{}|{text}",
        URL_SAFE_NO_PAD.encode(digest)
    )
}

#[test]
fn a_well_formed_scope_is_parsed_and_the_candidate_is_submitted_for_admission() {
    let repository = FakeRepository::default();
    let kernel = FakeKernel::default();
    let scope = scope_for(
        Uuid::new_v4(),
        1,
        "p1",
        [0; 32],
        "Action\nName: Stride\nEffect: Move.",
    );

    let outcome = dispatch(PARSE_ACTION, &scope, &repository, &kernel).unwrap();

    assert!(matches!(
        outcome,
        DispatchOutcome::Parsed {
            candidate_count: 1,
            was_already_processed: false
        }
    ));
    let submissions = kernel.submissions.lock().unwrap();
    assert_eq!(submissions.len(), 1);
    assert_eq!(submissions[0].0, ADMIT_ACTION);
    assert!(submissions[0].1.contains("Stride"));
    assert!(submissions[0].1.contains("action"));
}

#[test]
fn an_unconfirmed_admission_propagates_as_an_error() {
    let repository = FakeRepository::default();
    let kernel = FakeKernel {
        submission_result: Some(Err(ParserError::AdmissionNotAccepted(503))),
        ..FakeKernel::default()
    };
    let scope = scope_for(
        Uuid::new_v4(),
        1,
        "p1",
        [0; 32],
        "Action\nName: Stride\nEffect: Move.",
    );

    let result = dispatch(PARSE_ACTION, &scope, &repository, &kernel);

    assert!(matches!(
        result,
        Err(ParserError::AdmissionNotAccepted(503))
    ));
}

#[test]
fn a_malformed_scope_is_rejected_before_touching_the_repository_or_kernel() {
    let repository = FakeRepository::default();
    let kernel = FakeKernel::default();

    let result = dispatch(PARSE_ACTION, "not-a-valid-scope", &repository, &kernel);

    assert!(matches!(result, Err(ParserError::MalformedScope(_))));
    assert!(kernel.submissions.lock().unwrap().is_empty());
}

#[test]
fn unknown_actions_are_rejected_without_touching_the_repository() {
    let repository = FakeRepository::default();
    let kernel = FakeKernel::default();

    let result = dispatch("pf2e.parse.validate", "irrelevant", &repository, &kernel);

    match result {
        Err(ParserError::UnknownAction(action)) => assert_eq!(action, "pf2e.parse.validate"),
        other => panic!("expected UnknownAction, got {other:?}"),
    }
}

#[test]
fn a_repository_failure_is_wrapped_and_nothing_is_submitted() {
    let repository = FakeRepository {
        result: Some(Err(CandidateError::Repository)),
    };
    let kernel = FakeKernel::default();
    let scope = scope_for(Uuid::new_v4(), 1, "p1", [0; 32], "Feat\nName: A");

    let result = dispatch(PARSE_ACTION, &scope, &repository, &kernel);

    assert!(matches!(
        result,
        Err(ParserError::Candidate(CandidateError::Repository))
    ));
    assert!(kernel.submissions.lock().unwrap().is_empty());
}

#[test]
fn the_first_refused_admission_stops_the_rest() {
    let mut second = sample_candidate();
    second.name = Some("Step".to_owned());
    let repository = FakeRepository {
        result: Some(Ok(ParseOutcome {
            source: SourceReference {
                document_id: 1,
                document_version: 1,
                content_digest: [0; 32],
                location: "p1".to_owned(),
                source_text: "x".to_owned(),
            },
            candidates: vec![sample_candidate(), second],
            was_already_processed: true,
        })),
    };
    let kernel = FakeKernel {
        submission_result: Some(Err(ParserError::AdmissionNotAccepted(503))),
        ..FakeKernel::default()
    };
    let scope = scope_for(Uuid::new_v4(), 1, "p1", [0; 32], "Feat\nName: A");

    let result = dispatch(PARSE_ACTION, &scope, &repository, &kernel);

    assert!(matches!(result, Err(ParserError::AdmissionNotAccepted(503))));
    assert_eq!(kernel.submissions.lock().unwrap().len(), 1);
}

#[test]
fn every_candidate_is_submitted_in_order_and_counted() {
    let mut second = sample_candidate();
    second.name = Some("Step".to_owned());
    let source = SourceReference {
        document_id: 1,
        document_version: 1,
        content_digest: [0; 32],
        location: "p1".to_owned(),
        source_text: "x".to_owned(),
    };
    let outcome = ParseOutcome {
        source: source.clone(),
        candidates: vec![sample_candidate(), second],
        was_already_processed: true,
    };
    let repository = FakeRepository { result: Some(Ok(outcome.clone())) };
    let kernel = FakeKernel::default();
    let scope = scope_for(Uuid::from_u128(1), 1, "p1", [0; 32], "x");

    let result = dispatch(PARSE_ACTION, &scope, &repository, &kernel).unwrap();

    assert!(matches!(
        result,
        DispatchOutcome::Parsed { candidate_count: 2, was_already_processed: true }
    ));
    let submissions = kernel.submissions.lock().unwrap();
    let expected = admission_scopes(&outcome);
    assert_eq!(submissions.len(), 2);
    assert_eq!(submissions[0], (ADMIT_ACTION.to_owned(), expected[0].clone()));
    assert_eq!(submissions[1], (ADMIT_ACTION.to_owned(), expected[1].clone()));
}

#[test]
fn the_dispatch_result_follows_the_answers() {
    let outcome = ParseOutcome {
        source: SourceReference {
            document_id: 1,
            document_version: 1,
            content_digest: [0; 32],
            location: "p1".to_owned(),
            source_text: "x".to_owned(),
        },
        candidates: vec![sample_candidate()],
        was_already_processed: false,
    };
    assert!(matches!(
        dispatch_result(Err(CandidateError::SourceDigestMismatch), None),
        Err(ParserError::Candidate(CandidateError::SourceDigestMismatch))
    ));
    assert!(matches!(
        dispatch_result(Ok(outcome.clone()), Some(ParserError::AdmissionNotAccepted(500))),
        Err(ParserError::AdmissionNotAccepted(500))
    ));
    assert!(matches!(
        dispatch_result(Ok(outcome), None),
        Ok(DispatchOutcome::Parsed { candidate_count: 1, was_already_processed: false })
    ));
}

#[test]
fn an_accepted_submission_goes_on_and_a_refused_one_stops() {
    assert!(next_refusal(Ok(())).is_none());
    assert!(matches!(
        next_refusal(Err(ParserError::AdmissionNotAccepted(503))),
        Some(ParserError::AdmissionNotAccepted(503))
    ));
}
