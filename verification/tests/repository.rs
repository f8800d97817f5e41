use std::cell::RefCell;
use std::rc::Rc;

use infernal_pf2e_parser_simple::domain::{
    Candidate, CandidateError, CandidateRepository, RuleType, SourceReference,
};
use infernal_pf2e_parser_simple::postgres_candidate_repository::{
    candidate_from_row, candidate_row, decode_string_list, encode_string_list,
    other_digest_recorded, parse_once_in, run_key_of, PostgresCandidateRepository, RunDatabase,
    RunKey, RunTransaction, StoreFailure,
};
use uuid::Uuid;

type Key = (u128, i64, [u8; 32], String);

#[derive(Default)]
struct Tables {
    runs: Vec<(Key, u128)>,
    candidates: Vec<(Key, Candidate)>,
    commits: u32,
}

#[derive(Clone, Default)]
struct MemoryDatabase {
    tables: Rc<RefCell<Tables>>,
    fail_transactions: bool,
    fail_candidate_writes: bool,
}

struct MemoryTransaction {
    tables: Rc<RefCell<Tables>>,
    runs: Vec<(Key, u128)>,
    candidates: Vec<(Key, Candidate)>,
    fail_candidate_writes: bool,
}

fn key_of(key: &RunKey) -> Key {
    (
        key.document_id,
        key.document_version,
        key.content_digest,
        key.parser_version.clone(),
    )
}

impl RunTransaction for MemoryTransaction {
    fn recorded_digests(
        &mut self,
        document_id: u128,
        document_version: i64,
    ) -> Result<Vec<Vec<u8>>, StoreFailure> {
        let tables = self.tables.borrow();
        let mut digests: Vec<Vec<u8>> = Vec::new();
        for (key, _) in tables.runs.iter().chain(self.runs.iter()) {
            if key.0 == document_id && key.1 == document_version && !digests.contains(&key.2.to_vec()) {
                digests.push(key.2.to_vec());
            }
        }
        Ok(digests)
    }

    fn run_recorded(&mut self, key: &RunKey) -> Result<bool, StoreFailure> {
        let wanted = key_of(key);
        let tables = self.tables.borrow();
        Ok(tables.runs.iter().chain(self.runs.iter()).any(|(k, _)| *k == wanted))
    }

    fn recorded_candidates(&mut self, key: &RunKey) -> Result<Vec<Candidate>, StoreFailure> {
        let wanted = key_of(key);
        let tables = self.tables.borrow();
        Ok(tables
            .candidates
            .iter()
            .chain(self.candidates.iter())
            .filter(|(k, _)| *k == wanted)
            .map(|(_, c)| c.clone())
            .collect())
    }

    fn record_run(&mut self, key: &RunKey, request_id: u128) -> Result<u64, StoreFailure> {
        if self.run_recorded(key)? {
            return Ok(0);
        }
        self.runs.push((key_of(key), request_id));
        Ok(1)
    }

    fn record_candidate(&mut self, key: &RunKey, candidate: &Candidate) -> Result<(), StoreFailure> {
        if self.fail_candidate_writes {
            return Err(StoreFailure);
        }
        self.candidates.push((key_of(key), candidate.clone()));
        Ok(())
    }

    fn commit(self) -> Result<(), StoreFailure> {
        let mut tables = self.tables.borrow_mut();
        tables.runs.extend(self.runs);
        tables.candidates.extend(self.candidates);
        tables.commits += 1;
        Ok(())
    }
}

impl RunDatabase for MemoryDatabase {
    type Transaction = MemoryTransaction;

    fn transaction(&self) -> Result<MemoryTransaction, StoreFailure> {
        if self.fail_transactions {
            return Err(StoreFailure);
        }
        Ok(MemoryTransaction {
            tables: Rc::clone(&self.tables),
            runs: Vec::new(),
            candidates: Vec::new(),
            fail_candidate_writes: self.fail_candidate_writes,
        })
    }
}

fn source(document_id: u128, version: i64, digest: [u8; 32], text: &str) -> SourceReference {
    SourceReference {
        document_id,
        document_version: version,
        content_digest: digest,
        location: "p1".to_owned(),
        source_text: text.to_owned(),
    }
}

const PARSER_VERSION: &str = "pf2e-parser-test";

#[test]
fn a_new_parse_persists_candidates_with_a_stable_id() {
    let repository = PostgresCandidateRepository::new(MemoryDatabase::default());
    let document_id = Uuid::new_v4().as_u128();

    let outcome = repository
        .parse_once(PARSER_VERSION, source(document_id, 1, [1_u8; 32], "Action\nName: Stride\nEffect: Move."))
        .unwrap();

    assert!(!outcome.was_already_processed);
    assert_eq!(outcome.candidates.len(), 1);
    assert_eq!(outcome.candidates[0].name.as_deref(), Some("Stride"));
    let tables = repository.database().tables.borrow();
    assert_eq!(tables.runs.len(), 1);
    assert_eq!(tables.candidates.len(), 1);
    assert_eq!(tables.commits, 1);
}

#[test]
fn repeated_parsing_of_the_same_source_and_parser_version_reuses_the_same_candidate_id() {
    let repository = PostgresCandidateRepository::new(MemoryDatabase::default());
    let document_id = Uuid::new_v4().as_u128();
    let text = "Feat\nName: Toughness\nEffect: More HP.";

    let first = repository
        .parse_once(PARSER_VERSION, source(document_id, 1, [2_u8; 32], text))
        .unwrap();
    let retried = repository
        .parse_once(PARSER_VERSION, source(document_id, 1, [2_u8; 32], text))
        .unwrap();

    assert!(retried.was_already_processed);
    assert_eq!(retried.candidates, first.candidates);
    assert_eq!(
        retried.candidates[0].candidate_id,
        first.candidates[0].candidate_id
    );
}

#[test]
fn a_new_parser_version_over_the_same_source_produces_a_new_candidate_id() {
    let repository = PostgresCandidateRepository::new(MemoryDatabase::default());
    let document_id = Uuid::new_v4().as_u128();
    let text = "Condition\nName: Prone\nEffect: Flat-footed.";

    let v1 = repository
        .parse_once("pf2e-parser-v1", source(document_id, 1, [3_u8; 32], text))
        .unwrap();
    let v2 = repository
        .parse_once("pf2e-parser-v2", source(document_id, 1, [3_u8; 32], text))
        .unwrap();

    assert!(!v2.was_already_processed);
    assert_ne!(v2.candidates[0].candidate_id, v1.candidates[0].candidate_id);
}

#[test]
fn the_same_document_version_with_a_different_digest_is_rejected_as_a_mismatch() {
    let repository = PostgresCandidateRepository::new(MemoryDatabase::default());
    let document_id = Uuid::new_v4().as_u128();
    let text = "Feat\nName: Something\nEffect: Anything.";

    repository
        .parse_once(PARSER_VERSION, source(document_id, 1, [5_u8; 32], text))
        .unwrap();
    let result = repository.parse_once(PARSER_VERSION, source(document_id, 1, [6_u8; 32], text));

    assert!(matches!(result, Err(CandidateError::SourceDigestMismatch)));
    let next_version = repository.parse_once(PARSER_VERSION, source(document_id, 2, [6_u8; 32], text));
    assert!(next_version.is_ok());
}

#[test]
fn empty_source_text_is_rejected_before_anything_is_persisted() {
    let database = MemoryDatabase {
        fail_transactions: true,
        ..MemoryDatabase::default()
    };
    let repository = PostgresCandidateRepository::new(database);

    let result = repository.parse_once(PARSER_VERSION, source(Uuid::new_v4().as_u128(), 1, [7_u8; 32], "   "));

    assert!(matches!(result, Err(CandidateError::EmptySourceText)));
}

#[test]
fn a_store_failure_is_a_repository_error() {
    let database = MemoryDatabase {
        fail_transactions: true,
        ..MemoryDatabase::default()
    };
    let repository = PostgresCandidateRepository::new(database);

    let result = repository.parse_once(PARSER_VERSION, source(8, 1, [8_u8; 32], "Feat\nName: A"));

    assert!(matches!(result, Err(CandidateError::Repository)));
}

#[test]
fn a_failed_parse_leaves_the_store_as_it_was() {
    let database = MemoryDatabase {
        fail_candidate_writes: true,
        ..MemoryDatabase::default()
    };
    let repository = PostgresCandidateRepository::new(database);

    let result = repository.parse_once(PARSER_VERSION, source(10, 1, [10_u8; 32], "Feat\nName: A"));

    assert!(matches!(result, Err(CandidateError::Repository)));
    let tables = repository.database().tables.borrow();
    assert!(tables.runs.is_empty());
    assert!(tables.candidates.is_empty());
    assert_eq!(tables.commits, 0);
}

#[test]
fn string_lists_are_stored_as_json() {
    let values = vec!["a \"quoted\" word".to_owned(), "b".to_owned()];
    let stored = encode_string_list(&values);
    assert_eq!(stored, "[\"a \\\"quoted\\\" word\",\"b\"]");
    assert_eq!(decode_string_list(&stored), values);
    assert!(decode_string_list(&"not json".to_owned()).is_empty());
}

#[test]
fn a_recorded_candidate_reads_back_as_itself() {
    let candidate = Candidate {
        candidate_id: 0x0123_4567_89ab_cdef_0123_4567_89ab_cdef,
        rule_type: RuleType::Reaction,
        name: Some("Shield Block".to_owned()),
        traits: vec!["general".to_owned()],
        trigger: Some("You take damage.".to_owned()),
        requirements: vec!["shield raised".to_owned()],
        effect: None,
        prerequisites: Vec::new(),
        references: vec!["Shield".to_owned()],
        source_text: "Reaction\nName: Shield Block".to_owned(),
        inferences: Vec::new(),
        confidence: 75,
    };

    let row = candidate_row(&candidate);

    assert_eq!(row.candidate_id, "01234567-89ab-cdef-0123-456789abcdef");
    assert_eq!(row.rule_type, "reaction");
    assert_eq!(row.traits, "[\"general\"]");
    assert_eq!(candidate_from_row(&row).unwrap(), candidate);
}

#[test]
fn a_row_with_a_bad_identifier_is_a_repository_error() {
    let candidate = Candidate {
        candidate_id: 1,
        rule_type: RuleType::Feat,
        name: None,
        traits: Vec::new(),
        trigger: None,
        requirements: Vec::new(),
        effect: None,
        prerequisites: Vec::new(),
        references: Vec::new(),
        source_text: "Feat".to_owned(),
        inferences: Vec::new(),
        confidence: 90,
    };
    let mut row = candidate_row(&candidate);
    row.candidate_id = "not-a-uuid".to_owned();

    assert!(matches!(candidate_from_row(&row), Err(CandidateError::Repository)));
}

#[test]
fn a_parse_inside_a_transaction_writes_only_that_transaction() {
    let database = MemoryDatabase::default();
    let text = "Feat\nName: Toughness\nEffect: More HP.";
    let src = source(9, 1, [9_u8; 32], text);

    let mut tx = database.transaction().ok().unwrap();
    let new = parse_once_in(&mut tx, PARSER_VERSION, src.clone()).unwrap();
    assert!(!new.was_already_processed);
    assert_eq!(new.source, src);
    assert_eq!(new.candidates.len(), 1);
    assert_eq!(tx.runs.len(), 1);
    assert_eq!(tx.candidates.len(), 1);
    assert_eq!(tx.candidates[0].1, new.candidates[0]);
    assert!(database.tables.borrow().runs.is_empty());

    let again = parse_once_in(&mut tx, PARSER_VERSION, src.clone()).unwrap();
    assert!(again.was_already_processed);
    assert_eq!(again.candidates, new.candidates);
    assert_eq!(tx.runs.len(), 1);
    assert_eq!(tx.candidates.len(), 1);

    let refused = parse_once_in(&mut tx, "other", source(9, 1, [8_u8; 32], text));
    assert!(matches!(refused, Err(CandidateError::SourceDigestMismatch)));
    let blank = parse_once_in(&mut tx, PARSER_VERSION, source(9, 2, [9_u8; 32], " \n "));
    assert!(matches!(blank, Err(CandidateError::EmptySourceText)));
    assert_eq!(tx.runs.len(), 1);
    assert_eq!(tx.candidates.len(), 1);

    drop(tx);
    assert!(database.tables.borrow().runs.is_empty());
    assert!(database.tables.borrow().candidates.is_empty());
}

#[test]
fn the_run_key_and_digest_check_follow_the_source() {
    let src = source(11, 4, [3_u8; 32], "Feat");
    let key = run_key_of("v7", &src);
    assert_eq!(key.document_id, 11);
    assert_eq!(key.document_version, 4);
    assert_eq!(key.content_digest, [3_u8; 32]);
    assert_eq!(key.parser_version, "v7");
    assert!(!other_digest_recorded(&vec![vec![3_u8; 32]], &[3_u8; 32]));
    assert!(!other_digest_recorded(&Vec::new(), &[3_u8; 32]));
    assert!(other_digest_recorded(&vec![vec![3_u8; 32], vec![4_u8; 32]], &[3_u8; 32]));
}
