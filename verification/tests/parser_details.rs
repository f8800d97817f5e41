use infernal_pf2e_parser_simple::domain::RuleType;
use infernal_pf2e_parser_simple::parser::{
    parse_block, parse_candidates, BASE_CONFIDENCE, UNCLASSIFIED_CONFIDENCE,
};

#[test]
fn confidence_is_exact_for_each_kind_of_incompleteness() {
    assert_eq!(parse_block("Feat\nName: A", 7).confidence, 90);
    assert_eq!(parse_block("Name: A", 7).confidence, 70);
    assert_eq!(parse_block("Feat\nName: A\nloose text", 7).confidence, 75);
    assert_eq!(parse_block("Name: A\nloose text", 7).confidence, 55);
    assert_eq!(parse_block("loose text", 7).confidence, UNCLASSIFIED_CONFIDENCE);
    assert_eq!(parse_block("Feat", 7).confidence, BASE_CONFIDENCE);
}

#[test]
fn parse_block_keeps_the_identifier_it_is_given() {
    assert_eq!(parse_block("Feat\nName: A", 42).candidate_id, 42);
}

#[test]
fn the_untagged_note_counts_the_untagged_lines() {
    let c = parse_block("Feat\nName: A\nfirst loose\nsecond loose", 1);
    assert_eq!(
        c.inferences,
        vec!["2 untagged line(s) present in source, not mapped to a known field".to_owned()]
    );
}

#[test]
fn a_type_label_is_normalized_before_it_is_read() {
    let c = parse_block("Type:  Free Action \nName: Quick Draw", 1);
    assert_eq!(c.rule_type, RuleType::FreeAction);
    assert_eq!(c.confidence, 90);
    let unknown = parse_block("Type: Spell\nName: Fireball", 1);
    assert_eq!(unknown.rule_type, RuleType::Unclassified);
    assert_eq!(unknown.confidence, 90);
}

#[test]
fn a_bare_type_counts_only_on_the_first_line() {
    let c = parse_block("Name: Stride\nAction", 1);
    assert_eq!(c.rule_type, RuleType::Unclassified);
    assert_eq!(c.confidence, 55);
}

#[test]
fn labels_are_case_insensitive_and_lists_are_trimmed() {
    let c = parse_block("FEAT\nNAME: Power Attack\ntraits:  flourish , , fighter \nREQUIREMENTS: a, b", 1);
    assert_eq!(c.rule_type, RuleType::Feat);
    assert_eq!(c.name.as_deref(), Some("Power Attack"));
    assert_eq!(c.traits, vec!["flourish".to_owned(), "fighter".to_owned()]);
    assert_eq!(c.requirements, vec!["a".to_owned(), "b".to_owned()]);
}

#[test]
fn references_accumulate_from_labels_and_brackets() {
    let c = parse_block(
        "Feat\nName: X\nSee also: Alpha, Beta\nReferences: Gamma\nEffect: see [[ Delta ]] and [[]] and [[Eps",
        1,
    );
    assert_eq!(
        c.references,
        vec![
            "Alpha".to_owned(),
            "Beta".to_owned(),
            "Gamma".to_owned(),
            "Delta".to_owned()
        ]
    );
}

#[test]
fn a_later_label_replaces_an_earlier_one() {
    let c = parse_block("Action\nName: First\nName: Second", 1);
    assert_eq!(c.name.as_deref(), Some("Second"));
}

#[test]
fn a_label_longer_than_thirty_two_characters_is_not_a_label() {
    let c = parse_block(
        "Action\nName: A\nThis is a very long label that goes on: value",
        1,
    );
    assert_eq!(c.inferences.len(), 1);
    assert_eq!(c.confidence, 75);
}

#[test]
fn unclassified_fallback_keeps_bracketed_references() {
    let c = parse_block("Just prose mentioning [[Prone]].", 1);
    assert_eq!(c.rule_type, RuleType::Unclassified);
    assert_eq!(c.references, vec!["Prone".to_owned()]);
    assert!(c.inferences.is_empty());
}

#[test]
fn blocks_are_split_only_on_lines_holding_just_three_dashes() {
    let candidates = parse_candidates("  Feat\nName: A  \n  ---  \nFeat\nName: B\n-----\nEffect: x---y\r\n---\r\nCondition");
    assert_eq!(candidates.len(), 3);
    assert_eq!(candidates[0].source_text, "Feat\nName: A");
    assert_eq!(candidates[1].source_text, "Feat\nName: B\n-----\nEffect: x---y");
    assert_eq!(candidates[1].name.as_deref(), Some("B"));
    assert_eq!(candidates[1].effect.as_deref(), Some("x---y"));
    assert_eq!(candidates[1].confidence, 75);
    assert_eq!(candidates[2].source_text, "Condition");
    assert_eq!(candidates[2].rule_type, RuleType::Condition);
}

#[test]
fn a_triple_dash_inside_a_line_does_not_split_a_block() {
    let candidates = parse_candidates("Feat\nName: A---B\nEffect: one");
    assert_eq!(candidates.len(), 1);
    assert_eq!(candidates[0].rule_type, RuleType::Feat);
    assert_eq!(candidates[0].name.as_deref(), Some("A---B"));
    assert_eq!(candidates[0].effect.as_deref(), Some("one"));
}

#[test]
fn windows_line_endings_are_handled() {
    let c = parse_block("Feat\r\nName: A\r\nEffect: B", 1);
    assert_eq!(c.name.as_deref(), Some("A"));
    assert_eq!(c.effect.as_deref(), Some("B"));
}

#[test]
fn every_candidate_gets_its_own_version_4_uuid() {
    let candidates = parse_candidates("Feat\nName: A\n---\nAction\nName: B\n---\nloose");
    assert_eq!(candidates.len(), 3);
    for c in &candidates {
        assert_eq!((c.candidate_id >> 76) & 0xf, 4);
        assert_eq!((c.candidate_id >> 62) & 0x3, 2);
    }
    assert_ne!(candidates[0].candidate_id, candidates[1].candidate_id);
    assert_ne!(candidates[1].candidate_id, candidates[2].candidate_id);
}
