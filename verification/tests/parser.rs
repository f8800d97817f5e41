use infernal_pf2e_parser_simple::domain::RuleType;
use infernal_pf2e_parser_simple::parser::{parse_candidates, BASE_CONFIDENCE};

fn as_fraction(hundredths: u32) -> f64 {
    f64::from(hundredths) / 100.0
}

#[test]
fn a_simple_action_is_parsed_from_labeled_lines() {
    let source = "Action\nName: Stride\nEffect: Move up to your Speed.";

    let candidates = parse_candidates(source);

    assert_eq!(candidates.len(), 1);
    assert_eq!(candidates[0].rule_type, RuleType::Action);
    assert_eq!(candidates[0].name.as_deref(), Some("Stride"));
    assert!(as_fraction(candidates[0].confidence) > 0.8);
}

#[test]
fn a_reaction_keeps_trigger_separate_from_effect() {
    let source = "Reaction\nName: Opportunity Strike\nTraits: attack\nTrigger: A foe leaves a square.\nEffect: Make a melee Strike.";

    let candidates = parse_candidates(source);

    let candidate = &candidates[0];
    assert_eq!(candidate.rule_type, RuleType::Reaction);
    assert_eq!(candidate.trigger.as_deref(), Some("A foe leaves a square."));
    assert_eq!(candidate.effect.as_deref(), Some("Make a melee Strike."));
}

#[test]
fn prerequisites_and_requirements_are_kept_as_separate_fields() {
    let source = "Feat\nName: Guarded Stance\nPrerequisites: trained in a shield\nRequirements: shield raised\nEffect: Reduce damage.";

    let candidates = parse_candidates(source);

    assert_eq!(
        candidates[0].prerequisites,
        vec!["trained in a shield".to_owned()]
    );
    assert_eq!(candidates[0].requirements, vec!["shield raised".to_owned()]);
}

#[test]
fn a_condition_needs_no_trigger_or_prerequisites() {
    let source = "Condition\nName: Frightened\nEffect: Take a penalty that decreases each round.";

    let candidates = parse_candidates(source);

    assert_eq!(candidates[0].rule_type, RuleType::Condition);
    assert!(candidates[0].trigger.is_none());
    assert!(candidates[0].prerequisites.is_empty());
}

#[test]
fn an_explicit_cross_reference_is_noticed_but_not_resolved() {
    let source = "Feat\nName: Diehard\nEffect: You are not doomed until [[Doomed]] 4.";

    let candidates = parse_candidates(source);

    assert_eq!(candidates[0].references, vec!["Doomed".to_owned()]);
}

#[test]
fn unrecognized_structure_becomes_a_single_low_confidence_unclassified_candidate() {
    let source = "The wind howls through the ancient ruins.";

    let candidates = parse_candidates(source);

    assert_eq!(candidates.len(), 1);
    assert_eq!(candidates[0].rule_type, RuleType::Unclassified);
    assert!(as_fraction(candidates[0].confidence) < 0.5);
    assert_eq!(candidates[0].source_text, source);
}

#[test]
fn untagged_trailing_text_is_preserved_as_an_inference() {
    let source = "Feat\nName: Toughness\nEffect: Increase max HP.\nThis line matches no known label.";

    let candidates = parse_candidates(source);

    assert!(candidates[0]
        .inferences
        .iter()
        .any(|note| note.contains("untagged")));
    assert!(candidates[0].confidence < BASE_CONFIDENCE);
}

#[test]
fn multiple_blocks_produce_multiple_candidates() {
    let source = "Feat\nName: A\nEffect: one\n---\nFeat\nName: B\nEffect: two";

    let candidates = parse_candidates(source);

    assert_eq!(candidates.len(), 2);
    assert_eq!(candidates[0].name.as_deref(), Some("A"));
    assert_eq!(candidates[1].name.as_deref(), Some("B"));
}

#[test]
fn a_block_that_is_only_whitespace_or_separators_produces_zero_candidates() {
    assert!(parse_candidates("   \n---\n   ").is_empty());
}
