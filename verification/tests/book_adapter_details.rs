use infernal_pf2e_parser_simple::book_adapter::{
    convert_condition_page, convert_feat_page, convert_page,
};
use infernal_pf2e_parser_simple::domain::RuleType;
use infernal_pf2e_parser_simple::parser::{parse_candidates, BASE_CONFIDENCE};

#[test]
fn each_action_cost_marker_gives_its_rule_type() {
    let page = "AID [reaction]\nTrigger An ally is about to use an action. You help them.\n\nQUICK DRAW [free-action]\n\nFLURRY [three-actions]\nstrike thrice";
    assert_eq!(
        convert_page(page),
        "Reaction\nName: Aid\nTrigger: An ally is about to use an action.\nEffect: You help them.\n---\nFree Action\nName: Quick Draw\n---\nAction\nName: Flurry\nEffect: strike thrice"
    );
}

#[test]
fn text_before_the_first_heading_and_lowercase_headings_are_ignored() {
    let page = "Chapter intro\nStride [one-action]\nSTRIDE [one-action]\nYou move.";
    assert_eq!(convert_page(page), "Action\nName: Stride\nEffect: You move.");
}

#[test]
fn a_shouty_first_paragraph_of_more_than_two_words_is_effect_text() {
    let page = "SHOUT [two-actions]\nLOUD AND CLEAR NOW\n\nYou shout.";
    assert_eq!(
        convert_page(page),
        "Action\nName: Shout\nEffect: LOUD AND CLEAR NOW You shout."
    );
}

#[test]
fn a_page_without_entries_converts_to_nothing() {
    assert_eq!(convert_page("Just prose.\nMore prose."), "");
    assert_eq!(convert_feat_page("Just prose."), "");
    assert_eq!(convert_condition_page("Blinded\nYou can't see."), "");
}

#[test]
fn a_feat_heading_needs_a_level_marker() {
    let page = "SHOUTY LINE\nnot a feat\n\nREAL FEAT\nFEAT 2\nHUMAN\nHUMAN\nBody text.";
    assert_eq!(
        convert_feat_page(page),
        "Feat\nName: Real Feat\nTraits: human\nEffect: Body text."
    );
}

#[test]
fn the_conditions_anchor_is_matched_ignoring_ascii_case() {
    let page = "list of CONDITIONS\nDazzled\nEverything is concealed.\n12\nOff Guard\nYou take a penalty.";
    assert_eq!(
        convert_condition_page(page),
        "Condition\nName: Dazzled\nEffect: Everything is concealed.\n---\nCondition\nName: Off Guard\nEffect: You take a penalty."
    );
}

#[test]
fn every_converted_condition_reads_back_as_its_entry() {
    let page = "List of Conditions\nDazzled\nEverything is concealed.\n12\nOff Guard\nYou take a\npenalty.\nQuickened\n";
    let candidates = parse_candidates(&convert_condition_page(page));
    assert_eq!(candidates.len(), 3);
    let expected = [
        ("Dazzled", Some("Everything is concealed.")),
        ("Off Guard", Some("You take a penalty.")),
        ("Quickened", None),
    ];
    for (candidate, (name, effect)) in candidates.iter().zip(expected) {
        assert_eq!(candidate.rule_type, RuleType::Condition);
        assert_eq!(candidate.name.as_deref(), Some(name));
        assert_eq!(candidate.effect.as_deref(), effect);
        assert_eq!(candidate.confidence, BASE_CONFIDENCE);
        assert!(candidate.inferences.is_empty());
    }
}

#[test]
fn every_converted_feat_reads_back_as_its_entry() {
    let page = "BOLD STEP\nFEAT 1\nHUMAN\nGENERAL\nYou step boldly.\n\nAgain.\nQUIET FEAT\nFEAT 3\n";
    let candidates = parse_candidates(&convert_feat_page(page));
    assert_eq!(candidates.len(), 2);
    assert_eq!(candidates[0].rule_type, RuleType::Feat);
    assert_eq!(candidates[0].name.as_deref(), Some("Bold Step"));
    assert_eq!(candidates[0].traits, vec!["human".to_owned(), "general".to_owned()]);
    assert_eq!(candidates[0].effect.as_deref(), Some("You step boldly. Again."));
    assert_eq!(candidates[0].confidence, BASE_CONFIDENCE);
    assert_eq!(candidates[1].rule_type, RuleType::Feat);
    assert_eq!(candidates[1].name.as_deref(), Some("Quiet Feat"));
    assert!(candidates[1].traits.is_empty());
    assert_eq!(candidates[1].effect, None);
    assert_eq!(candidates[1].confidence, BASE_CONFIDENCE);
}

#[test]
fn every_converted_action_reads_back_as_its_entry() {
    let page = "AID [reaction]\nCONCENTRATE\n\nTrigger An ally is about to act. You help.\n\nRequirements You are adjacent, and ready. Then assist.\nQUICK DRAW [free-action]\n";
    let candidates = parse_candidates(&convert_page(page));
    assert_eq!(candidates.len(), 2);
    assert_eq!(candidates[0].rule_type, RuleType::Reaction);
    assert_eq!(candidates[0].name.as_deref(), Some("Aid"));
    assert_eq!(candidates[0].traits, vec!["concentrate".to_owned()]);
    assert_eq!(candidates[0].trigger.as_deref(), Some("An ally is about to act."));
    assert_eq!(
        candidates[0].requirements,
        vec!["You are adjacent".to_owned(), "and ready.".to_owned()]
    );
    assert_eq!(candidates[0].effect.as_deref(), Some("You help. Then assist."));
    assert_eq!(candidates[0].confidence, BASE_CONFIDENCE);
    assert_eq!(candidates[1].rule_type, RuleType::FreeAction);
    assert_eq!(candidates[1].name.as_deref(), Some("Quick Draw"));
    assert_eq!(candidates[1].effect, None);
    assert_eq!(candidates[1].confidence, BASE_CONFIDENCE);
}

#[test]
fn a_glossary_heading_holds_no_punctuation() {
    let page = "List of Conditions\nDazzled\nYou see little.\nNote:\nMore text.\nOff-Guard\nStill Dazzled.";
    assert_eq!(
        convert_condition_page(page),
        "Condition\nName: Dazzled\nEffect: You see little. Note: More text. Off-Guard Still Dazzled."
    );
}

#[test]
fn a_glossary_heading_may_hold_digits() {
    let page = "List of Conditions\nDrained\nYou lose blood.\nLucky D20\nRoll twice.";
    assert_eq!(
        convert_condition_page(page),
        "Condition\nName: Drained\nEffect: You lose blood.\n---\nCondition\nName: Lucky D20\nEffect: Roll twice."
    );
}
