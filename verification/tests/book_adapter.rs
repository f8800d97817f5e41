use infernal_pf2e_parser_simple::book_adapter::{
    convert_condition_page, convert_feat_page, convert_page,
};
use infernal_pf2e_parser_simple::domain::RuleType;
use infernal_pf2e_parser_simple::parser::parse_candidates;


/// Verbatim extraction of Player Core page 419 (Pathfinder Second
/// Edition Core Rulebook), from the chunker tool's own output --
/// the real driving case for this module, not a synthetic fixture.
const PLAYER_CORE_PAGE_419: &str = "\
Player Core

STAND [one-action]
MOVE

You stand up from being prone.

STEP [one-action]
MOVE

Requirements Your Speed is at least 10 feet.
You carefully move 5 feet. Unlike most types of movement,
Stepping doesn't trigger reactions, such as Reactive Strike,
that can be triggered by move actions or upon leaving or
entering a square.
You can't Step into difficult terrain (page 423), and you
can't Step using a Speed other than your land Speed.

STRIDE [one-action]
MOVE

You move up to your Speed (page 420).

TAKE COVER [one-action]
Requirements You are benefiting from cover, are near a
feature that allows you to take cover, or are prone.
You press yourself against a wall or duck behind an
obstacle to take better advantage of cover (page 424).
";

#[test]
fn converts_four_real_actions_off_one_page_into_parseable_blocks() {
    let converted = convert_page(PLAYER_CORE_PAGE_419);
    let candidates = parse_candidates(&converted);

    assert_eq!(candidates.len(), 4, "converted:\n{converted}");

    assert_eq!(candidates[0].rule_type, RuleType::Action);
    assert_eq!(candidates[0].name.as_deref(), Some("Stand"));
    assert_eq!(candidates[0].traits, vec!["move".to_owned()]);
    assert_eq!(
        candidates[0].effect.as_deref(),
        Some("You stand up from being prone.")
    );

    assert_eq!(candidates[1].name.as_deref(), Some("Step"));
    assert_eq!(
        candidates[1].requirements,
        vec!["Your Speed is at least 10 feet.".to_owned()]
    );
    assert!(
        candidates[1]
            .effect
            .as_deref()
            .unwrap()
            .starts_with("You carefully move 5 feet.")
    );

    assert_eq!(candidates[2].name.as_deref(), Some("Stride"));
    assert_eq!(
        candidates[2].effect.as_deref(),
        Some("You move up to your Speed (page 420).")
    );

    assert_eq!(candidates[3].name.as_deref(), Some("Take Cover"));
    // The book's Requirements sentence uses commas as ordinary
    // punctuation, not list delimiters, but parser.rs's own
    // `split_list` doesn't know that -- see this module's doc.
    assert_eq!(
        candidates[3].requirements,
        vec![
            "You are benefiting from cover".to_owned(),
            "are near a feature that allows you to take cover".to_owned(),
            "or are prone.".to_owned(),
        ]
    );

    for candidate in &candidates {
        assert!(
            f64::from(candidate.confidence) / 100.0 > 0.5,
            "{:?} parsed at low confidence: {converted}",
            candidate.name
        );
    }
}


/// Verbatim extraction of Player Core page 43 (dwarf ancestry
/// feats), from the chunker tool's own output. "Defy the Darkness"
/// is included specifically to prove its unsplittable
/// `Prerequisites darkvision` clause stays folded into `Effect`
/// rather than being guessed at -- see this module's doc.
const PLAYER_CORE_DWARF_FEATS: &str = "\
CLAN DAGGER

FEAT 1

DWARF

You are naturally calm and collected in the face of imminent danger. At the end of
your turn, reduce your frightened condition by 2 instead of 1.

DWARVEN WEAPON FAMILIARITY

FEAT 1

DWARF

Your kin have instilled in you an affinity for hard-hitting
weapons, and you prefer these to more elegant arms. You gain
access to all uncommon weapons with the dwarf trait.

ROCK RUNNER

FEAT 1

DWARF

Your innate connection to stone makes you adept at moving
across uneven surfaces. You can ignore difficult terrain caused
by stone.

DEFY THE DARKNESS

FEAT 5

DWARF

Prerequisites darkvision
Using ancient dwarven methods developed to fight enemies
wielding magical darkness, you've honed your darkvision
and sworn not to use such magic yourself.
";

#[test]
fn converts_four_real_feats_off_one_page_into_parseable_blocks() {
    let converted = convert_feat_page(PLAYER_CORE_DWARF_FEATS);
    let candidates = parse_candidates(&converted);

    assert_eq!(candidates.len(), 4, "converted:\n{converted}");

    for candidate in &candidates {
        assert_eq!(candidate.rule_type, RuleType::Feat);
        assert_eq!(candidate.traits, vec!["dwarf".to_owned()]);
    }

    assert_eq!(candidates[0].name.as_deref(), Some("Clan Dagger"));
    assert_eq!(
        candidates[1].name.as_deref(),
        Some("Dwarven Weapon Familiarity")
    );
    assert_eq!(candidates[2].name.as_deref(), Some("Rock Runner"));

    assert_eq!(candidates[3].name.as_deref(), Some("Defy The Darkness"));
    // Not split out -- see this module's doc on why Prerequisites
    // is deliberately left folded into Effect for feats.
    assert!(
        candidates[3]
            .effect
            .as_deref()
            .unwrap()
            .starts_with("Prerequisites darkvision"),
        "{:?}",
        candidates[3].effect
    );
    assert!(candidates[3].prerequisites.is_empty());
}

/// Verbatim extraction of Player Core page 253 -- the exact real
/// text that first exposed this bug: at full-corpus scale (all
/// 1,404 page chunks across four books), the old two-line
/// lookahead misdetected the trait word "General" as a feat name
/// 124 times, "Archetype" 76 times, and so on for every dual-trait
/// feat and every class-trait word in the book.
const PLAYER_CORE_DUAL_TRAIT_FEATS: &str = "\
ADDITIONAL LORE
GENERAL

FEAT 1

SKILL

FEAT 1

GENERAL

Your knowledge has expanded to encompass a new field.
Choose a Lore skill subcategory. You become trained in it.

ADOPTED ANCESTRY

FEAT 1

GENERAL

You're fully immersed in another ancestry's culture and
traditions.
";

#[test]
fn a_dual_trait_feats_name_is_recovered_not_swallowed_by_its_own_trait_tag() {
    let converted = convert_feat_page(PLAYER_CORE_DUAL_TRAIT_FEATS);
    let candidates = parse_candidates(&converted);

    assert_eq!(candidates.len(), 2, "converted:\n{converted}");

    assert_eq!(candidates[0].name.as_deref(), Some("Additional Lore"));
    assert_eq!(
        candidates[0].traits,
        vec!["general".to_owned(), "skill".to_owned()],
        "converted:\n{converted}"
    );
    assert!(
        candidates[0]
            .effect
            .as_deref()
            .unwrap()
            .starts_with("Your knowledge has expanded")
    );

    assert_eq!(candidates[1].name.as_deref(), Some("Adopted Ancestry"));
    assert_eq!(candidates[1].traits, vec!["general".to_owned()]);
}

/// Verbatim extraction of Player Core page 78 (Fighter feats) --
/// the second real bug the full-corpus run turned up. "Combat
/// Assessment" and "Double Slice" are dual Feat+Action entries
/// (their own `[one-action]`/`[two-actions]` bracket), an already-
/// documented gap. What the corpus run actually exposed was what
/// happened to their *orphaned* `FEAT 1`/`FIGHTER` lines once the
/// entry itself was skipped: the bare `FEAT 1` marker line was
/// misread as a fresh heading trigger, turning "Fighter" into a
/// bogus feat name -- 55 times across the corpus.
const PLAYER_CORE_FIGHTER_FEATS: &str = "\
1ST LEVEL
COMBAT ASSESSMENT [one-action]

FEAT 1

FIGHTER

You make a telegraphed attack to learn about your foe.

DOUBLE SLICE [two-actions]

FEAT 1

FIGHTER

Requirements You are wielding two melee weapons, each in a
different hand.
You lash out at your foe with both weapons.

MOBILE SHOT STANCE

FEAT 1

FIGHTER

You focus on ranged combat, ready to fire at any moment.
";

#[test]
fn a_dual_typed_feats_orphaned_feat_marker_never_becomes_a_bogus_heading() {
    let converted = convert_feat_page(PLAYER_CORE_FIGHTER_FEATS);
    let candidates = parse_candidates(&converted);

    // Only the one real, cleanly-typed feat -- neither
    // "Combat Assessment" nor "Double Slice" is extracted (both
    // are dual Feat+Action, a separate documented gap), and
    // critically, no bogus "Fighter" candidate is fabricated from
    // their orphaned FEAT 1 / FIGHTER lines.
    assert_eq!(candidates.len(), 1, "converted:\n{converted}");
    assert_eq!(candidates[0].name.as_deref(), Some("Mobile Shot Stance"));
    assert_eq!(candidates[0].traits, vec!["fighter".to_owned()]);
    assert!(
        !candidates
            .iter()
            .any(|c| c.name.as_deref() == Some("Fighter"))
    );
}

/// Verbatim extraction of the Player Core Conditions Appendix
/// (page 442-443), from the chunker tool's own output.
const PLAYER_CORE_CONDITIONS_APPENDIX: &str = "\
CONDITIONS APPENDIX

While adventuring, characters are affected by conditions.

Condition Values

Some conditions have a number after the condition, called a condition value.

Overriding Conditions

Some conditions override others.

List of Conditions
Blinded
You can't see. All normal terrain is difficult terrain to you.
You automatically critically fail Perception checks that require
you to be able to see. Blinded overrides dazzled.

Broken
Broken is a condition that affects only objects. An object is
broken when damage has reduced its Hit Points to equal or
less than its Broken Threshold.

442

Clumsy
Your movements become clumsy and inexact. Clumsy
always includes a value. You take a status penalty equal
to the condition value to Dexterity-based checks and DCs.
";

#[test]
fn converts_three_real_conditions_off_the_glossary_into_parseable_blocks() {
    let converted = convert_condition_page(PLAYER_CORE_CONDITIONS_APPENDIX);
    let candidates = parse_candidates(&converted);

    // "Condition Values" and "Overriding Conditions" precede the
    // `List of Conditions` anchor and must not be picked up as
    // entries themselves.
    assert_eq!(candidates.len(), 3, "converted:\n{converted}");

    for candidate in &candidates {
        assert_eq!(candidate.rule_type, RuleType::Condition);
    }

    assert_eq!(candidates[0].name.as_deref(), Some("Blinded"));
    assert!(
        candidates[0]
            .effect
            .as_deref()
            .unwrap()
            .starts_with("You can't see.")
    );

    assert_eq!(candidates[1].name.as_deref(), Some("Broken"));

    assert_eq!(candidates[2].name.as_deref(), Some("Clumsy"));
    // The stray "442" page-number line between entries must be
    // dropped, not folded into Broken's or Clumsy's Effect.
    assert!(!candidates[1].effect.as_deref().unwrap().contains("442"));
    assert!(!candidates[2].effect.as_deref().unwrap().contains("442"));
}
