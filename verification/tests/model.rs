use glyphfall::model::{default_columns, default_lives, Glyph, Rules, Speed, Stars};

#[test]
fn stars_are_awarded_by_threshold() {
    let stars = Stars { one: 500, two: 750, three: 900 };

    assert_eq!(stars.rate(0), 0);
    assert_eq!(stars.rate(490), 0);
    assert_eq!(stars.rate(500), 1);
    assert_eq!(stars.rate(740), 1);
    assert_eq!(stars.rate(750), 2);
    assert_eq!(stars.rate(890), 2);
    assert_eq!(stars.rate(900), 3);
    assert_eq!(stars.rate(1000), 3);
}

#[test]
fn glyph_accepts_any_variant_ignoring_case_and_spaces() {
    let glyph = Glyph {
        char: "し".into(),
        answers: vec!["shi".into(), "si".into()],
        mnemonics: vec!["se prononce chi".into()],
    };

    assert!(glyph.accepts("shi"));
    assert!(glyph.accepts("si"));
    assert!(glyph.accepts("  SHI "));
    assert!(!glyph.accepts("sh"));
    assert!(!glyph.accepts(""));
    assert_eq!(glyph.primary_answer(), "shi");
}

#[test]
fn speed_ramps_then_plateaus() {
    let speed = Speed { start: 100_000, ramp: 10_000, max: 150_000 };

    assert_eq!(speed.at(0), 100_000);
    assert_eq!(speed.at(3), 130_000);
    assert_eq!(speed.at(5), 150_000);
    assert_eq!(speed.at(500), 150_000, "la vitesse doit rester plafonnée");
}

#[test]
fn omitted_rules_fall_back_to_playable_defaults() {
    let rules = Rules::default();

    assert_eq!(rules.lives, 3);
    assert_eq!(rules.columns, 4);
    assert!(!rules.is_timed());
    assert_eq!(default_lives(), 3);
    assert_eq!(default_columns(), 4);
}

#[test]
fn a_glyph_without_answers_has_an_empty_reading() {
    let glyph = Glyph { char: "ㄱ".into(), answers: Vec::new(), mnemonics: Vec::new() };

    assert_eq!(glyph.primary_answer(), "");
    assert!(!glyph.accepts("g"));
}

#[test]
fn tabs_and_newlines_around_an_answer_are_ignored() {
    let glyph = Glyph { char: "ㄱ".into(), answers: vec!["G".into()], mnemonics: Vec::new() };

    assert!(glyph.accepts("\tg\n"));
    assert!(!glyph.accepts("g g"));
}

#[test]
fn a_timed_level_has_a_positive_duration() {
    let rules = Rules { duration_ms: 90_000, ..Rules::default() };

    assert!(rules.is_timed());
}

#[test]
fn unicode_spaces_around_an_answer_are_ignored() {
    let glyph = Glyph { char: "ㄱ".into(), answers: vec!["g".into()], mnemonics: Vec::new() };

    assert!(glyph.accepts("\u{3000}g\u{00A0}"));
    assert!(glyph.accepts("\u{2003}\u{2028}g\u{205F}"));
    assert!(!glyph.accepts("\u{200B}g"), "a zero-width space is not white space");
}
