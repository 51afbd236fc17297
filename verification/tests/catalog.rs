use glyphfall::catalog::{detect_cycle, validate_level, DataError};
use glyphfall::model::{Catalog, GameMode, Glyph, Language, Level, Rules, Stars};

fn level(id: &str, requires: &[&str]) -> Level {
    Level {
        id: id.to_string(),
        title: id.to_string(),
        subtitle: String::new(),
        order: 1,
        requires: requires.iter().map(|s| s.to_string()).collect(),
        mode: GameMode::default(),
        rules: Rules::default(),
        stars: Stars { one: 500, two: 750, three: 900 },
        glyphs: vec![Glyph { char: "ㄱ".into(), answers: vec!["g".into()], mnemonics: vec!["un coin".into()] }],
    }
}

fn language(id: &str, levels: Vec<Level>) -> Language {
    Language {
        id: id.to_string(),
        name: id.to_string(),
        native_name: id.to_string(),
        description: String::new(),
        fonts: Vec::new(),
        levels,
    }
}

fn catalog(languages: Vec<Language>) -> Catalog {
    Catalog { languages }
}

#[test]
fn a_coherent_catalog_validates() {
    let catalog = catalog(vec![language(
        "ko",
        vec![level("ko-01", &[]), level("ko-02", &["ko-01"]), level("ko-03", &["ko-02"])],
    )]);

    assert!(catalog.validate().is_ok());
}

#[test]
fn level_ids_are_unique_across_languages() {
    let catalog = catalog(vec![language("ko", vec![level("shared", &[])]), language("ja", vec![level("shared", &[])])]);

    assert!(matches!(catalog.validate(), Err(DataError::DuplicateLevel(_))));
}

#[test]
fn a_requirement_must_exist_in_the_same_language() {
    let catalog = catalog(vec![language("ko", vec![level("ko-01", &["ja-01"])])]);

    assert!(matches!(catalog.validate(), Err(DataError::UnknownRequirement { .. })));
}

#[test]
fn cyclic_requirements_are_rejected() {
    let catalog = catalog(vec![language("ko", vec![level("a", &["c"]), level("b", &["a"]), level("c", &["b"])])]);

    assert!(matches!(catalog.validate(), Err(DataError::CyclicRequirements { .. })));
}

#[test]
fn a_diamond_shaped_path_is_not_a_cycle() {
    let catalog = catalog(vec![language(
        "ko",
        vec![level("a", &[]), level("b", &["a"]), level("c", &["a"]), level("d", &["b", "c"])],
    )]);

    assert!(catalog.validate().is_ok());
}

#[test]
fn star_thresholds_must_increase() {
    let mut broken = level("ko-01", &[]);
    broken.stars = Stars { one: 900, two: 500, three: 950 };

    let catalog = catalog(vec![language("ko", vec![broken])]);

    assert!(matches!(catalog.validate(), Err(DataError::InvalidLevel { .. })));
}

#[test]
fn reviewing_without_prerequisites_is_rejected() {
    let mut broken = level("ko-01", &[]);
    broken.rules.review_permille = 300;

    let catalog = catalog(vec![language("ko", vec![broken])]);

    assert!(matches!(catalog.validate(), Err(DataError::InvalidLevel { .. })));
}

#[test]
fn two_scripts_cannot_share_an_identifier() {
    let catalog = catalog(vec![language("ko", vec![level("ko-01", &[])]), language("ko", vec![level("ja-01", &[])])]);

    match catalog.validate() {
        Err(DataError::DuplicateLanguage(id)) => assert_eq!(id, "ko"),
        other => panic!("attendu une langue en double, obtenu {other:?}"),
    }
}

#[test]
fn a_script_without_levels_is_rejected() {
    let catalog = catalog(vec![language("ko", Vec::new())]);

    match catalog.validate() {
        Err(DataError::EmptyLanguage(id)) => assert_eq!(id, "ko"),
        other => panic!("attendu une langue vide, obtenu {other:?}"),
    }
}

#[test]
fn the_cycle_names_its_first_level_and_script() {
    let catalog = catalog(vec![language("ko", vec![level("a", &[]), level("b", &["c"]), level("c", &["b"])])]);

    match catalog.validate() {
        Err(DataError::CyclicRequirements { language, level }) => {
            assert_eq!(language, "ko");
            assert_eq!(level, "b");
        }
        other => panic!("attendu un cycle, obtenu {other:?}"),
    }
}

#[test]
fn an_unknown_requirement_names_the_level_and_the_missing_one() {
    let catalog = catalog(vec![language("ko", vec![level("ko-01", &[]), level("ko-02", &["ko-01", "ko-09"])])]);

    match catalog.validate() {
        Err(DataError::UnknownRequirement { level, required }) => {
            assert_eq!(level, "ko-02");
            assert_eq!(required, "ko-09");
        }
        other => panic!("attendu un prérequis inconnu, obtenu {other:?}"),
    }
}

#[test]
fn each_broken_rule_gives_its_own_reason() {
    let reason = |level: Level| match validate_level(&level) {
        Err(DataError::InvalidLevel { reason, .. }) => reason,
        other => panic!("attendu un niveau invalide, obtenu {other:?}"),
    };

    let mut empty = level("ko-01", &[]);
    empty.glyphs.clear();
    assert_eq!(reason(empty), "aucun glyphe : il n'y aurait rien à apprendre");

    let mut mute = level("ko-01", &[]);
    mute.glyphs[0].answers.clear();
    assert_eq!(reason(mute), "le glyphe « ㄱ » n'a aucune réponse acceptée");

    assert_eq!(reason(level("ko-01", &["ko-01"])), "le niveau se référence lui-même dans `requires`");

    let mut lifeless = level("ko-01", &[]);
    lifeless.rules.lives = 0;
    assert_eq!(reason(lifeless), "`lives` doit valoir au moins 1");

    let mut narrow = level("ko-01", &[]);
    narrow.rules.columns = 0;
    assert_eq!(reason(narrow), "`columns` doit valoir au moins 1");

    let mut frantic = level("ko-01", &[]);
    frantic.rules.spawn_interval_ms = 0;
    assert_eq!(reason(frantic), "`spawn_interval` doit être strictement positif");

    let mut backwards = level("ko-01", &[]);
    backwards.rules.duration_ms = -1;
    assert_eq!(reason(backwards), "`duration` ne peut pas être négatif (0 = sans limite)");

    let mut greedy = level("ko-01", &[]);
    greedy.rules.review_permille = 1500;
    assert_eq!(reason(greedy), "`review_ratio` est une proportion, entre 0.0 et 1.0");

    let mut frozen = level("ko-01", &[]);
    frozen.rules.speed.start = 0;
    assert_eq!(reason(frozen), "`speed` doit vérifier 0 < start <= max et ramp >= 0");

    let mut over = level("ko-01", &[]);
    over.stars.three = 1200;
    assert_eq!(reason(over), "les seuils d'étoiles sont des précisions, entre 0.0 et 1.0");
}

#[test]
fn the_cycle_names_the_level_met_again_by_the_search() {
    // The search goes from "x" to "a", then "c", then back to "a".
    let language = language("ko", vec![level("x", &["a"]), level("c", &["a"]), level("a", &["c"])]);

    match detect_cycle(&language) {
        Err(DataError::CyclicRequirements { language, level }) => {
            assert_eq!(language, "ko");
            assert_eq!(level, "a");
        }
        other => panic!("a cycle was expected, got {other:?}"),
    }
}

#[test]
fn a_diamond_of_requirements_is_no_cycle() {
    let language = language(
        "ko",
        vec![level("a", &[]), level("b", &["a"]), level("c", &["a"]), level("d", &["b", "c"])],
    );

    assert!(detect_cycle(&language).is_ok());
}
