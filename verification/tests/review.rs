use glyphfall::model::{GameMode, Glyph, Level, Rules, Stars};
use glyphfall::review::gather_review;

fn glyph(character: &str, answer: &str) -> Glyph {
    Glyph { char: character.to_string(), answers: vec![answer.to_string()], mnemonics: Vec::new() }
}

fn level(id: &str, requires: &[&str], glyphs: Vec<Glyph>) -> Level {
    Level {
        id: id.to_string(),
        title: id.to_string(),
        subtitle: String::new(),
        order: 1,
        requires: requires.iter().map(|s| s.to_string()).collect(),
        mode: GameMode::default(),
        rules: Rules::default(),
        stars: Stars { one: 500, two: 750, three: 900 },
        glyphs,
    }
}

fn signs(pool: &[Glyph]) -> Vec<&str> {
    pool.iter().map(|glyph| glyph.char.as_str()).collect()
}

#[test]
fn the_last_requirement_is_walked_first() {
    let levels = vec![
        level("a", &[], vec![glyph("ㄱ", "g")]),
        level("b", &["a"], vec![glyph("ㄴ", "n")]),
        level("c", &["a"], vec![glyph("ㄷ", "d")]),
        level("d", &["b", "c"], vec![glyph("ㄹ", "r")]),
    ];

    assert_eq!(signs(&gather_review(&levels, 3)), vec!["ㄷ", "ㄱ", "ㄴ"]);
}

#[test]
fn a_sign_taught_twice_is_kept_as_first_met() {
    let levels = vec![
        level("a", &[], vec![glyph("ㄱ", "g")]),
        level("b", &[], vec![glyph("ㄱ", "k")]),
        level("c", &["a", "b"], vec![glyph("ㄴ", "n")]),
    ];

    let pool = gather_review(&levels, 2);

    assert_eq!(pool.len(), 1);
    assert_eq!(pool[0].answers, vec!["k".to_string()]);
}

#[test]
fn a_starting_level_reviews_nothing() {
    let levels = vec![level("a", &[], vec![glyph("ㄱ", "g")])];

    assert!(gather_review(&levels, 0).is_empty());
}

#[test]
fn the_whole_chain_is_reviewed() {
    let levels = vec![
        level("a", &[], vec![glyph("ㄱ", "g")]),
        level("b", &["a"], vec![glyph("ㄴ", "n")]),
        level("c", &["b"], vec![glyph("ㄷ", "d")]),
        level("d", &["c", "missing"], vec![glyph("ㄹ", "r")]),
    ];

    assert_eq!(signs(&gather_review(&levels, 3)), vec!["ㄷ", "ㄴ", "ㄱ"]);
}
