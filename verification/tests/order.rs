use glyphfall::model::{GameMode, Glyph, Language, Level, Rules, Stars};
use glyphfall::order::{sort_languages, sort_levels};

fn level(id: &str, order: u32) -> Level {
    Level {
        id: id.to_string(),
        title: id.to_string(),
        subtitle: String::new(),
        order,
        requires: Vec::new(),
        mode: GameMode::default(),
        rules: Rules::default(),
        stars: Stars { one: 500, two: 750, three: 900 },
        glyphs: vec![Glyph { char: "ㄱ".into(), answers: vec!["g".into()], mnemonics: Vec::new() }],
    }
}

fn language(id: &str, name: &str) -> Language {
    Language {
        id: id.to_string(),
        name: name.to_string(),
        native_name: String::new(),
        description: String::new(),
        fonts: Vec::new(),
        levels: Vec::new(),
    }
}

fn ids(levels: &[Level]) -> Vec<&str> {
    levels.iter().map(|level| level.id.as_str()).collect()
}

#[test]
fn levels_come_by_rank() {
    let sorted = sort_levels(vec![level("c", 3), level("a", 1), level("b", 2)]);

    assert_eq!(ids(&sorted), vec!["a", "b", "c"]);
}

#[test]
fn levels_of_the_same_rank_come_by_identifier() {
    let sorted = sort_levels(vec![level("ko-02", 1), level("ko-10", 0), level("ko-01", 1)]);

    assert_eq!(ids(&sorted), vec!["ko-10", "ko-01", "ko-02"]);
}

#[test]
fn sorting_no_level_gives_no_level() {
    assert!(sort_levels(Vec::new()).is_empty());
}

#[test]
fn scripts_come_by_name() {
    let sorted = sort_languages(vec![language("ko", "Coréen"), language("ja", "Japonais"), language("zh", "Chinois")]);
    let found: Vec<&str> = sorted.iter().map(|language| language.id.as_str()).collect();

    assert_eq!(found, vec!["zh", "ko", "ja"]);
}

#[test]
fn scripts_of_the_same_name_keep_the_order_they_came_in() {
    let sorted = sort_languages(vec![language("b", "Kana"), language("a", "Kana"), language("c", "Hangeul")]);
    let found: Vec<&str> = sorted.iter().map(|language| language.id.as_str()).collect();

    assert_eq!(found, vec!["c", "b", "a"]);
}
