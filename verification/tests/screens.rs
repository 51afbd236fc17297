use glyphfall::model::{Catalog, GameMode, Glyph, Language, Level, Rules, Stars};
use glyphfall::progress::MAX_STARS;
use glyphfall::screens::{
    accepts_input, accuracy_percent, answer_for, cycled_selection, key_at, mastery_stage, star_look, verdict,
    MasteryStage, StarLook, Verdict, ACQUIRED_FROM, level_from_x, level_of, move_row, row_letters, scroll_offset, steps_of, Key,
    Row, ERASE_WIDTH, GRACE_MS, INPUT_BAR_Y, KEYBOARD_TOP, KEY_GAP, KEY_HEIGHT, KEY_MARGIN, KEY_WIDTH,
    PORTRAIT_HEIGHT, PORTRAIT_WIDTH, STAR_DELAY_MS, STAR_OPENING_MS, STAR_POP_MS,
};
use glyphfall::session::{EndReason, TARGET_Y};
use glyphfall::settings::{Settings, MAX_LEVEL};

#[test]
fn the_screen_ignores_the_keystroke_that_ended_the_round() {
    assert!(!accepts_input(0));
    assert!(!accepts_input(GRACE_MS - 10));
    assert!(accepts_input(GRACE_MS));
}

#[test]
fn the_delay_outlasts_the_star_animation() {
    let animation_end = STAR_OPENING_MS + STAR_DELAY_MS * (MAX_STARS - 1) as i64 + STAR_POP_MS;

    assert!(GRACE_MS >= animation_end, "delai {GRACE_MS}, animation {animation_end}");
}

#[test]
fn the_keyboard_stays_inside_the_canvas() {
    let widest = row_letters(0).len() as i64;
    let width = widest * KEY_WIDTH + (widest - 1) * KEY_GAP;

    assert!(KEY_MARGIN + width <= PORTRAIT_WIDTH, "largeur : {width}");

    let bottom = KEYBOARD_TOP + 3 * KEY_HEIGHT + 2 * KEY_GAP;
    assert!(bottom <= PORTRAIT_HEIGHT, "bas du clavier : {bottom}");
}

#[test]
fn every_letter_of_the_alphabet_can_be_typed() {
    let typed: String = (0..3).flat_map(row_letters).collect();

    for letter in 'a'..='z' {
        assert!(typed.contains(letter), "« {letter} » n'est sur aucune rangée");
    }
}

#[test]
fn nothing_overlaps_between_the_line_and_the_keyboard() {
    assert!(TARGET_Y < INPUT_BAR_Y * 1000, "la ligne rouge est au-dessus de la saisie");
}

#[test]
fn a_finger_presses_the_key_under_it() {
    let first_row = KEYBOARD_TOP * 1000 + 10_000;
    assert_eq!(key_at((KEY_MARGIN + 5) * 1000, first_row), Some(Key::Letter('a')));
    assert_eq!(key_at((KEY_MARGIN + KEY_WIDTH + KEY_GAP + 5) * 1000, first_row), Some(Key::Letter('z')));

    let last_row = (KEYBOARD_TOP + 2 * (KEY_HEIGHT + KEY_GAP) + 10) * 1000;
    let erase_x = KEY_MARGIN + 6 * KEY_WIDTH + 6 * KEY_GAP;
    assert_eq!(key_at((erase_x + 5) * 1000, last_row), Some(Key::Erase));
    assert_eq!(key_at((erase_x + ERASE_WIDTH + KEY_GAP + 5) * 1000, last_row), Some(Key::Submit));

    assert_eq!(key_at(5_000, 10_000), None, "au-dessus du clavier");
    assert_eq!(key_at((KEY_MARGIN + KEY_WIDTH) * 1000 + 500, first_row), None, "entre deux touches");
}

#[test]
fn the_path_scrolls_to_keep_the_selection_in_view() {
    assert_eq!(scroll_offset(0, 20), 0);
    assert_eq!(scroll_offset(10, 20), 10 * 34 - 72);
    assert_eq!(scroll_offset(19, 20), 20 * 34 - 168, "jamais au-delà de la fin");
    assert_eq!(scroll_offset(3, 2), 0, "une liste courte ne défile pas");
}

#[test]
fn a_missed_sign_shows_its_reading_from_anywhere_in_the_script() {
    let glyph = |c: &str, a: &str| Glyph { char: c.into(), answers: vec![a.into()], mnemonics: Vec::new() };
    let level = |id: &str, glyphs: Vec<Glyph>| Level {
        id: id.into(),
        title: id.into(),
        subtitle: String::new(),
        order: 1,
        requires: Vec::new(),
        mode: GameMode::TileFall,
        rules: Rules::default(),
        stars: Stars { one: 500, two: 750, three: 900 },
        glyphs,
    };
    let catalog = Catalog {
        languages: vec![Language {
            id: "ko".into(),
            name: "Coréen".into(),
            native_name: "한국어".into(),
            description: String::new(),
            fonts: Vec::new(),
            levels: vec![level("ko-01", vec![glyph("ㄱ", "g")]), level("ko-02", vec![glyph("ㅏ", "a")])],
        }],
    };

    assert_eq!(answer_for(&catalog, "ko", "ㅏ"), Some("a"));
    assert_eq!(answer_for(&catalog, "ko", "ㅓ"), None);
    assert_eq!(answer_for(&catalog, "ja", "ㄱ"), None);
}

#[test]
fn a_row_moves_within_its_notches() {
    let mut settings = Settings::default();

    assert!(move_row(&mut settings, Row::Music, 1));
    assert_eq!(settings.music, 7);
    settings.music = MAX_LEVEL;
    assert!(!move_row(&mut settings, Row::Music, 1), "déjà au maximum");

    settings.daily_goal = Some(30);
    assert_eq!(level_of(&settings, Row::DailyGoal), 5);
    assert!(move_row(&mut settings, Row::DailyGoal, 1));
    assert_eq!(settings.daily_goal, Some(60));
    assert_eq!(steps_of(Row::DailyGoal), 8);
    assert_eq!(steps_of(Row::Sfx), MAX_LEVEL);
}

#[test]
fn the_gauge_starts_at_its_edge() {
    assert_eq!(level_from_x(100_000, 99_000), 0, "à gauche de la jauge, le volume est nul");
    assert_eq!(level_from_x(100_000, 100_000), 1);
    assert_eq!(level_from_x(100_000, 113_000), 2);
    assert_eq!(level_from_x(100_000, 900_000), MAX_LEVEL);
}

#[test]
fn the_selection_wraps_around_at_both_ends() {
    assert_eq!(cycled_selection(0, 3, true), 1);
    assert_eq!(cycled_selection(2, 3, true), 0);
    assert_eq!(cycled_selection(0, 3, false), 2);
    assert_eq!(cycled_selection(1, 3, false), 0);
    assert_eq!(cycled_selection(0, 1, true), 0);
}

#[test]
fn the_card_names_each_stage_of_mastery() {
    assert_eq!(mastery_stage(-1), MasteryStage::Shaky);
    assert_eq!(mastery_stage(0), MasteryStage::Unseen);
    assert_eq!(mastery_stage(1), MasteryStage::Learning);
    assert_eq!(mastery_stage(2), MasteryStage::Learning);
    assert_eq!(mastery_stage(ACQUIRED_FROM), MasteryStage::Acquired);
    assert_eq!(mastery_stage(4), MasteryStage::Acquired);
}

#[test]
fn the_verdict_follows_the_stars_then_the_reason() {
    assert_eq!(verdict(0, EndReason::OutOfLives), Verdict::OutOfLives);
    assert_eq!(verdict(0, EndReason::TimeUp), Verdict::TimeUp);
    assert_eq!(verdict(1, EndReason::OutOfLives), Verdict::Finished);
    assert_eq!(verdict(MAX_STARS, EndReason::TimeUp), Verdict::Perfect);
}

#[test]
fn the_stars_come_one_by_one() {
    assert_eq!(star_look(0, 2, 0), StarLook::Waiting);
    assert_eq!(star_look(0, 2, STAR_OPENING_MS), StarLook::Popping);
    assert_eq!(star_look(0, 2, STAR_OPENING_MS + STAR_POP_MS), StarLook::Landed);
    assert_eq!(star_look(1, 2, STAR_OPENING_MS + STAR_POP_MS), StarLook::Waiting);
    assert_eq!(star_look(1, 2, STAR_OPENING_MS + STAR_DELAY_MS), StarLook::Popping);
    assert_eq!(star_look(2, 2, 0), StarLook::Empty);
    assert_eq!(star_look(2, 2, GRACE_MS), StarLook::Empty);
}

#[test]
fn the_success_is_rounded_to_the_nearest_percent() {
    assert_eq!(accuracy_percent(0), 0);
    assert_eq!(accuracy_percent(754), 75);
    assert_eq!(accuracy_percent(755), 76);
    assert_eq!(accuracy_percent(1000), 100);
}
