use glyphfall::mode::Mode;
use glyphfall::model::{Catalog, GameMode, Glyph, Language, Level, Rules, Speed, Stars};
use glyphfall::progress::Progress;
use glyphfall::session::{
    reviews, EndReason, Event, Session, Tile, CLEAR_FLASH_MS, MAX_RETRIES, POINTS_PER_HIT, RETRY_AFTER, TARGET_Y,
    TILE_HEIGHT,
};

fn glyph(character: &str, answer: &str) -> Glyph {
    Glyph { char: character.to_string(), answers: vec![answer.to_string()], mnemonics: vec!["un moyen".to_string()] }
}

fn level(id: &str, requires: &[&str], glyphs: Vec<Glyph>) -> Level {
    Level {
        id: id.to_string(),
        title: id.to_string(),
        subtitle: String::new(),
        order: 1,
        requires: requires.iter().map(|s| s.to_string()).collect(),
        mode: GameMode::TileFall,
        rules: Rules { speed: Speed { start: 100_000, ramp: 0, max: 100_000 }, ..Rules::default() },
        stars: Stars { one: 500, two: 750, three: 900 },
        glyphs,
    }
}

fn catalog(levels: Vec<Level>) -> Catalog {
    Catalog {
        languages: vec![Language {
            id: "ko".into(),
            name: "Coréen".into(),
            native_name: "한국어".into(),
            description: String::new(),
            fonts: Vec::new(),
            levels,
        }],
    }
}

fn session(levels: Vec<Level>, level_id: &str) -> Session {
    let catalog = catalog(levels);
    Session::new(&catalog, &Progress::new(), "ko", level_id, Mode::Normal, 1).expect("niveau présent")
}

fn falling_tile(session: &mut Session, character: &str, answer: &str, y: i64) {
    session.tiles.push(Tile { column: 0, y, glyph: glyph(character, answer), cleared: None, font: 0 });
}

const ABOUT_TO_FALL: i64 = TARGET_Y - TILE_HEIGHT - 1_000;

#[test]
fn rules_come_from_the_level_file() {
    let mut level = level("ko-01", &[], vec![glyph("ㄱ", "g")]);
    level.rules.lives = 5;
    level.rules.columns = 6;
    level.rules.duration_ms = 42_000;

    let session = session(vec![level], "ko-01");

    assert_eq!(session.lives, 5);
    assert_eq!(session.rules.columns, 6);
    assert_eq!(session.time_left_ms, 42_000);
}

#[test]
fn a_correct_answer_clears_the_lowest_matching_tile_only() {
    let mut session = session(vec![level("ko-01", &[], vec![glyph("ㄱ", "g")])], "ko-01");
    falling_tile(&mut session, "ㄱ", "g", 10_000);
    falling_tile(&mut session, "ㄱ", "g", 90_000);

    session.input = "g".into();
    session.validate();

    assert_eq!(session.hits, 1);
    let cleared: Vec<_> = session.tiles.iter().filter(|tile| tile.is_cleared()).collect();
    assert_eq!(cleared.len(), 1);
    assert_eq!(cleared[0].y, 90_000, "la tuile la plus basse doit partir");
}

#[test]
fn a_wrong_answer_counts_against_accuracy() {
    let mut session = session(vec![level("ko-01", &[], vec![glyph("ㄱ", "g")])], "ko-01");
    falling_tile(&mut session, "ㄱ", "g", 10_000);

    session.input = "zzz".into();
    session.validate();

    assert_eq!(session.wrong, 1);
    assert_eq!(session.hits, 0);
    assert_eq!(session.accuracy(), 0);
}

#[test]
fn an_empty_validation_is_ignored() {
    let mut session = session(vec![level("ko-01", &[], vec![glyph("ㄱ", "g")])], "ko-01");

    session.validate();
    session.validate();

    assert_eq!(session.wrong, 0);
}

#[test]
fn several_tiles_lost_on_one_frame_cost_several_lives() {
    let mut session = session(vec![level("ko-01", &[], vec![glyph("ㄱ", "g")])], "ko-01");
    session.lives = 3;
    falling_tile(&mut session, "ㄱ", "g", ABOUT_TO_FALL);
    falling_tile(&mut session, "ㄴ", "n", ABOUT_TO_FALL);

    session.advance_tiles(500);

    assert_eq!(session.lives, 1);
    assert_eq!(session.missed, 2);
    assert!(session.tiles.is_empty(), "les tuiles perdues quittent l'écran");
}

#[test]
fn missed_glyphs_are_listed_once_each() {
    let mut session = session(vec![level("ko-01", &[], vec![glyph("ㄱ", "g")])], "ko-01");
    session.lives = 9;
    for _ in 0..3 {
        falling_tile(&mut session, "ㄱ", "g", ABOUT_TO_FALL);
    }

    session.advance_tiles(500);

    assert_eq!(session.missed_glyphs, vec!["ㄱ".to_string()]);
}

#[test]
fn a_cleared_tile_stops_falling_and_leaves_after_its_flash() {
    let mut session = session(vec![level("ko-01", &[], vec![glyph("ㄱ", "g")])], "ko-01");
    falling_tile(&mut session, "ㄱ", "g", 10_000);
    session.input = "g".into();
    session.validate();

    session.advance_tiles(CLEAR_FLASH_MS / 2);
    assert_eq!(session.tiles.len(), 1);
    assert_eq!(session.tiles[0].y, 10_000, "une tuile validée ne bouge plus");

    session.advance_tiles(CLEAR_FLASH_MS);
    assert!(session.tiles.is_empty());
}

#[test]
fn review_draws_from_prerequisites() {
    let levels = vec![level("ko-01", &[], vec![glyph("ㄱ", "g")]), level("ko-02", &["ko-01"], vec![glyph("ㅏ", "a")])];
    let session = session(levels, "ko-02");

    assert_eq!(session.review.len(), 1);
    assert_eq!(session.review[0].char, "ㄱ");
}

#[test]
fn review_reaches_back_through_the_whole_chain() {
    let levels = vec![
        level("ko-01", &[], vec![glyph("ㄱ", "g")]),
        level("ko-02", &["ko-01"], vec![glyph("ㄴ", "n")]),
        level("ko-03", &["ko-02"], vec![glyph("ㄷ", "d")]),
        level("ko-04", &["ko-03"], vec![glyph("ㄹ", "r")]),
    ];
    let session = session(levels, "ko-04");

    let mut revised: Vec<&str> = session.review.iter().map(|g| g.char.as_str()).collect();
    revised.sort_unstable();
    assert_eq!(revised, vec!["ㄱ", "ㄴ", "ㄷ"]);
}

#[test]
fn a_sign_repeated_by_a_revision_level_is_not_drawn_twice_as_often() {
    let levels = vec![
        level("ko-01", &[], vec![glyph("ㄱ", "g")]),
        level("ko-02", &["ko-01"], vec![glyph("ㄴ", "n")]),
        level("ko-03", &["ko-02"], vec![glyph("ㄱ", "g"), glyph("ㄴ", "n")]),
        level("ko-04", &["ko-03"], vec![glyph("ㄷ", "d")]),
    ];
    let session = session(levels, "ko-04");

    assert_eq!(session.review.len(), 2, "chaque signe ne doit compter qu'une fois");
}

#[test]
fn an_entry_level_has_nothing_to_review() {
    let mut session = session(vec![level("ko-01", &[], vec![glyph("ㄱ", "g")])], "ko-01");

    assert!(session.review.is_empty());
    assert_eq!(session.pick_glyph().char, "ㄱ");
}

#[test]
fn every_new_sign_is_shown_once_before_any_repeat() {
    let glyphs = vec![glyph("ㄱ", "g"), glyph("ㄴ", "n"), glyph("ㅁ", "m")];
    let mut session = session(vec![level("ko-01", &[], glyphs)], "ko-01");

    let opening: Vec<String> = (0..3).map(|_| session.pick_glyph().char.clone()).collect();

    assert_eq!(opening, vec!["ㄱ", "ㄴ", "ㅁ"]);
}

#[test]
fn a_missed_sign_comes_back_within_the_round() {
    let glyphs = vec![glyph("ㄱ", "g"), glyph("ㄴ", "n")];
    let mut session = session(vec![level("ko-01", &[], glyphs)], "ko-01");
    session.lives = 9;
    session.warmup.clear();

    falling_tile(&mut session, "ㅁ", "m", ABOUT_TO_FALL);
    session.advance_tiles(500);
    assert_eq!(session.retry.len(), 1, "le signe rate entre en file");

    let drawn: Vec<String> = (0..RETRY_AFTER + 1)
        .map(|_| {
            session.since_retry += 1;
            session.pick_glyph().char.clone()
        })
        .collect();

    assert!(drawn.contains(&"ㅁ".to_string()), "le signe rate doit revenir : {drawn:?}");
}

#[test]
fn the_retry_queue_cannot_swallow_the_round() {
    let mut session = session(vec![level("ko-01", &[], vec![glyph("ㄱ", "g")])], "ko-01");
    session.lives = 99;

    for _ in 0..MAX_RETRIES * 3 {
        falling_tile(&mut session, "ㄱ", "g", ABOUT_TO_FALL);
        session.advance_tiles(500);
    }

    assert!(session.retry.len() <= MAX_RETRIES);
}

#[test]
fn the_round_reports_what_each_sign_gave() {
    let mut session = session(vec![level("ko-01", &[], vec![glyph("ㄱ", "g")])], "ko-01");
    session.lives = 9;

    falling_tile(&mut session, "ㄱ", "g", 10_000);
    session.input = "g".into();
    session.validate();

    falling_tile(&mut session, "ㄴ", "n", ABOUT_TO_FALL);
    session.advance_tiles(500);

    let outcome = session.outcome(EndReason::TimeUp);
    let find = |c: &str| outcome.signs.iter().find(|s| s.character == c).cloned();

    assert_eq!(find("ㄱ").map(|s| (s.hits, s.misses)), Some((1, 0)));
    assert_eq!(find("ㄴ").map(|s| (s.hits, s.misses)), Some((0, 1)));
}

#[test]
fn a_shaky_sign_is_drawn_more_often_than_a_solid_one() {
    let mut progress = Progress::new();
    progress.note("ko", "ㄱ", 0, 4);
    progress.note("ko", "ㄴ", 4, 0);

    let catalog = catalog(vec![level("ko-01", &[], vec![glyph("ㄱ", "g"), glyph("ㄴ", "n")])]);
    let mut session = Session::new(&catalog, &progress, "ko", "ko-01", Mode::Normal, 1).expect("niveau");
    session.warmup.clear();

    let mut shaky = 0;
    for _ in 0..400 {
        if session.pick_glyph().char == "ㄱ" {
            shaky += 1;
        }
    }

    assert!(shaky > 240, "le signe fragile devrait dominer, obtenu {shaky}/400");
}

#[test]
fn a_revision_only_holds_signs_already_met() {
    let levels = vec![
        level("ko-01", &[], vec![glyph("ㄱ", "g"), glyph("ㄴ", "n")]),
        level("ko-02", &["ko-01"], vec![glyph("ㄷ", "d")]),
    ];
    let catalog = catalog(levels);

    let mut progress = Progress::new();
    progress.note("ko", "ㄱ", 1, 0);
    progress.note("ko", "ㄴ", 0, 1);

    let session = Session::revision(&catalog, &progress, "ko", 1).expect("de quoi reviser");

    let mut signs: Vec<&str> = session.glyphs.iter().map(|g| g.char.as_str()).collect();
    signs.sort_unstable();
    assert_eq!(signs, vec!["ㄱ", "ㄴ"], "le signe jamais croise reste dehors");
    assert!(session.is_revision);
    assert!(session.warmup.is_empty(), "aucun de ces signes n'est nouveau");
}

#[test]
fn an_untouched_alphabet_has_nothing_to_revise() {
    let catalog = catalog(vec![level("ko-01", &[], vec![glyph("ㄱ", "g")])]);

    assert!(Session::revision(&catalog, &Progress::new(), "ko", 1).is_none());
}

#[test]
fn a_revision_earns_no_star_but_still_teaches() {
    let catalog = catalog(vec![level("ko-01", &[], vec![glyph("ㄱ", "g")])]);
    let mut progress = Progress::new();
    progress.note("ko", "ㄱ", 1, 0);

    let mut session = Session::revision(&catalog, &progress, "ko", 1).expect("de quoi reviser");
    falling_tile(&mut session, "ㄱ", "g", 10_000);
    session.input = "g".into();
    session.validate();

    let outcome = session.outcome(EndReason::TimeUp);

    assert!(outcome.is_revision);
    assert_eq!(outcome.signs.len(), 1, "la maitrise est bien mise a jour");
}

#[test]
fn each_mode_hardens_the_rules_of_its_level() {
    let calm = Rules { speed: Speed { start: 40_000, ramp: 1_000, max: 100_000 }, ..Rules::default() };

    let normal = Mode::Normal.apply(&calm);
    let fast = Mode::Fast.apply(&calm);
    let ultra = Mode::Ultra.apply(&calm);

    assert_eq!(normal.speed.start, calm.speed.start);
    assert!(fast.speed.start > normal.speed.start);
    assert!(ultra.speed.start > fast.speed.start);
    assert!(ultra.spawn_interval_ms < fast.spawn_interval_ms);
    assert!(fast.spawn_interval_ms < normal.spawn_interval_ms);
}

#[test]
fn the_endless_mode_has_no_clock_and_no_ceiling() {
    let base = Rules { duration_ms: 90_000, ..Rules::default() };

    let endless = Mode::Endless.apply(&base);

    assert!(!endless.is_timed(), "un chronometre bornerait l'infini");
    assert!(endless.speed.start < base.speed.start);
    assert!(endless.speed.ramp > base.speed.ramp);
    assert!(endless.speed.max > base.speed.max * 2);
}

#[test]
fn a_flawless_round_is_reported_as_such() {
    let mut session = session(vec![level("ko-01", &[], vec![glyph("\u{3131}", "g")])], "ko-01");
    falling_tile(&mut session, "\u{3131}", "g", 10_000);
    session.input = "g".into();
    session.validate();

    assert!(session.outcome(EndReason::TimeUp).is_perfect);
}

#[test]
fn a_single_slip_ruins_a_flawless_round() {
    let mut session = session(vec![level("ko-01", &[], vec![glyph("\u{3131}", "g")])], "ko-01");
    session.lives = 9;

    falling_tile(&mut session, "\u{3131}", "g", 10_000);
    session.input = "g".into();
    session.validate();
    session.input = "zzz".into();
    session.validate();

    assert!(!session.outcome(EndReason::TimeUp).is_perfect);
}

#[test]
fn an_empty_round_is_not_flawless() {
    let session = session(vec![level("ko-01", &[], vec![glyph("\u{3131}", "g")])], "ko-01");

    assert!(!session.outcome(EndReason::TimeUp).is_perfect, "rester immobile n'est pas parfait");
}

#[test]
fn a_single_tracing_always_draws_the_same_one() {
    let mut session = session(vec![level("ko-01", &[], vec![glyph("\u{3131}", "g")])], "ko-01");

    for _ in 0..20 {
        session.spawn(session.rules.spawn_interval_ms + 100);
    }

    assert!(session.tiles.iter().all(|tile| tile.font == 0));
}

#[test]
fn several_tracings_get_mixed() {
    let catalog = catalog(vec![level("ko-01", &[], vec![glyph("\u{3131}", "g")])]);
    let mut session = Session::new(&catalog, &Progress::new(), "ko", "ko-01", Mode::Normal, 2).expect("niveau");

    for _ in 0..20 {
        session.spawn(session.rules.spawn_interval_ms + 100);
    }

    assert!(session.tiles.iter().any(|tile| tile.font == 0));
    assert!(session.tiles.iter().any(|tile| tile.font == 1));
}

#[test]
fn doing_nothing_earns_no_star() {
    let session = session(vec![level("ko-01", &[], vec![glyph("ㄱ", "g")])], "ko-01");

    let outcome = session.outcome(EndReason::TimeUp);

    assert_eq!(outcome.accuracy, 0);
    assert_eq!(outcome.stars, 0);
}

#[test]
fn a_flawless_run_earns_three_stars() {
    let mut session = session(vec![level("ko-01", &[], vec![glyph("ㄱ", "g")])], "ko-01");
    for _ in 0..10 {
        falling_tile(&mut session, "ㄱ", "g", 10_000);
        session.input = "g".into();
        session.validate();
    }

    let outcome = session.outcome(EndReason::TimeUp);

    assert_eq!(outcome.accuracy, 1000);
    assert_eq!(outcome.stars, 3);
    assert_eq!(outcome.score, 10 * POINTS_PER_HIT);
}

#[test]
fn columns_divide_the_playfield_into_whole_pixels() {
    let mut level = level("ko-01", &[], vec![glyph("ㄱ", "g")]);
    level.rules.columns = 5;

    let session = session(vec![level], "ko-01");

    assert_eq!(session.tile_width(), 38);
    assert_eq!(session.playfield_x(), 97);
}

#[test]
fn an_unknown_level_gives_no_round() {
    let catalog = catalog(vec![level("ko-01", &[], vec![glyph("ㄱ", "g")])]);

    assert!(Session::new(&catalog, &Progress::new(), "ko", "ko-09", Mode::Normal, 1).is_none());
    assert!(Session::new(&catalog, &Progress::new(), "ja", "ko-01", Mode::Normal, 1).is_none());
}

#[test]
fn typing_keeps_letters_and_digits_in_lower_case() {
    let mut session = session(vec![level("ko-01", &[], vec![glyph("ㄱ", "g")])], "ko-01");

    session.type_letter('G');
    session.type_letter(' ');
    session.type_letter('!');
    session.type_letter('2');
    assert_eq!(session.input, "g2");

    session.erase();
    assert_eq!(session.input, "g");
    session.erase();
    session.erase();
    assert_eq!(session.input, "");
}

#[test]
fn a_frame_moves_tiles_at_the_speed_of_the_level() {
    let mut session = session(vec![level("ko-01", &[], vec![glyph("ㄱ", "g")])], "ko-01");
    falling_tile(&mut session, "ㄱ", "g", 0);

    session.advance_tiles(250);

    assert_eq!(session.tiles[0].y, 25_000);
}

#[test]
fn the_round_ends_when_the_clock_runs_out() {
    let mut level = level("ko-01", &[], vec![glyph("ㄱ", "g")]);
    level.rules.duration_ms = 1_000;
    let mut session = session(vec![level], "ko-01");

    assert!(session.update(400).is_none());
    assert_eq!(session.time_ratio(), 600);
    let outcome = session.update(700).expect("le temps est écoulé");

    assert_eq!(outcome.reason, EndReason::TimeUp);
    assert_eq!(session.time_left_ms, 0);
}

#[test]
fn the_round_ends_when_the_lives_run_out() {
    let mut session = session(vec![level("ko-01", &[], vec![glyph("ㄱ", "g")])], "ko-01");
    session.lives = 1;
    falling_tile(&mut session, "ㄱ", "g", ABOUT_TO_FALL);

    let outcome = session.update(500).expect("plus de vie");

    assert_eq!(outcome.reason, EndReason::OutOfLives);
    assert_eq!(outcome.missed_glyphs, vec!["ㄱ".to_string()]);
    assert!(session.take_events().contains(&Event::Missed));
    assert!(session.take_events().is_empty(), "les événements se lisent une fois");
    assert!(session.shake_strength() > 0);
}

#[test]
fn an_untimed_round_keeps_an_empty_gauge() {
    let session = session(vec![level("ko-01", &[], vec![glyph("ㄱ", "g")])], "ko-01");

    assert_eq!(session.time_ratio(), 0);
    assert_eq!(session.shake_strength(), 0);
}

#[test]
fn a_tile_appears_once_the_interval_has_passed() {
    let mut session = session(vec![level("ko-01", &[], vec![glyph("ㄱ", "g")])], "ko-01");
    let interval = session.rules.spawn_interval_ms;

    session.spawn(interval - 1);
    assert!(session.tiles.is_empty());
    session.spawn(1);

    assert_eq!(session.tiles.len(), 1);
    assert_eq!(session.tiles[0].y, -TILE_HEIGHT);
    assert!(session.tiles[0].column >= 0 && session.tiles[0].column < session.rules.columns);
    assert_eq!(session.spawned, 1);
    assert_eq!(session.spawn_timer_ms, 0);
}

#[test]
fn a_sign_just_missed_does_not_come_back_at_once() {
    let glyphs = vec![glyph("ㄱ", "g"), glyph("ㄴ", "n")];
    let mut session = session(vec![level("ko-01", &[], glyphs)], "ko-01");
    session.lives = 9;
    session.warmup.clear();
    session.since_retry = 5;

    falling_tile(&mut session, "ㅁ", "m", ABOUT_TO_FALL);
    session.advance_tiles(500);
    assert_eq!(session.retry.len(), 1);
    assert_eq!(session.since_retry, 0, "the wait starts over at the miss");

    for _ in 1..RETRY_AFTER {
        session.since_retry += 1;
        assert_ne!(session.pick_glyph().char, "ㅁ", "the correction has to be read first");
    }
    session.since_retry += 1;
    assert_eq!(session.pick_glyph().char, "ㅁ");
    assert!(session.retry.is_empty());
}

#[test]
fn a_roll_below_the_review_share_reviews() {
    assert!(reviews(0, 300, true));
    assert!(reviews(299, 300, true));
    assert!(!reviews(300, 300, true), "the share is a strict bound");
    assert!(!reviews(999, 300, true));
    assert!(!reviews(0, 0, true), "no share, no review");
    assert!(!reviews(0, 1000, false), "nothing to review");
    assert!(reviews(999, 1000, true), "a whole share always reviews");
}

#[test]
fn a_draw_takes_the_pool_it_is_told() {
    let levels = vec![level("ko-01", &[], vec![glyph("ㄱ", "g")]), level("ko-02", &["ko-01"], vec![glyph("ㅏ", "a")])];
    let session = session(levels, "ko-02");

    for _ in 0..20 {
        assert_eq!(session.draw_glyph(true).char, "ㄱ");
        assert_eq!(session.draw_glyph(false).char, "ㅏ");
    }
}
