use glyphfall::mode::Mode;
use glyphfall::model::{Catalog, GameMode, Glyph, Language, Level, Rules, Stars};
use glyphfall::progress::{Progress, FORMAT_VERSION, STRONGEST, WEAKEST};

fn level(id: &str, requires: &[&str]) -> Level {
    Level {
        id: id.to_string(),
        title: id.to_string(),
        subtitle: String::new(),
        order: 1,
        requires: requires.iter().map(|s| s.to_string()).collect(),
        mode: GameMode::default(),
        rules: Rules::default(),
        stars: Stars { one: 500, two: 750, three: 900 },
        glyphs: vec![Glyph { char: "ㄱ".into(), answers: vec!["g".into()], mnemonics: vec!["un coin".into()] }],
    }
}

fn reread(progress: &Progress) -> Progress {
    Progress::from_saved(
        progress.version(),
        &progress.best_pairs(),
        &progress.sign_pairs(),
        &progress.mode_pairs(),
        &progress.legacy_pairs(),
    )
}

#[test]
fn a_level_without_prerequisites_is_open_from_the_start() {
    let progress = Progress::new();

    assert!(progress.is_unlocked(&level("ko-01", &[])));
}

#[test]
fn a_level_stays_locked_until_all_its_prerequisites_are_done() {
    let mut progress = Progress::new();
    let target = level("ko-03", &["ko-01", "ko-02"]);

    assert!(!progress.is_unlocked(&target));

    progress.record("ko-01", 3);
    assert!(!progress.is_unlocked(&target), "un seul prérequis ne suffit pas");

    progress.record("ko-02", 1);
    assert!(progress.is_unlocked(&target));
}

#[test]
fn one_star_is_enough_to_open_the_next_level() {
    let mut progress = Progress::new();
    progress.record("ko-01", 1);

    assert!(progress.is_completed("ko-01"));
    assert!(progress.is_unlocked(&level("ko-02", &["ko-01"])));
}

#[test]
fn a_worse_run_never_lowers_the_best_score() {
    let mut progress = Progress::new();

    assert!(progress.record("ko-01", 3));
    assert!(!progress.record("ko-01", 1), "ce n'est pas un nouveau record");
    assert_eq!(progress.stars("ko-01"), 3);
}

#[test]
fn a_mode_opens_only_once_the_previous_one_is_mastered() {
    let mut progress = Progress::new();

    assert!(progress.mode_unlocked("ko-01", Mode::Normal), "le normal est toujours ouvert");
    assert!(!progress.mode_unlocked("ko-01", Mode::Fast));

    progress.record("ko-01", 2);
    assert!(!progress.mode_unlocked("ko-01", Mode::Fast), "deux etoiles ne suffisent pas");

    progress.record("ko-01", 3);
    assert!(progress.mode_unlocked("ko-01", Mode::Fast));
    assert!(!progress.mode_unlocked("ko-01", Mode::Ultra));

    progress.record_mode("ko-01", Mode::Fast, true, 0);
    assert!(progress.mode_unlocked("ko-01", Mode::Ultra));
    assert!(!progress.mode_unlocked("ko-01", Mode::Endless));

    progress.record_mode("ko-01", Mode::Ultra, true, 0);
    assert!(progress.mode_unlocked("ko-01", Mode::Endless));
}

#[test]
fn only_a_flawless_round_earns_a_coloured_star() {
    let mut progress = Progress::new();

    assert!(!progress.record_mode("ko-01", Mode::Fast, false, 0));
    assert!(!progress.modes("ko-01").fast_perfect);

    assert!(progress.record_mode("ko-01", Mode::Fast, true, 0));
    assert!(progress.modes("ko-01").fast_perfect);
}

#[test]
fn an_already_earned_star_is_not_earned_twice() {
    let mut progress = Progress::new();
    progress.record_mode("ko-01", Mode::Fast, true, 0);

    assert!(!progress.record_mode("ko-01", Mode::Fast, true, 0), "plus rien de neuf");
}

#[test]
fn the_endless_mode_only_keeps_the_best_score() {
    let mut progress = Progress::new();

    assert!(progress.record_mode("ko-01", Mode::Endless, false, 300));
    assert_eq!(progress.modes("ko-01").endless_best, 300);

    assert!(!progress.record_mode("ko-01", Mode::Endless, false, 120), "moins bien");
    assert_eq!(progress.modes("ko-01").endless_best, 300);

    assert!(progress.record_mode("ko-01", Mode::Endless, false, 900));
    assert_eq!(progress.modes("ko-01").endless_best, 900);
}

#[test]
fn modes_survive_a_round_trip() {
    let mut progress = Progress::new();
    progress.record_mode("ko-01", Mode::Fast, true, 0);
    progress.record_mode("ko-01", Mode::Endless, false, 750);

    let read = reread(&progress);

    assert!(read.modes("ko-01").fast_perfect);
    assert!(!read.modes("ko-01").ultra_perfect);
    assert_eq!(read.modes("ko-01").endless_best, 750);
}

#[test]
fn an_older_save_simply_has_no_modes_yet() {
    let progress = Progress::from_saved(1, &vec![("ko-01".to_string(), 3)], &Vec::new(), &Vec::new(), &Vec::new());

    assert_eq!(progress.stars("ko-01"), 3);
    assert!(progress.mode_unlocked("ko-01", Mode::Fast), "les trois etoiles comptent");
    assert!(!progress.modes("ko-01").fast_perfect);
}

#[test]
fn a_save_survives_a_round_trip() {
    let mut progress = Progress::new();
    progress.record("ko-01", 3);
    progress.record("hira-01", 1);

    let read = reread(&progress);

    assert_eq!(read.stars("ko-01"), 3);
    assert_eq!(read.stars("hira-01"), 1);
    assert_eq!(read.version(), FORMAT_VERSION);
}

#[test]
fn a_save_from_an_unknown_format_is_ignored() {
    let parsed = Progress::from_saved(999, &vec![("ko-01".to_string(), 3)], &Vec::new(), &Vec::new(), &Vec::new());

    assert_eq!(parsed.stars("ko-01"), 0, "on repart de zéro");
    assert_eq!(parsed.version(), FORMAT_VERSION);
}

#[test]
fn a_missed_sign_comes_back_more_often_than_a_known_one() {
    let mut progress = Progress::new();

    progress.note("ko", "\u{3131}", 3, 0);
    progress.note("ko", "\u{3134}", 0, 1);

    assert!(
        progress.draw_weight("ko", "\u{3134}") > progress.draw_weight("ko", "\u{3131}"),
        "le signe rate doit peser plus lourd dans le tirage"
    );
    assert!(progress.is_shaky("ko", "\u{3134}"));
    assert!(!progress.is_shaky("ko", "\u{3131}"));
}

#[test]
fn a_mistake_costs_more_than_a_success_earns() {
    let mut progress = Progress::new();

    progress.note("ko", "\u{3131}", 2, 1);

    assert_eq!(progress.mastery("ko", "\u{3131}"), 0, "deux bonnes et une ratee s'annulent");
}

#[test]
fn mastery_stays_within_its_bounds() {
    let mut progress = Progress::new();

    progress.note("ko", "\u{3131}", 100, 0);
    assert_eq!(progress.mastery("ko", "\u{3131}"), STRONGEST);
    assert_eq!(progress.draw_weight("ko", "\u{3131}"), 1, "un signe acquis garde une chance");

    progress.note("ko", "\u{3134}", 0, 100);
    assert_eq!(progress.mastery("ko", "\u{3134}"), WEAKEST);
}

#[test]
fn an_unseen_sign_sits_in_the_middle() {
    let progress = Progress::new();

    assert_eq!(progress.mastery("ko", "\u{3131}"), 0);
    assert!(!progress.is_shaky("ko", "\u{3131}"), "jamais vu n'est pas fragile, juste inconnu");
}

#[test]
fn mastery_survives_a_round_trip() {
    let mut progress = Progress::new();
    progress.note("ko", "\u{3131}", 4, 0);
    progress.note("ko", "\u{3134}", 0, 2);

    let read = reread(&progress);

    assert_eq!(read.mastery("ko", "\u{3131}"), 4);
    assert_eq!(read.mastery("ko", "\u{3134}"), -4);
}

#[test]
fn a_zero_star_run_does_not_complete_the_level() {
    let mut progress = Progress::new();
    progress.record("ko-01", 0);

    assert!(!progress.is_completed("ko-01"));
}

#[test]
fn masteries_are_kept_per_script() {
    let mut progress = Progress::new();
    progress.note("ko", "a", 0, 2);

    assert_eq!(progress.mastery("ko", "a"), -4);
    assert_eq!(progress.mastery("ja", "a"), 0);
    assert_eq!(progress.learned_signs("ko"), vec!["a".to_string()]);
    assert!(progress.learned_signs("ja").is_empty());
}

#[test]
fn more_than_three_stars_count_as_three() {
    let mut progress = Progress::new();

    assert!(progress.record("ko-01", 7));
    assert_eq!(progress.stars("ko-01"), 3);
    assert!(!progress.record("ko-01", 3));
}

#[test]
fn the_stars_of_a_script_add_up() {
    let mut progress = Progress::new();
    progress.record("ko-01", 2);
    progress.record("ko-02", 3);
    let language = Language {
        id: "ko".into(),
        name: "Coréen".into(),
        native_name: "한국어".into(),
        description: String::new(),
        fonts: Vec::new(),
        levels: vec![level("ko-01", &[]), level("ko-02", &["ko-01"]), level("ko-03", &["ko-02"])],
    };

    assert_eq!(progress.language_stars(&language), (5, 9));
}

#[test]
fn each_mode_says_what_opens_it() {
    assert_eq!(Progress::unlock_requirement(Mode::Fast), "3 ETOILES EN NORMAL");
    assert_eq!(Progress::unlock_requirement(Mode::Ultra), "SANS FAUTE EN RAPIDE");
    assert_eq!(Progress::unlock_requirement(Mode::Endless), "SANS FAUTE EN ULTRA");
}

#[test]
fn a_sign_seen_with_an_even_score_is_still_learned() {
    let mut progress = Progress::new();

    progress.note("ko", "\u{3131}", 2, 1);

    assert_eq!(progress.mastery("ko", "\u{3131}"), 0);
    assert_eq!(progress.learned_signs("ko"), vec!["\u{3131}".to_string()]);
}

fn korean(levels: Vec<Level>) -> Catalog {
    Catalog {
        languages: vec![Language {
            id: "ko".into(),
            name: "Coréen".into(),
            native_name: "한국어".into(),
            description: String::new(),
            fonts: Vec::new(),
            levels,
        }],
    }
}

#[test]
fn the_former_table_is_filed_under_its_script_once() {
    let catalog = korean(vec![level("ko-01", &[])]);
    let mut progress = Progress::from_saved(
        FORMAT_VERSION,
        &Vec::new(),
        &Vec::new(),
        &Vec::new(),
        &vec![("ㄱ".to_string(), -2), ("zz".to_string(), 3)],
    );

    assert!(progress.migrate(&catalog));
    assert_eq!(progress.mastery("ko", "ㄱ"), -2);
    assert!(!progress.learned_signs("ko").contains(&"zz".to_string()), "a sign no script teaches is dropped");
    assert!(progress.legacy_pairs().is_empty());

    let settled = reread(&progress);
    assert!(!progress.migrate(&catalog), "a second migration moves nothing");
    assert_eq!(progress.mastery("ko", "ㄱ"), -2);
    assert_eq!(progress.sign_pairs(), settled.sign_pairs());
}

#[test]
fn a_saved_former_mastery_out_of_bounds_is_brought_back() {
    let progress = Progress::from_saved(FORMAT_VERSION, &Vec::new(), &Vec::new(), &Vec::new(), &vec![("ㄱ".to_string(), 100)]);

    assert_eq!(progress.legacy_pairs(), vec![("ㄱ".to_string(), STRONGEST)]);
}

#[test]
fn everything_survives_a_round_trip() {
    let mut progress = Progress::new();
    progress.record("ko-01", 2);
    progress.note("ko", "ㄱ", 3, 0);
    progress.note("ja", "あ", 0, 1);
    progress.record_mode("ko-01", Mode::Endless, false, 42);

    let read = reread(&progress);

    assert_eq!(read.best_pairs(), progress.best_pairs());
    assert_eq!(read.sign_pairs(), progress.sign_pairs());
    assert_eq!(read.mode_pairs(), progress.mode_pairs());
    assert_eq!(read.legacy_pairs(), progress.legacy_pairs());
    assert_eq!(read.stars("ko-01"), 2);
    assert_eq!(read.mastery("ja", "あ"), -2);
}
