use glyphfall::daily::{Daily, FORMAT_VERSION, SAVE_EVERY_MS};

const TODAY: i64 = 20_000;

fn at(day: i64, learned_ms: u64) -> Daily {
    Daily { version: FORMAT_VERSION, day, learned_ms, alerted: false, since_save_ms: 0 }
}

#[test]
fn a_save_from_another_day_starts_over() {
    let yesterday = at(19_000, 3_600_000).rolled_over(19_001);

    assert_eq!(yesterday.learned_ms, 0);
    assert!(!yesterday.alerted);
}

#[test]
fn a_save_from_today_is_kept() {
    let same_day = at(19_000, 600_000).rolled_over(19_000);

    assert_eq!(same_day.learned_ms, 600_000);
}

#[test]
fn the_goal_is_reached_at_the_exact_minute() {
    let mut daily = at(TODAY, 0);

    daily.learned_ms = 29 * 60_000;
    assert!(!daily.goal_reached(30));

    daily.learned_ms = 30 * 60_000;
    assert!(daily.goal_reached(30));
}

#[test]
fn a_disabled_goal_never_alerts() {
    let daily = at(TODAY, 10_000_000);

    assert!(!daily.goal_reached(0));
}

#[test]
fn the_alert_only_shows_once() {
    let mut daily = at(TODAY, 60 * 60_000);

    assert!(daily.goal_reached(30));
    daily.mark_alerted();
    assert!(!daily.goal_reached(30), "l'alerte reviendrait toutes les frames");
}

#[test]
fn crossing_midnight_resets_without_leaving_the_game() {
    let mut daily = at(TODAY - 1, 3_600_000);
    daily.alerted = true;

    daily.add(1_000, TODAY);

    assert!(daily.learned_ms < 2_000, "le compteur d'hier doit disparaitre");
    assert!(!daily.alerted);
    assert_eq!(daily.day, TODAY);
}

#[test]
fn the_count_asks_to_be_written_every_twenty_seconds() {
    let mut daily = Daily::starting(TODAY);

    assert!(!daily.add(SAVE_EVERY_MS - 1, TODAY));
    assert!(daily.add(1, TODAY));
    assert_eq!(daily.since_save_ms, 0);
    assert_eq!(daily.learned_ms, SAVE_EVERY_MS);
}

#[test]
fn minutes_are_whole() {
    assert_eq!(at(TODAY, 119_999).minutes(), 1);
    assert_eq!(at(TODAY, 120_000).minutes(), 2);
}

#[test]
fn a_save_of_another_format_starts_over() {
    let saved = Daily { version: 7, day: TODAY, learned_ms: 500_000, alerted: true, since_save_ms: 3 };

    assert_eq!(Daily::from_saved(saved, TODAY), Daily::starting(TODAY));

    let good = Daily { version: FORMAT_VERSION, ..saved };
    let read = Daily::from_saved(good, TODAY);
    assert_eq!(read.learned_ms, 500_000);
    assert_eq!(read.since_save_ms, 0);
}
