use glyphfall::settings::{default_music, default_sfx, gain, goal_label, Settings, DAILY_GOALS, FORMAT_VERSION, MAX_LEVEL};

#[test]
fn a_level_maps_to_a_gain_between_zero_and_one() {
    let mut settings = Settings::default();

    settings.music = 0;
    assert_eq!(settings.music_gain(), 0);

    settings.music = MAX_LEVEL;
    assert_eq!(settings.music_gain(), 1000);

    settings.music = 5;
    assert_eq!(settings.music_gain(), 500);
}

#[test]
fn the_round_is_quieter_than_the_menus_by_default() {
    let settings = Settings::default();

    assert!(settings.music_game < settings.music);
}

#[test]
fn settings_survive_a_round_trip() {
    let settings = Settings { version: FORMAT_VERSION, music: 3, music_game: 2, sfx: 9, daily_goal: Some(30) };

    let read = Settings::from_saved(settings);

    assert_eq!(read.music, 3);
    assert_eq!(read.music_game, 2);
    assert_eq!(read.sfx, 9);
    assert_eq!(read.daily_goal, Some(30));
}

#[test]
fn a_hand_edited_file_cannot_push_the_volume_past_the_maximum() {
    let parsed = Settings { version: 1, music: 200, music_game: 99, sfx: 42, daily_goal: None };

    let settings = parsed.clamped();

    assert_eq!(settings.music, MAX_LEVEL);
    assert_eq!(settings.sfx, MAX_LEVEL);
    assert_eq!(settings.music_game, MAX_LEVEL);
    assert_eq!(settings.music_gain(), 1000);
}

#[test]
fn a_partial_file_keeps_the_defaults_for_what_is_missing() {
    let settings = Settings { music: 2, ..Settings::default() };

    assert_eq!(settings.music, 2);
    assert_eq!(settings.sfx, default_sfx());
}

#[test]
fn durations_read_the_way_one_says_them() {
    assert_eq!(goal_label(0), "AUCUN");
    assert_eq!(goal_label(5), "5 MIN");
    assert_eq!(goal_label(30), "30 MIN");
    assert_eq!(goal_label(60), "1H");
    assert_eq!(goal_label(90), "1H30");
    assert_eq!(goal_label(120), "2H");
}

#[test]
fn never_answered_is_not_the_same_as_disabled() {
    let untouched = Settings::default();
    assert!(untouched.daily_goal.is_none());
    assert_eq!(untouched.daily_goal_minutes(), 0);

    let disabled = Settings { daily_goal: Some(0), ..Settings::default() };
    assert!(disabled.daily_goal.is_some());
    assert_eq!(disabled.daily_goal_minutes(), 0);
}

#[test]
fn every_step_maps_back_to_itself() {
    for (index, minutes) in DAILY_GOALS.iter().enumerate() {
        let settings = Settings { daily_goal: Some(*minutes), ..Settings::default() };
        assert_eq!(settings.daily_goal_step(), index);
    }
}

#[test]
fn a_hand_edited_duration_outside_the_steps_is_dropped() {
    let parsed = Settings { daily_goal: Some(37), ..Settings::default() }.clamped();

    assert_eq!(parsed.daily_goal, None);
}

#[test]
fn a_save_of_an_unknown_format_gives_the_defaults() {
    let future = Settings { version: 999, music: 1, music_game: 1, sfx: 1, daily_goal: Some(5) };

    let read = Settings::from_saved(future);

    assert_eq!(read.music, default_music());
    assert_eq!(read.daily_goal, None);
}

#[test]
fn odd_durations_read_in_hours_and_minutes() {
    assert_eq!(goal_label(75), "1H15");
    assert_eq!(goal_label(125), "2H05");
    assert_eq!(goal_label(59), "59 MIN");
}

#[test]
fn a_level_beyond_the_maximum_sounds_as_loud_as_the_maximum() {
    assert_eq!(gain(250), 1000);
    assert_eq!(gain(3), 300);
    let settings = Settings { sfx: 8, music_game: 4, ..Settings::default() };
    assert_eq!(settings.sfx_gain(), 800);
    assert_eq!(settings.music_game_gain(), 400);
}
