use glyphfall::music::{is_audio_extension, shuffled, Ambience, MusicState, Playlist, GAP_MS};

const TRACKS: usize = 3;

#[test]
fn only_audio_files_are_picked_up() {
    assert!(is_audio_extension("mp3"));
    assert!(is_audio_extension("OGG"));
    assert!(is_audio_extension("Wav"));
    assert!(!is_audio_extension("md"));
    assert!(!is_audio_extension(""));
}

#[test]
fn the_order_covers_every_track_exactly_once() {
    let mut playlist = Playlist::new(TRACKS);
    playlist.reshuffle();

    let mut seen = playlist.order.clone();
    seen.sort_unstable();
    assert_eq!(seen, (0..TRACKS).collect::<Vec<_>>());
}

#[test]
fn a_new_round_never_opens_on_the_track_that_just_played() {
    let mut playlist = Playlist::new(TRACKS);

    for _ in 0..200 {
        let previous = playlist.last;
        let index = playlist.take_next().expect("liste non vide");
        if playlist.next == 1 {
            assert_ne!(Some(index), previous, "deux fois le meme morceau de suite");
        }
    }
}

#[test]
fn an_empty_folder_is_not_an_error() {
    let mut playlist = Playlist::new(TRACKS);
    playlist.tracks = 0;
    playlist.last = None;
    playlist.reshuffle();

    assert!(playlist.is_empty());
    assert!(playlist.take_next().is_none());
}

#[test]
fn each_ambience_uses_its_own_volume() {
    let mut music = MusicState::new(1000, 400);

    music.current = Some(Ambience::Menus);
    assert_eq!(music.gain(), 1000);

    music.current = Some(Ambience::Game);
    assert_eq!(music.gain(), 400);
}

#[test]
fn a_preview_lets_you_hear_the_other_ambience() {
    let mut music = MusicState::new(1000, 400);
    music.current = Some(Ambience::Menus);

    music.preview = Some(Ambience::Game);

    assert_eq!(music.gain(), 400);
}

#[test]
fn a_single_track_plays_again_and_again() {
    let mut playlist = Playlist::new(1);

    assert_eq!(playlist.take_next(), Some(0));
    assert_eq!(playlist.take_next(), Some(0));
}

#[test]
fn a_change_of_ambience_cuts_and_starts_at_once() {
    let mut music = MusicState::new(600, 400);

    let first = music.step(16, Ambience::Menus, false);
    assert!(first.start_next);
    assert!(!first.stop);
    music.started(1_000);

    let calm = music.step(16, Ambience::Menus, false);
    assert!(!calm.start_next && !calm.stop);

    let switch = music.step(16, Ambience::Game, false);
    assert!(switch.stop, "le morceau des menus est coupé net");
    assert!(switch.start_next, "la musique de manche part sans attendre");
}

#[test]
fn a_track_that_ends_leaves_a_silence() {
    let mut music = MusicState::new(600, 400);
    music.step(16, Ambience::Menus, false);
    music.started(100);

    let end = music.step(200, Ambience::Menus, false);
    assert!(end.stop);
    assert!(!end.start_next, "un silence sépare deux morceaux");
    assert_eq!(music.silence_ms, GAP_MS - 200);

    let next = music.step(GAP_MS, Ambience::Menus, false);
    assert!(next.start_next);
}

#[test]
fn a_preview_asks_to_apply_the_volume_once() {
    let mut music = MusicState::new(600, 400);
    music.step(16, Ambience::Menus, true);

    music.preview(Ambience::Game);
    assert!(music.step(16, Ambience::Menus, true).apply_volume);
    assert_eq!(music.gain(), 400);

    music.preview(Ambience::Game);
    assert!(!music.step(16, Ambience::Menus, true).apply_volume);

    assert!(music.step(16, Ambience::Menus, true).apply_volume, "l'aperçu cesse quand on ne le demande plus");
    assert_eq!(music.gain(), 600);
}

#[test]
fn volumes_never_exceed_the_whole() {
    let mut music = MusicState::new(0, 0);
    music.set_volumes(5_000, 300);

    assert_eq!(music.menus_volume, 1000);
    assert_eq!(music.game_volume, 300);
}

#[test]
fn the_shuffle_swaps_each_place_with_the_one_drawn() {
    assert_eq!(shuffled(4, &vec![0, 0, 0]), vec![1, 2, 3, 0]);
    assert_eq!(shuffled(4, &vec![1, 2, 0]), vec![3, 0, 2, 1]);
    assert_eq!(shuffled(4, &vec![3, 2, 1]), vec![0, 1, 2, 3], "each place kept where it was");
    assert_eq!(shuffled(1, &Vec::new()), vec![0]);
    assert!(shuffled(0, &Vec::new()).is_empty());
}
