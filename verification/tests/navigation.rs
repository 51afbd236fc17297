use glyphfall::navigation::{Navigator, Transition};

#[test]
fn the_root_is_never_taken_off() {
    let mut navigator = Navigator::new("titre");

    assert!(navigator.apply(Transition::Pop));
    assert_eq!(*navigator.top(), "titre");
    assert!(!navigator.can_go_back());
}

#[test]
fn back_returns_to_the_screen_below() {
    let mut navigator = Navigator::new("titre");
    navigator.apply(Transition::Push("langues"));
    navigator.apply(Transition::Push("chemin"));

    assert!(navigator.can_go_back());
    navigator.apply(Transition::Pop);
    assert_eq!(*navigator.top(), "langues");
}

#[test]
fn a_round_started_again_does_not_pile_up() {
    let mut navigator = Navigator::new("titre");
    navigator.apply(Transition::Push("manche 1"));
    navigator.apply(Transition::Replace("manche 2"));

    assert_eq!(navigator.depth(), 2);
    assert_eq!(*navigator.top(), "manche 2");
}

#[test]
fn going_to_the_root_drops_everything_above() {
    let mut navigator = Navigator::new("titre");
    navigator.apply(Transition::Push("a"));
    navigator.apply(Transition::Push("b"));
    navigator.apply(Transition::Stay);

    navigator.apply(Transition::ToRoot);

    assert_eq!(navigator.depth(), 1);
    assert_eq!(*navigator.top(), "titre");
}

#[test]
fn quitting_stops_the_game() {
    let mut navigator = Navigator::new(0);

    assert!(!navigator.apply(Transition::Quit));
    *navigator.top_mut() = 5;
    assert_eq!(*navigator.top(), 5);
}

#[test]
fn going_back_several_screens_stops_at_the_root() {
    let mut navigator = Navigator::new("titre");
    navigator.apply(Transition::Push("chemin"));
    navigator.apply(Transition::Push("briefing"));
    navigator.apply(Transition::Push("bilan"));

    navigator.apply(Transition::PopMany(2));
    assert_eq!(*navigator.top(), "chemin");

    navigator.apply(Transition::PopMany(5));
    assert_eq!(navigator.depth(), 1);
    assert_eq!(*navigator.top(), "titre");
}
