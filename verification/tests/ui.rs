use glyphfall::ui::{
    grab_area, slider_pick, slider_step_at, slider_step_from_x, tick_offset, widget_id, Area, FocusTracker, SliderInput,
    CURSOR_WIDTH,
};

const BAR: Area = Area { x: 100_000, y: 50_000, w: 200_000, h: 12_000 };

fn id(label: &str, w: f32, h: f32) -> u64 {
    widget_id(label, w.to_bits(), h.to_bits())
}

#[test]
fn clicking_the_bar_picks_the_nearest_step() {
    assert_eq!(slider_step_at(BAR, 9, 100_000, 56_000), Some(0));
    assert_eq!(slider_step_at(BAR, 9, 300_000, 56_000), Some(8));
    assert_eq!(slider_step_at(BAR, 9, 200_000, 56_000), Some(4), "le milieu");
    assert_eq!(slider_step_at(BAR, 9, 206_000, 56_000), Some(4), "encore le plus proche");
}

#[test]
fn clicking_outside_the_bar_picks_nothing() {
    assert_eq!(slider_step_at(BAR, 9, 50_000, 56_000), None);
    assert_eq!(slider_step_at(BAR, 9, 200_000, 10_000), None);
}

#[test]
fn a_slightly_high_press_still_catches_the_bar() {
    assert_eq!(slider_step_at(BAR, 9, 200_000, BAR.y - 4_000), Some(4));
    assert_eq!(slider_step_at(BAR, 9, 200_000, BAR.y + BAR.h + 4_000), Some(4));
}

#[test]
fn arriving_on_an_element_is_heard_once() {
    let mut focus = FocusTracker::new();
    focus.forget_focus();
    assert!(!focus.focus_moved(), "le premier releve d'un ecran ne dit rien");

    focus.focus(id("JOUER", 200.0, 12.0));
    assert!(focus.focus_moved(), "le curseur vient d'arriver sur le bouton");

    focus.focus(id("JOUER", 200.0, 12.0));
    assert!(!focus.focus_moved(), "rester dessus ne se reentend pas");
}

#[test]
fn leaving_for_empty_space_stays_silent() {
    let mut focus = FocusTracker::new();
    focus.forget_focus();
    focus.focus_moved();
    focus.focus(id("OPTIONS", 200.0, 12.0));
    focus.focus_moved();

    assert!(!focus.focus_moved(), "rien sous le curseur");
}

#[test]
fn changing_screen_swallows_the_first_look() {
    let mut focus = FocusTracker::new();
    focus.forget_focus();
    focus.focus_moved();
    focus.focus(id("RETOUR", 200.0, 12.0));
    assert!(focus.focus_moved());

    focus.forget_focus();
    focus.focus(id("REVISION", 200.0, 12.0));

    assert!(!focus.focus_moved());
}

#[test]
fn an_element_keeps_its_identity_while_the_list_scrolls() {
    assert_eq!(id("ETAPE 3", 80.0, 16.0), id("ETAPE 3", 80.0, 16.0));
    assert_ne!(id("ETAPE 3", 80.0, 16.0), id("ETAPE 4", 80.0, 16.0));
}

#[test]
fn a_drag_follows_the_hand_beyond_the_bar() {
    assert_eq!(slider_step_from_x(BAR, 9, 300_000), 8);
    assert_eq!(slider_step_from_x(BAR, 9, 1_000_000), 8, "borne a droite");
    assert_eq!(slider_step_from_x(BAR, 9, -500_000), 0, "borne a gauche");
}

#[test]
fn the_cursor_reaches_both_ends() {
    let travel = BAR.w - CURSOR_WIDTH;

    assert_eq!(tick_offset(travel, 9, 0), 0);
    assert_eq!(tick_offset(travel, 9, 8), travel);
}

#[test]
fn the_identity_is_the_fnv_hash_of_label_and_size() {
    let mut hash: u64 = 0xcbf2_9ce4_8422_2325;
    for byte in "OK".bytes().chain(3f32.to_bits().to_be_bytes()).chain(4f32.to_bits().to_be_bytes()) {
        hash ^= u64::from(byte);
        hash = hash.wrapping_mul(0x0000_0100_0000_01b3);
    }

    assert_eq!(id("OK", 3.0, 4.0), hash | 1);
    assert_ne!(id("", 0.0, 0.0), 0);
}

#[test]
fn the_grab_area_reaches_above_and_below() {
    let grab = grab_area(BAR);

    assert_eq!(grab.y, BAR.y - 6_000);
    assert_eq!(grab.h, BAR.h + 12_000);
    assert_eq!(slider_step_from_x(BAR, 1, 250_000), 0);
}

fn idle(x: i64, y: i64) -> SliderInput {
    SliderInput { right: false, left: false, pressed: false, down: false, x, y }
}

#[test]
fn the_arrows_move_the_slider_one_notch_within_its_ends() {
    let right = SliderInput { right: true, ..idle(0, 0) };
    let left = SliderInput { left: true, ..idle(0, 0) };

    assert_eq!(slider_pick(BAR, 9, 3, false, right), (4, false));
    assert_eq!(slider_pick(BAR, 9, 8, false, right), (8, false), "no notch past the last");
    assert_eq!(slider_pick(BAR, 9, 0, false, left), (0, false), "no notch before the first");
}

#[test]
fn a_press_on_the_bar_catches_the_cursor_until_released() {
    let press = SliderInput { pressed: true, down: true, ..idle(200_000, 56_000) };
    assert_eq!(slider_pick(BAR, 9, 0, false, press), (4, true));

    // Held, the cursor follows the hand far above the bar.
    let held = SliderInput { down: true, ..idle(300_000, 0) };
    assert_eq!(slider_pick(BAR, 9, 4, true, held), (8, true));

    // Let go, it stays where it was left.
    assert_eq!(slider_pick(BAR, 9, 8, true, idle(100_000, 56_000)), (8, false));
}

#[test]
fn a_press_beside_the_bar_catches_nothing() {
    let press = SliderInput { pressed: true, down: true, ..idle(200_000, 10_000) };

    assert_eq!(slider_pick(BAR, 9, 2, false, press), (2, false));
}
