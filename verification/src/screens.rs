//! The decisions of the screens: when the results accept input, how the
//! learning path scrolls, what the options change, which key of the on-screen
//! keyboard a finger presses.
//!
//! Lengths are in whole virtual pixels unless said otherwise.

use vstd::prelude::*;

use crate::model::{find_language, Catalog, Glyph, Level};
use crate::progress::MAX_STARS;
use crate::session::EndReason;
use crate::settings::{goal_minutes, goal_step, goal_steps, Settings, DAILY_GOALS, MAX_LEVEL};
use crate::text::same_text;
use crate::ui::{inside, Area};

verus! {

// --- Results ---------------------------------------------------------------

/// Before the first star appears.
pub const STAR_OPENING_MS: i64 = 600;
/// Between two stars.
pub const STAR_DELAY_MS: i64 = 350;
/// How long a star takes to land.
pub const STAR_POP_MS: i64 = 150;
/// How long the results ignore keys and clicks. The key that validates a sign
/// is the one that starts a new round: a keystroke straddling the end of the
/// round would chain rounds without showing the results.
pub const GRACE_MS: i64 = 1500;

/// Do the results already answer keys and clicks?
pub fn accepts_input(elapsed_ms: i64) -> (b: bool)
    ensures
        b == (elapsed_ms >= GRACE_MS),
{
    elapsed_ms >= GRACE_MS
}

/// The star animation ends within the delay: starting again before the stars
/// are laid would skip one's own reward.
pub proof fn law_delay_outlasts_stars()
    ensures
        STAR_OPENING_MS + STAR_DELAY_MS * (crate::progress::MAX_STARS - 1) + STAR_POP_MS <= GRACE_MS,
{
}

/// What the results say of a round, above everything else.
#[derive(Debug, Clone, Copy, PartialEq, Eq, Structural)]
pub enum Verdict {
    /// No star, and no life left.
    OutOfLives,
    /// No star, and the clock ran out.
    TimeUp,
    /// Every star.
    Perfect,
    /// Some stars, not all.
    Finished,
}

/// The verdict on a round that earned `stars` and ended for `reason`.
pub open spec fn verdict_of(stars: u8, reason: EndReason) -> Verdict {
    if stars == 0 {
        match reason {
            EndReason::OutOfLives => Verdict::OutOfLives,
            EndReason::TimeUp => Verdict::TimeUp,
        }
    } else if stars >= MAX_STARS {
        Verdict::Perfect
    } else {
        Verdict::Finished
    }
}

/// The verdict the results show.
pub fn verdict(stars: u8, reason: EndReason) -> (v: Verdict)
    ensures
        v == verdict_of(stars, reason),
{
    if stars == 0 {
        match reason {
            EndReason::OutOfLives => Verdict::OutOfLives,
            EndReason::TimeUp => Verdict::TimeUp,
        }
    } else if stars >= MAX_STARS {
        Verdict::Perfect
    } else {
        Verdict::Finished
    }
}

/// How a star of the results looks at a given moment.
#[derive(Debug, Clone, Copy, PartialEq, Eq, Structural)]
pub enum StarLook {
    /// Not earned: an empty place, there from the start, not a reward to
    /// announce.
    Empty,
    /// Earned, not shown yet.
    Waiting,
    /// Just arrived, a notch too big before it lands.
    Popping,
    Landed,
}

/// When star `index` appears: the stars come one by one, after an opening
/// pause; the wait between two is what makes the third one satisfying.
pub open spec fn star_due(index: int) -> int {
    STAR_OPENING_MS + STAR_DELAY_MS * index
}

/// How star `index` looks `elapsed_ms` after the results opened, when
/// `earned` stars were earned.
pub open spec fn star_look_at(index: int, earned: int, elapsed_ms: int) -> StarLook {
    if index >= earned {
        StarLook::Empty
    } else if elapsed_ms < star_due(index) {
        StarLook::Waiting
    } else if elapsed_ms - star_due(index) < STAR_POP_MS {
        StarLook::Popping
    } else {
        StarLook::Landed
    }
}

/// How star `index` of the results looks at this moment.
pub fn star_look(index: u8, earned: u8, elapsed_ms: i64) -> (look: StarLook)
    ensures
        look == star_look_at(index as int, earned as int, elapsed_ms as int),
{
    if index >= earned {
        return StarLook::Empty;
    }
    let due = STAR_OPENING_MS + STAR_DELAY_MS * index as i64;
    if elapsed_ms < due {
        StarLook::Waiting
    } else if elapsed_ms - due < STAR_POP_MS {
        StarLook::Popping
    } else {
        StarLook::Landed
    }
}

/// Once the results accept input, every earned star has landed.
pub proof fn law_stars_landed_when_ready(index: int, earned: int, elapsed_ms: int)
    requires
        0 <= index < earned <= MAX_STARS,
        elapsed_ms >= GRACE_MS,
    ensures
        star_look_at(index, earned, elapsed_ms) == StarLook::Landed,
{
}

/// The success of a round in whole percent, from thousandths, rounded to the
/// nearest.
pub fn accuracy_percent(permille: u32) -> (percent: u32)
    ensures
        percent == (permille + 5) / 10,
{
    permille / 10 + if permille % 10 >= 5 {
        1
    } else {
        0
    }
}

/// Beyond this many, the line of missed signs would overflow: the rest is
/// announced as a number rather than passed over.
pub const MAX_MISSED_SHOWN: usize = 8;

/// `i` is the first position, levels taken in order and glyphs within each,
/// of a glyph of sign `c` among the levels.
pub open spec fn first_glyph_of(levels: Seq<Level>, c: Seq<char>, k: int, g: int) -> bool {
    &&& 0 <= k < levels.len()
    &&& 0 <= g < levels[k].glyphs@.len()
    &&& levels[k].glyphs@[g].char@ == c
    &&& forall|a: int, b: int|
        (0 <= a < k && 0 <= b < levels[a].glyphs@.len()) || (a == k && 0 <= b < g) ==> (#[trigger] levels[a].glyphs@[b]).char@
            != c
}

/// `a` is the reference reading of glyph `g`: its first answer, or nothing.
pub open spec fn reads_as(g: Glyph, a: Seq<char>) -> bool {
    &&& g.answers@.len() > 0 ==> a == g.answers@[0]@
    &&& g.answers@.len() == 0 ==> a.len() == 0
}

/// The reference reading of a missed sign, looked up over the whole script and
/// not only the level: a missed glyph may come from the review share. `None`
/// when the script or the sign is unknown.
pub fn answer_for<'a>(catalog: &'a Catalog, language_id: &str, character: &str) -> (answer: Option<&'a str>)
    ensures
        match answer {
            None => find_language(catalog.languages@, language_id@) is None || !exists|k: int, g: int|
                first_glyph_of(
                    catalog.languages@[find_language(catalog.languages@, language_id@)->0].levels@,
                    character@,
                    k,
                    g,
                ),
            Some(a) => find_language(catalog.languages@, language_id@) is Some && exists|k: int, g: int|
                #[trigger] first_glyph_of(
                    catalog.languages@[find_language(catalog.languages@, language_id@)->0].levels@,
                    character@,
                    k,
                    g,
                ) && reads_as(
                    catalog.languages@[find_language(catalog.languages@, language_id@)->0].levels@[k].glyphs@[g],
                    a@,
                ),
        },
{
    let language = match catalog.language(language_id) {
        Some(language) => language,
        None => {
            return None;
        },
    };
    let ghost li = find_language(catalog.languages@, language_id@)->0;
    assert(find_language(catalog.languages@, language_id@) == Some(li) && *language == catalog.languages@[li]);
    let levels = &language.levels;
    let mut k: usize = 0;
    while k < levels.len()
        invariant
            find_language(catalog.languages@, language_id@) == Some(li),
            0 <= li < catalog.languages@.len(),
            *language == catalog.languages@[li],
            levels == &language.levels,
            k <= levels@.len(),
            forall|a: int, b: int|
                0 <= a < k && 0 <= b < levels@[a].glyphs@.len() ==> (#[trigger] levels@[a].glyphs@[b]).char@
                    != character@,
        decreases levels@.len() - k,
    {
        let glyphs = &levels[k].glyphs;
        let mut g: usize = 0;
        while g < glyphs.len()
            invariant
                find_language(catalog.languages@, language_id@) == Some(li),
                0 <= li < catalog.languages@.len(),
                *language == catalog.languages@[li],
                levels == &language.levels,
                k < levels@.len(),
                glyphs == &levels@[k as int].glyphs,
                g <= glyphs@.len(),
                forall|a: int, b: int|
                    0 <= a < k && 0 <= b < levels@[a].glyphs@.len() ==> (#[trigger] levels@[a].glyphs@[b]).char@
                        != character@,
                forall|b: int| 0 <= b < g ==> (#[trigger] glyphs@[b]).char@ != character@,
            decreases glyphs@.len() - g,
        {
            if same_text(glyphs[g].char.as_str(), character) {
                let found: &Glyph = &glyphs[g];
                let answer = found.primary_answer();
                proof {
                    assert(first_glyph_of(catalog.languages@[li].levels@, character@, k as int, g as int));
                    assert(reads_as(catalog.languages@[li].levels@[k as int].glyphs@[g as int], answer@));
                    assert(exists|k: int, g: int|
                        #[trigger] first_glyph_of(
                            catalog.languages@[find_language(catalog.languages@, language_id@)->0].levels@,
                            character@,
                            k,
                            g,
                        ) && reads_as(
                            catalog.languages@[find_language(catalog.languages@, language_id@)->0].levels@[k].glyphs@[g],
                            answer@,
                        ));
                }
                return Some(answer);
            }
            g = g + 1;
        }
        k = k + 1;
    }
    proof {
        assert forall|a: int, b: int| !first_glyph_of(levels@, character@, a, b) by {
            if first_glyph_of(levels@, character@, a, b) {
                assert(levels@[a].glyphs@[b].char@ != character@);
            }
        }
    }
    None
}

// --- Round ------------------------------------------------------------------

/// Top of the bar that shows what the player types, on the canvas lying
/// down; the line where tiles are lost stands above it.
pub const INPUT_BAR_Y: i64 = 192;
/// Height of the input bar.
pub const INPUT_BAR_HEIGHT: i64 = 16;

/// The line where tiles are lost stands above the input bar, so that the
/// player always sees what is typed.
pub proof fn law_line_above_input()
    ensures
        crate::session::TARGET_Y < INPUT_BAR_Y * 1000,
{
}

// --- Learning path ---------------------------------------------------------

/// Top of the scrolling list.
pub const VIEWPORT_TOP: i64 = 24;
/// Bottom of the scrolling list.
pub const VIEWPORT_BOTTOM: i64 = 192;
/// Height of a row.
pub const PATH_ROW_HEIGHT: i64 = 24;
/// From one row to the next.
pub const PATH_ROW_STEP: i64 = 34;

/// How far the path scrolls to keep row `selected` of `count` near the
/// middle, never beyond either end of the list.
pub open spec fn scroll_for(selected: int, count: int) -> int {
    let viewport = VIEWPORT_BOTTOM - VIEWPORT_TOP;
    let max_scroll = if count * PATH_ROW_STEP - viewport > 0 {
        count * PATH_ROW_STEP - viewport
    } else {
        0
    };
    let centered = selected * PATH_ROW_STEP - (viewport - PATH_ROW_HEIGHT) / 2;
    if centered < 0 {
        0
    } else if centered > max_scroll {
        max_scroll
    } else {
        centered
    }
}

/// Shifts the content to keep the selected row about centred.
pub fn scroll_offset(selected: usize, count: usize) -> (offset: i64)
    requires
        selected <= 0xffff_ffff,
        count <= 0xffff_ffff,
    ensures
        offset == scroll_for(selected as int, count as int),
        offset >= 0,
{
    let viewport = VIEWPORT_BOTTOM - VIEWPORT_TOP;
    let content = count as i64 * PATH_ROW_STEP;
    let max_scroll = if content - viewport > 0 {
        content - viewport
    } else {
        0
    };
    let centered = selected as i64 * PATH_ROW_STEP - (viewport - PATH_ROW_HEIGHT) / 2;
    if centered < 0 {
        0
    } else if centered > max_scroll {
        max_scroll
    } else {
        centered
    }
}

/// The entry after `selected` among `count`, or the one before, wrapping
/// around at both ends: the arrow keys never get stuck at an end.
pub fn cycled_selection(selected: usize, count: usize, forward: bool) -> (next: usize)
    requires
        count > 0,
        selected < count,
    ensures
        forward ==> next == (selected + 1) % (count as int),
        !forward ==> next == (selected + count - 1) % (count as int),
        next < count,
{
    let ghost s = selected as int;
    let ghost c = count as int;
    if forward {
        if selected + 1 == count {
            assert((s + 1) % c == 0) by (nonlinear_arith)
                requires
                    s + 1 == c,
                    c > 0,
            ;
            0
        } else {
            assert((s + 1) % c == s + 1) by (nonlinear_arith)
                requires
                    0 <= s + 1 < c,
            ;
            selected + 1
        }
    } else if selected == 0 {
        assert((s + c - 1) % c == c - 1) by (nonlinear_arith)
            requires
                s == 0,
                c > 0,
        ;
        count - 1
    } else {
        assert((s + c - 1) % c == s - 1) by (nonlinear_arith)
            requires
                0 < s < c,
        ;
        selected - 1
    }
}

// --- The card of a sign ----------------------------------------------------

/// From this mastery on, a sign counts as acquired.
pub const ACQUIRED_FROM: i8 = 3;

/// What the card of a sign says of what the game knows of the player on it:
/// the difference between a card and a mere dictionary.
#[derive(Debug, Clone, Copy, PartialEq, Eq, Structural)]
pub enum MasteryStage {
    /// Missed more than recognised: to consolidate.
    Shaky,
    /// Never met.
    Unseen,
    /// Met, not acquired yet.
    Learning,
    Acquired,
}

/// The stage of a mastery.
pub open spec fn stage_of(mastery: int) -> MasteryStage {
    if mastery < 0 {
        MasteryStage::Shaky
    } else if mastery == 0 {
        MasteryStage::Unseen
    } else if mastery >= ACQUIRED_FROM {
        MasteryStage::Acquired
    } else {
        MasteryStage::Learning
    }
}

/// The stage the card shows for a mastery.
pub fn mastery_stage(mastery: i8) -> (stage: MasteryStage)
    ensures
        stage == stage_of(mastery as int),
{
    if mastery < 0 {
        MasteryStage::Shaky
    } else if mastery == 0 {
        MasteryStage::Unseen
    } else if mastery >= ACQUIRED_FROM {
        MasteryStage::Acquired
    } else {
        MasteryStage::Learning
    }
}

/// The card calls shaky exactly the signs the draw favours as shaky: those
/// missed more than recognised.
pub proof fn law_card_agrees_on_shaky(mastery: int)
    ensures
        (stage_of(mastery) == MasteryStage::Shaky) == (mastery < 0),
{
}

// --- Options ---------------------------------------------------------------

/// A row of the options, in display order.
#[derive(Debug, Clone, Copy, PartialEq, Eq, Structural)]
pub enum Row {
    /// The menu music.
    Music,
    /// The music during a round, set apart.
    MusicGame,
    Sfx,
    /// The learning time aimed at each day.
    DailyGoal,
}

/// The rows, in display order.
pub const ROWS: [Row; 4] = [Row::Music, Row::MusicGame, Row::Sfx, Row::DailyGoal];

/// The notch a row stands on: a volume level, or the step of the daily goal.
pub open spec fn row_level(s: Settings, row: Row) -> int {
    match row {
        Row::Music => s.music as int,
        Row::MusicGame => s.music_game as int,
        Row::Sfx => s.sfx as int,
        Row::DailyGoal => goal_step(goal_minutes(s.daily_goal)),
    }
}

/// The highest notch of a row: ten for the volumes, eight for the goal.
pub open spec fn row_top(row: Row) -> int {
    match row {
        Row::DailyGoal => 8,
        _ => MAX_LEVEL as int,
    }
}

/// The notch a row stands on.
pub fn level_of(settings: &Settings, row: Row) -> (level: u8)
    ensures
        level == row_level(*settings, row),
{
    match row {
        Row::Music => settings.music,
        Row::MusicGame => settings.music_game,
        Row::Sfx => settings.sfx,
        // The goal counts in steps of duration, not in tenths of volume.
        Row::DailyGoal => settings.daily_goal_step() as u8,
    }
}

/// The highest notch of a row.
pub fn steps_of(row: Row) -> (top: u8)
    ensures
        top == row_top(row),
{
    match row {
        Row::DailyGoal => (DAILY_GOALS.len() - 1) as u8,
        _ => MAX_LEVEL,
    }
}

/// The settings once row `row` moved by `delta` notches, within its ends.
pub open spec fn moved_by(s: Settings, row: Row, delta: int) -> Settings {
    let wanted = row_level(s, row) + delta;
    let next = if wanted < 0 {
        0
    } else if wanted > row_top(row) {
        row_top(row)
    } else {
        wanted
    };
    if next == row_level(s, row) {
        s
    } else {
        match row {
            Row::Music => Settings { music: next as u8, ..s },
            Row::MusicGame => Settings { music_game: next as u8, ..s },
            Row::Sfx => Settings { sfx: next as u8, ..s },
            Row::DailyGoal => Settings { daily_goal: Some(goal_steps()[next]), ..s },
        }
    }
}

/// Moves a row by `delta` notches, within its ends. Gives `true` when a
/// setting changed; the caller then applies the volumes, plays the feedback
/// and saves.
pub fn move_row(settings: &mut Settings, row: Row, delta: i8) -> (changed: bool)
    ensures
        *final(settings) == moved_by(*old(settings), row, delta as int),
        changed == (*final(settings) != *old(settings)),
{
    let level = level_of(settings, row);
    let top = steps_of(row);
    let wanted = level as i16 + delta as i16;
    let next: u8 = if wanted < 0 {
        0
    } else if wanted > top as i16 {
        top
    } else {
        wanted as u8
    };
    if next == level {
        return false;
    }
    match row {
        Row::Music => {
            settings.music = next;
        },
        Row::MusicGame => {
            settings.music_game = next;
        },
        Row::Sfx => {
            settings.sfx = next;
        },
        Row::DailyGoal => {
            settings.daily_goal = Some(DAILY_GOALS[next as usize]);
            assert(goal_steps()[next as int] == DAILY_GOALS[next as int]);
        },
    }
    proof {
        if *settings == *old(settings) {
            assert(row_level(*settings, row) == row_level(*old(settings), row));
            crate::settings::law_goal_step_round_trip(next as int);
        }
    }
    true
}

/// Width of a segment of a volume gauge.
pub const SEGMENT_WIDTH: i64 = 11;
/// Gap between two segments.
pub const SEGMENT_GAP: i64 = 2;

/// The gauge level under a horizontal position, in thousandths of a pixel.
/// The first segment starts at the edge, hence the shift by one: left of the
/// gauge, the volume is zero.
pub open spec fn gauge_level(gauge_x: int, px: int) -> int {
    let offset = px - gauge_x;
    let pitch = (SEGMENT_WIDTH + SEGMENT_GAP) * 1000;
    let index = if offset >= 0 {
        offset / pitch
    } else {
        -((-offset + pitch - 1) / pitch)
    };
    if index + 1 < 0 {
        0
    } else if index + 1 > MAX_LEVEL {
        MAX_LEVEL as int
    } else {
        index + 1
    }
}

/// The gauge level under a horizontal position.
pub fn level_from_x(gauge_x: i64, px: i64) -> (level: u8)
    requires
        -0x1_0000_0000_0000 <= gauge_x <= 0x1_0000_0000_0000,
        -0x1_0000_0000_0000 <= px <= 0x1_0000_0000_0000,
    ensures
        level == gauge_level(gauge_x as int, px as int),
        level <= MAX_LEVEL,
{
    let offset = px - gauge_x;
    let pitch = (SEGMENT_WIDTH + SEGMENT_GAP) * 1000;
    let index = if offset >= 0 {
        offset / pitch
    } else {
        -((-offset + pitch - 1) / pitch)
    };
    if index + 1 < 0 {
        0
    } else if index + 1 > MAX_LEVEL as i64 {
        MAX_LEVEL
    } else {
        (index + 1) as u8
    }
}

// --- On-screen keyboard ----------------------------------------------------

/// Width of the canvas held upright, as on a phone.
pub const PORTRAIT_WIDTH: i64 = 216;
/// Height of the canvas held upright.
pub const PORTRAIT_HEIGHT: i64 = 384;
/// Top of the keyboard; what falls must stop above it.
pub const KEYBOARD_TOP: i64 = 292;
/// Height of a key.
pub const KEY_HEIGHT: i64 = 28;
/// Gap between two keys.
pub const KEY_GAP: i64 = 2;
/// Width of a letter key: ten per row, margins included.
pub const KEY_WIDTH: i64 = 19;
/// Left margin of every row.
pub const KEY_MARGIN: i64 = 4;
/// Width of the erase key.
pub const ERASE_WIDTH: i64 = 32;

/// The French layout: the player finds on the glass the letters under the
/// fingers elsewhere. Readings only need letters.
pub open spec fn key_rows() -> Seq<Seq<char>> {
    seq![
        seq!['a', 'z', 'e', 'r', 't', 'y', 'u', 'i', 'o', 'p'],
        seq!['q', 's', 'd', 'f', 'g', 'h', 'j', 'k', 'l', 'm'],
        seq!['w', 'x', 'c', 'v', 'b', 'n'],
    ]
}

/// The letters of a row of the keyboard.
pub fn row_letters(row: usize) -> (letters: Vec<char>)
    requires
        row < 3,
    ensures
        letters@ == key_rows()[row as int],
{
    let letters = if row == 0 {
        vec!['a', 'z', 'e', 'r', 't', 'y', 'u', 'i', 'o', 'p']
    } else if row == 1 {
        vec!['q', 's', 'd', 'f', 'g', 'h', 'j', 'k', 'l', 'm']
    } else {
        vec!['w', 'x', 'c', 'v', 'b', 'n']
    };
    assert(letters@ =~= key_rows()[row as int]);
    letters
}

/// What the player just asked for.
#[derive(Debug, Clone, Copy, PartialEq, Eq, Structural)]
pub enum Key {
    Letter(char),
    /// Erase the last letter.
    Erase,
    /// Submit the input.
    Submit,
}

/// Where the key of letter `index` of row `row` stands, in thousandths of a
/// pixel.
pub open spec fn letter_area(row: int, index: int) -> Area {
    Area {
        x: ((KEY_MARGIN + index * (KEY_WIDTH + KEY_GAP)) * 1000) as i64,
        y: ((KEYBOARD_TOP + row * (KEY_HEIGHT + KEY_GAP)) * 1000) as i64,
        w: (KEY_WIDTH * 1000) as i64,
        h: (KEY_HEIGHT * 1000) as i64,
    }
}

/// Where the erase key stands: after the six letters of the last row, which
/// leaves room for the two keys sought in a hurry when a tile comes.
pub open spec fn erase_area() -> Area {
    Area {
        x: ((KEY_MARGIN + 6 * KEY_WIDTH + 6 * KEY_GAP) * 1000) as i64,
        y: ((KEYBOARD_TOP + 2 * (KEY_HEIGHT + KEY_GAP)) * 1000) as i64,
        w: (ERASE_WIDTH * 1000) as i64,
        h: (KEY_HEIGHT * 1000) as i64,
    }
}

/// Where the submit key stands: the rest of the last row.
pub open spec fn submit_area() -> Area {
    let x = KEY_MARGIN + 6 * KEY_WIDTH + 6 * KEY_GAP + ERASE_WIDTH + KEY_GAP;
    Area {
        x: (x * 1000) as i64,
        y: ((KEYBOARD_TOP + 2 * (KEY_HEIGHT + KEY_GAP)) * 1000) as i64,
        w: ((PORTRAIT_WIDTH - KEY_MARGIN - x) * 1000) as i64,
        h: (KEY_HEIGHT * 1000) as i64,
    }
}

/// The key under a point, in thousandths of a pixel: the last drawn wins.
pub open spec fn key_under(px: int, py: int) -> Option<Key> {
    if inside(submit_area(), px, py) {
        Some(Key::Submit)
    } else if inside(erase_area(), px, py) {
        Some(Key::Erase)
    } else if exists|r: int, i: int|
        0 <= r < 3 && 0 <= i < key_rows()[r].len() && inside(letter_area(r, i), px, py) {
        let (r, i) = choose|r: int, i: int|
            0 <= r < 3 && 0 <= i < key_rows()[r].len() && inside(letter_area(r, i), px, py);
        Some(Key::Letter(key_rows()[r][i]))
    } else {
        None
    }
}

/// Two letter keys never overlap.
proof fn lemma_letters_apart(r: int, i: int, s: int, j: int, px: int, py: int)
    requires
        0 <= r < 3,
        0 <= s < 3,
        0 <= i < 10,
        0 <= j < 10,
        inside(letter_area(r, i), px, py),
        inside(letter_area(s, j), px, py),
    ensures
        r == s && i == j,
{
}

/// The key of the on-screen keyboard under a point, in thousandths of a
/// pixel.
pub fn key_at(px: i64, py: i64) -> (key: Option<Key>)
    ensures
        key == key_under(px as int, py as int),
{
    let submit_x = (KEY_MARGIN + 6 * KEY_WIDTH + 6 * KEY_GAP + ERASE_WIDTH + KEY_GAP) * 1000;
    let last_y = (KEYBOARD_TOP + 2 * (KEY_HEIGHT + KEY_GAP)) * 1000;
    let submit = Area { x: submit_x, y: last_y, w: PORTRAIT_WIDTH * 1000 - KEY_MARGIN * 1000 - submit_x, h: KEY_HEIGHT * 1000 };
    if crate::ui::contains(submit, px, py) {
        return Some(Key::Submit);
    }
    let erase = Area {
        x: (KEY_MARGIN + 6 * KEY_WIDTH + 6 * KEY_GAP) * 1000,
        y: last_y,
        w: ERASE_WIDTH * 1000,
        h: KEY_HEIGHT * 1000,
    };
    if crate::ui::contains(erase, px, py) {
        return Some(Key::Erase);
    }
    let mut row: usize = 0;
    while row < 3
        invariant
            row <= 3,
            forall|r: int, i: int|
                0 <= r < row && 0 <= i < key_rows()[r].len() ==> !inside(#[trigger] letter_area(r, i), px as int, py as int),
        decreases 3 - row,
    {
        let letters = row_letters(row);
        let mut index: usize = 0;
        while index < letters.len()
            invariant
                row < 3,
                letters@ == key_rows()[row as int],
                index <= letters@.len(),
                forall|r: int, i: int|
                    0 <= r < row && 0 <= i < key_rows()[r].len() ==> !inside(#[trigger] letter_area(r, i), px as int, py as int),
                forall|i: int| 0 <= i < index ==> !inside(#[trigger] letter_area(row as int, i), px as int, py as int),
            decreases letters@.len() - index,
        {
            let area = Area {
                x: (KEY_MARGIN + index as i64 * (KEY_WIDTH + KEY_GAP)) * 1000,
                y: (KEYBOARD_TOP + row as i64 * (KEY_HEIGHT + KEY_GAP)) * 1000,
                w: KEY_WIDTH * 1000,
                h: KEY_HEIGHT * 1000,
            };
            assert(area == letter_area(row as int, index as int));
            if crate::ui::contains(area, px, py) {
                proof {
                    let (r, i) = choose|r: int, i: int|
                        0 <= r < 3 && 0 <= i < key_rows()[r].len() && inside(letter_area(r, i), px as int, py as int);
                    lemma_letters_apart(r, i, row as int, index as int, px as int, py as int);
                }
                return Some(Key::Letter(letters[index]));
            }
            index = index + 1;
        }
        row = row + 1;
    }
    None
}

/// Some key of the keyboard types `c`.
pub open spec fn typeable(c: char) -> bool {
    exists|r: int, i: int| 0 <= r < 3 && 0 <= i < key_rows()[r].len() && #[trigger] key_rows()[r][i] == c
}

/// The keyboard fits on the upright canvas, and every letter of the
/// alphabet has its key.
pub proof fn law_keyboard_fits()
    ensures
        KEY_MARGIN + 10 * KEY_WIDTH + 9 * KEY_GAP <= PORTRAIT_WIDTH,
        KEYBOARD_TOP + 3 * KEY_HEIGHT + 2 * KEY_GAP <= PORTRAIT_HEIGHT,
        forall|c: char| 'a' <= c <= 'z' ==> #[trigger] typeable(c),
{
    assert forall|c: char| 'a' <= c <= 'z' implies #[trigger] typeable(c) by {
        let rows = key_rows();
        assert(rows[0] =~= seq!['a', 'z', 'e', 'r', 't', 'y', 'u', 'i', 'o', 'p']);
        assert(rows[1] =~= seq!['q', 's', 'd', 'f', 'g', 'h', 'j', 'k', 'l', 'm']);
        assert(rows[2] =~= seq!['w', 'x', 'c', 'v', 'b', 'n']);
        let n = c as int;
        if n == 'a' as int { assert(rows[0][0] == c); }
        else if n == 'b' as int { assert(rows[2][4] == c); }
        else if n == 'c' as int { assert(rows[2][2] == c); }
        else if n == 'd' as int { assert(rows[1][2] == c); }
        else if n == 'e' as int { assert(rows[0][2] == c); }
        else if n == 'f' as int { assert(rows[1][3] == c); }
        else if n == 'g' as int { assert(rows[1][4] == c); }
        else if n == 'h' as int { assert(rows[1][5] == c); }
        else if n == 'i' as int { assert(rows[0][7] == c); }
        else if n == 'j' as int { assert(rows[1][6] == c); }
        else if n == 'k' as int { assert(rows[1][7] == c); }
        else if n == 'l' as int { assert(rows[1][8] == c); }
        else if n == 'm' as int { assert(rows[1][9] == c); }
        else if n == 'n' as int { assert(rows[2][5] == c); }
        else if n == 'o' as int { assert(rows[0][8] == c); }
        else if n == 'p' as int { assert(rows[0][9] == c); }
        else if n == 'q' as int { assert(rows[1][0] == c); }
        else if n == 'r' as int { assert(rows[0][3] == c); }
        else if n == 's' as int { assert(rows[1][1] == c); }
        else if n == 't' as int { assert(rows[0][4] == c); }
        else if n == 'u' as int { assert(rows[0][6] == c); }
        else if n == 'v' as int { assert(rows[2][3] == c); }
        else if n == 'w' as int { assert(rows[2][0] == c); }
        else if n == 'x' as int { assert(rows[2][1] == c); }
        else if n == 'y' as int { assert(rows[0][5] == c); }
        else { assert(rows[0][1] == c); }
    }
}

} // verus!
