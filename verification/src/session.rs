//! A round in progress.
//!
//! Everything that decides how a round goes (lives, length, columns, speed,
//! which glyphs fall, the star thresholds) comes from the level's file.
//! Nothing is fixed here: adding a script or tuning a difficulty never needs
//! a change of code.
//!
//! Positions are in thousandths of a virtual pixel, times in milliseconds,
//! ratios in thousandths.

use vstd::prelude::*;

use crate::catalog::{catalog_check, law_valid_catalog};
use crate::draw::{
    knows, knows_sign, copies, first_of_each, gather_learned, has_sign, known_in, learned_glyphs,
    lemma_first_of_each_complete, lemma_first_of_each_from, lemma_first_of_each_len,
    lemma_first_of_each_unique, lemma_within_path, light_weights,
    path_glyphs, weighted_pick, met_glyphs, MAX_WEIGHT,
};
use crate::keyed::{has_key, lemma_entry_in_map, TextMap};
use crate::mode::{mode_rules, scalable_rules, Mode, RULE_LIMIT};
use crate::model::{
    accepts_reading, find_language, find_level, find_level_index, same_glyph, Catalog, Glyph, Language, Level,
    Rules, Speed, Stars, speed_at, stars_for,
};
use crate::paths::reaches;
use crate::review::{from_reached, gather_review, lemma_review, review_of};
use crate::progress::{weight_for, Progress};
use crate::random::{random_below, RANDOM_LIMIT};
use crate::text::{lex_lt, char_first_lowercase, char_is_alphanumeric, first_lowercase, is_alphanumeric, pop_char, push_char, text_of};

verus! {

/// Height of a tile.
pub const TILE_HEIGHT: i64 = 40_000;
/// Width of the playing area, shared between the columns, in whole virtual
/// pixels.
pub const PLAYFIELD_WIDTH: i64 = 192;
/// Width of the virtual canvas, in whole virtual pixels.
pub const CANVAS_WIDTH: i64 = 384;
/// The line of validation: a tile that crosses it is lost.
pub const TARGET_Y: i64 = 160_000;
/// Points for each glyph recognised.
pub const POINTS_PER_HIT: u32 = 10;
/// How long a cleared tile flashes before it leaves.
pub const CLEAR_FLASH_MS: i64 = 150;
/// How long the screen shakes when a life is lost.
pub const SHAKE_DURATION_MS: i64 = 200;
/// Largest shake, in whole virtual pixels.
pub const SHAKE_PIXELS: i64 = 3;
/// A missed tile comes back after this many appearances, counted from the
/// miss: early enough for the correction to still help, late enough to read
/// it on screen first.
pub const RETRY_AFTER: u32 = 3;
/// Beyond this, the queue of missed signs is emptied from its head: a
/// disastrous round would otherwise queue more than the round itself and
/// never show a new sign again.
pub const MAX_RETRIES: usize = 6;

/// A falling tile.
#[derive(Debug)]
pub struct Tile {
    pub column: i32,
    /// Position of the tile's top edge.
    pub y: i64,
    pub glyph: Glyph,
    /// Time left in the flash of a cleared tile; `None` while it falls.
    pub cleared: Option<i64>,
    /// The tracing the sign is drawn in, chosen when it appears: a tile
    /// that changed font from one frame to the next would be unreadable.
    pub font: usize,
}

impl Tile {
    /// Was this tile recognised?
    pub fn is_cleared(&self) -> (b: bool)
        ensures
            b == self.cleared is Some,
    {
        self.cleared.is_some()
    }
}

/// Something that happened in the round, read once by the screen.
#[derive(Debug, Clone, Copy, PartialEq, Eq, Structural)]
pub enum Event {
    Hit,
    Wrong,
    Missed,
}

/// Why the round stopped.
#[derive(Debug, Clone, Copy, PartialEq, Eq, Structural)]
pub enum EndReason {
    OutOfLives,
    TimeUp,
}

/// What a sign gave over a round.
#[derive(Debug, Clone)]
pub struct SignResult {
    pub character: String,
    pub hits: u32,
    pub misses: u32,
}

/// The report of a finished round.
#[derive(Debug)]
pub struct Outcome {
    pub language_id: String,
    pub level_id: String,
    pub score: u32,
    pub hits: u32,
    /// Signs recognised over everything attempted, in thousandths.
    pub accuracy: u32,
    pub stars: u8,
    pub reason: EndReason,
    /// Set by the caller: does this result beat the previous one?
    pub is_record: bool,
    /// A free revision matches no step of the path: it earns no stars, only
    /// mastery.
    pub is_revision: bool,
    pub mode: Mode,
    /// Not a single mistake, and at least one sign recognised.
    pub is_perfect: bool,
    /// The signs missed, each once, for the correction at the end.
    pub missed_glyphs: Vec<String>,
    /// What each sign gave, to update its mastery.
    pub signs: Vec<SignResult>,
}

/// A round.
pub struct Session {
    pub language_id: String,
    pub level_id: String,
    pub level_title: String,
    /// Copied from the level, so that the round keeps no borrow on the
    /// catalogue.
    pub rules: Rules,
    pub stars: Stars,
    /// The glyphs this level teaches.
    pub glyphs: Vec<Glyph>,
    /// Those of the prerequisite levels, drawn according to the review share.
    pub review: Vec<Glyph>,
    /// The new signs, shown one by one at the start.
    pub warmup: std::collections::VecDeque<Glyph>,
    /// The missed signs, to show again soon.
    pub retry: std::collections::VecDeque<Glyph>,
    /// Draw weight of each sign, from the progress.
    pub weights: TextMap<u32>,
    /// Successes and misses of each sign, to feed its mastery.
    pub tally: TextMap<(u32, u32)>,
    pub tiles: Vec<Tile>,
    pub score: u32,
    pub lives: u32,
    pub input: String,
    /// Time left; meaningless when the level has no clock.
    pub time_left_ms: i64,
    pub spawn_timer_ms: i64,
    pub spawned: u32,
    /// Appearances since a missed sign was last brought back.
    pub since_retry: u32,
    pub hits: u32,
    /// Tiles that fell without being recognised.
    pub missed: u32,
    /// Answers that matched no tile.
    pub wrong: u32,
    /// The signs missed, to recall them at the end.
    pub missed_glyphs: Vec<String>,
    /// What just happened, read once per frame by the screen. The round plays
    /// no sound itself: it only knows its rules.
    pub events: Vec<Event>,
    /// Shaking left.
    pub shake_ms: i64,
    /// A free revision rather than a step of the path.
    pub is_revision: bool,
    pub mode: Mode,
    /// How many tracings to rotate between; `1` when the player wants one.
    pub tracings: usize,
}

/// A round as values.
#[verifier::ext_equal]
pub ghost struct SessionView {
    pub language_id: Seq<char>,
    pub level_id: Seq<char>,
    pub level_title: Seq<char>,
    pub rules: Rules,
    pub stars: Stars,
    pub glyphs: Seq<Glyph>,
    pub review: Seq<Glyph>,
    pub warmup: Seq<Glyph>,
    pub retry: Seq<Glyph>,
    pub weights: Map<Seq<char>, u32>,
    pub tally: Map<Seq<char>, (u32, u32)>,
    pub tiles: Seq<Tile>,
    pub score: u32,
    pub lives: u32,
    pub input: Seq<char>,
    pub time_left_ms: i64,
    pub spawn_timer_ms: i64,
    pub spawned: u32,
    pub since_retry: u32,
    pub hits: u32,
    pub missed: u32,
    pub wrong: u32,
    pub missed_glyphs: Seq<String>,
    pub events: Seq<Event>,
    pub shake_ms: i64,
    pub is_revision: bool,
    pub mode: Mode,
    pub tracings: usize,
}

impl View for Session {
    type V = SessionView;

    open spec fn view(&self) -> SessionView {
        SessionView {
            language_id: self.language_id@,
            level_id: self.level_id@,
            level_title: self.level_title@,
            rules: self.rules,
            stars: self.stars,
            glyphs: self.glyphs@,
            review: self.review@,
            warmup: self.warmup@,
            retry: self.retry@,
            weights: self.weights.as_map(),
            tally: self.tally.as_map(),
            tiles: self.tiles@,
            score: self.score,
            lives: self.lives,
            input: self.input@,
            time_left_ms: self.time_left_ms,
            spawn_timer_ms: self.spawn_timer_ms,
            spawned: self.spawned,
            since_retry: self.since_retry,
            hits: self.hits,
            missed: self.missed,
            wrong: self.wrong,
            missed_glyphs: self.missed_glyphs@,
            events: self.events@,
            shake_ms: self.shake_ms,
            is_revision: self.is_revision,
            mode: self.mode,
            tracings: self.tracings,
        }
    }
}

/// Rules a round can run on: columns to draw from, no negative time or
/// speed, and numbers within what the round computes exactly.
pub open spec fn playable_rules(rules: Rules) -> bool {
    &&& 1 <= rules.columns <= RANDOM_LIMIT
    &&& 0 <= rules.spawn_interval_ms <= RULE_LIMIT
    &&& 0 <= rules.duration_ms <= RULE_LIMIT
    &&& rules.speed.start >= 0
    &&& rules.speed.ramp >= 0
    &&& rules.speed.max >= 0
}

/// Successes and misses recorded for a sign, none when it is absent.
pub open spec fn counts(tally: Map<Seq<char>, (u32, u32)>, c: Seq<char>) -> (u32, u32) {
    if tally.contains_key(c) {
        tally[c]
    } else {
        (0, 0)
    }
}

/// The draw weights of the signs of `s`, from the progress.
pub open spec fn draw_weights(progress: Progress, language: Seq<char>, s: Seq<Glyph>) -> Map<Seq<char>, u32> {
    Map::new(|c: Seq<char>| has_sign(s, c), |c: Seq<char>| weight_for(progress.mastery_of(language, c) as int) as u32)
}

impl Session {
    /// Well formed: tables sorted and within bounds, counters consistent,
    /// and what the draws need present.
    pub open spec fn wf(&self) -> bool {
        &&& self.weights.wf()
        &&& light_weights(self.weights.as_map())
        &&& self.tally.wf()
        &&& forall|c: Seq<char>|
            #[trigger] self.tally.as_map().contains_key(c) ==> self.tally.as_map()[c].0 <= self.hits
                && self.tally.as_map()[c].1 <= self.missed
        &&& self.retry@.len() <= MAX_RETRIES
        &&& forall|i: int|
            0 <= i < self.tiles@.len() ==> ((#[trigger] self.tiles@[i]).cleared matches Some(r) ==> r > 0)
        &&& 0 <= self.spawn_timer_ms <= RULE_LIMIT
        &&& 0 <= self.time_left_ms <= RULE_LIMIT
        &&& 0 <= self.shake_ms <= SHAKE_DURATION_MS
        &&& self.since_retry <= self.spawned
        &&& playable_rules(self.rules)
        &&& 1 <= self.tracings <= RANDOM_LIMIT
        &&& self.glyphs@.len() >= 1
        &&& self.glyphs@.len() * MAX_WEIGHT <= RANDOM_LIMIT
        &&& self.review@.len() * MAX_WEIGHT <= RANDOM_LIMIT
    }
}

/// The numbers of a level stay within what a round computes exactly.
pub open spec fn fits_level(level: Level) -> bool {
    &&& scalable_rules(level.rules)
    &&& level.rules.columns <= RANDOM_LIMIT
}

/// The numbers of a script stay within what a round computes exactly.
pub open spec fn fits_language(language: Language) -> bool {
    &&& forall|j: int| 0 <= j < language.levels@.len() ==> fits_level(#[trigger] language.levels@[j])
    &&& path_glyphs(language.levels@, language.levels@.len() as int).len() * MAX_WEIGHT <= RANDOM_LIMIT
}

/// The numbers of the whole catalogue stay within what a round computes
/// exactly.
pub open spec fn catalog_fits(languages: Seq<Language>) -> bool {
    forall|i: int| 0 <= i < languages.len() ==> fits_language(#[trigger] languages[i])
}

/// The catalogue holds this level of this script.
pub open spec fn level_exists(languages: Seq<Language>, language_id: Seq<char>, level_id: Seq<char>) -> bool {
    &&& find_language(languages, language_id) is Some
    &&& find_level(languages[find_language(languages, language_id)->0].levels@, level_id) is Some
}

/// A round as it starts on a level of the catalogue.
pub open spec fn started_on(
    v: SessionView,
    languages: Seq<Language>,
    progress: Progress,
    language_id: Seq<char>,
    level_id: Seq<char>,
    mode: Mode,
    tracings: usize,
) -> bool {
    let levels = languages[find_language(languages, language_id)->0].levels@;
    let j = find_level(levels, level_id)->0;
    let level = levels[j];
    &&& level_exists(languages, language_id, level_id)
    &&& v.language_id == language_id
    &&& v.level_id == level_id
    &&& v.level_title == level.title@
    &&& v.rules == mode_rules(mode, level.rules)
    &&& v.stars == level.stars
    &&& copies(v.glyphs, level.glyphs@)
    &&& copies(v.review, review_of(levels, j))
    &&& copies(v.warmup, level.glyphs@)
    &&& v.retry.len() == 0
    &&& v.weights == draw_weights(progress, language_id, v.glyphs + v.review)
    &&& v.tally == Map::<Seq<char>, (u32, u32)>::empty()
    &&& v.tiles.len() == 0
    &&& v.score == 0
    &&& v.lives == level.rules.lives
    &&& v.input.len() == 0
    &&& v.time_left_ms == mode_rules(mode, level.rules).duration_ms
    &&& v.spawn_timer_ms == 0
    &&& v.spawned == 0
    &&& v.since_retry == 0
    &&& v.hits == 0
    &&& v.missed == 0
    &&& v.wrong == 0
    &&& v.missed_glyphs.len() == 0
    &&& v.events.len() == 0
    &&& v.shake_ms == 0
    &&& !v.is_revision
    &&& v.mode == mode
    &&& v.tracings == (if tracings >= 1 {
        tracings
    } else {
        1
    })
}

/// The rules of a free revision: neither discovery nor exam, a steady but
/// forgiving pace over a length that lets some thirty signs through.
pub open spec fn revision_rules() -> Rules {
    Rules {
        lives: 3,
        duration_ms: 90_000,
        columns: 4,
        spawn_interval_ms: 1500,
        speed: Speed { start: 55_000, ramp: 1_200, max: 170_000 },
        review_permille: 0,
    }
}

/// The star thresholds of a free revision.
pub open spec fn revision_stars() -> Stars {
    Stars { one: 500, two: 750, three: 900 }
}

/// The signs a free revision of a script draws from: one glyph of each
/// sign already met, the first along the path.
pub open spec fn revision_pool(levels: Seq<Level>, progress: Progress, language_id: Seq<char>) -> Seq<Glyph> {
    first_of_each(
        learned_glyphs(
            levels,
            |c: Seq<char>| progress.script_signs(language_id).contains_key(c),
            levels.len() as int,
        ),
    )
}

/// A free revision as it starts.
pub open spec fn revision_started(
    v: SessionView,
    languages: Seq<Language>,
    progress: Progress,
    language_id: Seq<char>,
    tracings: usize,
) -> bool {
    let levels = languages[find_language(languages, language_id)->0].levels@;
    &&& find_language(languages, language_id) is Some
    &&& v.language_id == language_id
    &&& v.level_id.len() == 0
    &&& v.level_title == "Revision libre"@
    &&& v.rules == revision_rules()
    &&& v.stars == revision_stars()
    &&& copies(v.glyphs, revision_pool(levels, progress, language_id))
    &&& v.review.len() == 0
    &&& v.warmup.len() == 0
    &&& v.retry.len() == 0
    &&& v.weights == draw_weights(progress, language_id, v.glyphs)
    &&& v.tally == Map::<Seq<char>, (u32, u32)>::empty()
    &&& v.tiles.len() == 0
    &&& v.score == 0
    &&& v.lives == 3
    &&& v.input.len() == 0
    &&& v.time_left_ms == 90_000
    &&& v.spawn_timer_ms == 0
    &&& v.spawned == 0
    &&& v.since_retry == 0
    &&& v.hits == 0
    &&& v.missed == 0
    &&& v.wrong == 0
    &&& v.missed_glyphs.len() == 0
    &&& v.events.len() == 0
    &&& v.shake_ms == 0
    &&& v.is_revision
    &&& v.mode == Mode::Normal
    &&& v.tracings == (if tracings >= 1 {
        tracings
    } else {
        1
    })
}

/// Share of `left` in `duration`, in thousandths clamped to 0..=1000; 0 when
/// there is no clock.
pub open spec fn time_share(duration: int, left: int) -> int {
    if duration <= 0 {
        0
    } else if left * 1000 / duration < 0 {
        0
    } else if left * 1000 / duration > 1000 {
        1000
    } else {
        left * 1000 / duration
    }
}

/// How far a shake of `shake` milliseconds moves the playing area: in
/// proportion to the shake left, rounded up.
pub open spec fn shake_pixels(shake: int) -> int {
    if shake <= 0 {
        0
    } else {
        (shake * SHAKE_PIXELS + SHAKE_DURATION_MS - 1) / (SHAKE_DURATION_MS as int)
    }
}

/// Tile `i` still falls and accepts `answer`.
pub open spec fn matching(tiles: Seq<Tile>, answer: Seq<char>, i: int) -> bool {
    &&& 0 <= i < tiles.len()
    &&& tiles[i].cleared is None
    &&& accepts_reading(tiles[i].glyph.answers@, answer)
}

/// Tile `i` is the one an answer clears: the lowest of the matching tiles,
/// about to be lost; the last in order among equally low ones, so that two
/// identical tiles never fall together on a single answer.
pub open spec fn is_target(tiles: Seq<Tile>, answer: Seq<char>, i: int) -> bool {
    &&& matching(tiles, answer, i)
    &&& forall|j: int| #[trigger] matching(tiles, answer, j) ==> tiles[j].y <= tiles[i].y
    &&& forall|j: int| i < j && #[trigger] matching(tiles, answer, j) ==> tiles[j].y < tiles[i].y
}

/// The tile an answer clears, if any.
pub open spec fn target(tiles: Seq<Tile>, answer: Seq<char>) -> Option<int> {
    if exists|i: int| is_target(tiles, answer, i) {
        Some(choose|i: int| is_target(tiles, answer, i))
    } else {
        None
    }
}

/// Only one tile is the target.
pub proof fn lemma_target_unique(tiles: Seq<Tile>, answer: Seq<char>, i: int)
    requires
        is_target(tiles, answer, i),
    ensures
        target(tiles, answer) == Some(i),
{
    let k = choose|k: int| is_target(tiles, answer, k);
    if k < i {
        assert(matching(tiles, answer, i));
        assert(matching(tiles, answer, k));
    } else if k > i {
        assert(matching(tiles, answer, k));
        assert(matching(tiles, answer, i));
    }
}

/// The round after the player submits the input: the input is emptied; a
/// non-empty answer clears its target tile and scores, or counts as wrong
/// when no falling tile accepts it.
pub open spec fn validated(v: SessionView) -> SessionView {
    let answer = v.input;
    if answer.len() == 0 {
        v
    } else {
        match target(v.tiles, answer) {
            Some(t) => {
                let c = v.tiles[t].glyph.char@;
                SessionView {
                    input: Seq::empty(),
                    tiles: v.tiles.update(t, Tile { cleared: Some(CLEAR_FLASH_MS), ..v.tiles[t] }),
                    hits: (v.hits + 1) as u32,
                    score: (v.score + POINTS_PER_HIT) as u32,
                    events: v.events.push(Event::Hit),
                    tally: v.tally.insert(c, ((counts(v.tally, c).0 + 1) as u32, counts(v.tally, c).1)),
                    ..v
                }
            },
            None => SessionView { input: Seq::empty(), wrong: (v.wrong + 1) as u32, events: v.events.push(Event::Wrong), ..v },
        }
    }
}

/// Finds the tile an answer clears.
fn find_target(tiles: &Vec<Tile>, answer: &str) -> (r: Option<usize>)
    ensures
        match r {
            Some(t) => target(tiles@, answer@) == Some(t as int),
            None => target(tiles@, answer@) is None,
        },
{
    let mut best: Option<usize> = None;
    let mut i: usize = 0;
    while i < tiles.len()
        invariant
            i <= tiles@.len(),
            match best {
                None => forall|j: int| 0 <= j < i ==> !#[trigger] matching(tiles@, answer@, j),
                Some(b) => {
                    &&& b < i
                    &&& matching(tiles@, answer@, b as int)
                    &&& forall|j: int| 0 <= j < i && #[trigger] matching(tiles@, answer@, j) ==> tiles@[j].y <= tiles@[b as int].y
                    &&& forall|j: int| b < j < i && #[trigger] matching(tiles@, answer@, j) ==> tiles@[j].y < tiles@[b as int].y
                },
            },
        decreases tiles@.len() - i,
    {
        let tile = &tiles[i];
        if tile.cleared.is_none() && tile.glyph.accepts(answer) {
            let better = match best {
                None => true,
                Some(b) => tile.y >= tiles[b].y,
            };
            if better {
                best = Some(i);
            }
        }
        i = i + 1;
    }
    match best {
        Some(b) => {
            proof {
                assert forall|j: int| #[trigger] matching(tiles@, answer@, j) implies tiles@[j].y <= tiles@[b as int].y by {
                    assert(0 <= j < i);
                }
                assert(is_target(tiles@, answer@, b as int));
                lemma_target_unique(tiles@, answer@, b as int);
            }
            Some(b)
        },
        None => {
            proof {
                if exists|k: int| is_target(tiles@, answer@, k) {
                    let k = choose|k: int| is_target(tiles@, answer@, k);
                    assert(matching(tiles@, answer@, k));
                }
            }
            None
        },
    }
}

/// Does a roll among a thousand send the draw to the review pool? It does
/// for a roll below the round's share of review, in thousandths, when there
/// is something to review.
pub open spec fn review_roll(roll: int, permille: int, has_review: bool) -> bool {
    has_review && permille > 0 && roll < permille
}

/// Whether a draw reviews, given the roll that decides it.
pub fn reviews(roll: u32, permille: i64, has_review: bool) -> (b: bool)
    ensures
        b == review_roll(roll as int, permille as int, has_review),
{
    has_review && permille > 0 && (roll as i64) < permille
}

/// A glyph drawn from the review pool of round `v` when `reviewing`, from
/// the level's own glyphs otherwise: a copy of one of them.
pub open spec fn drawn_with(v: SessionView, g: Glyph, reviewing: bool) -> bool {
    if reviewing {
        exists|k: int| 0 <= k < v.review.len() && same_glyph(g, #[trigger] v.review[k])
    } else {
        exists|k: int| 0 <= k < v.glyphs.len() && same_glyph(g, #[trigger] v.glyphs[k])
    }
}

/// What holds of a glyph drawn at random for round `v`: some roll among a
/// thousand decided the pool, through `review_roll`, and the glyph is of
/// that pool.
pub open spec fn drawn_from(v: SessionView, g: Glyph) -> bool {
    exists|roll: int| 0 <= roll < 1000 && drawn_with(v, g, #[trigger] reviews_on(v, roll))
}

/// Does this roll send a draw of round `v` to the review pool?
pub open spec fn reviews_on(v: SessionView, roll: int) -> bool {
    review_roll(roll, v.rules.review_permille as int, v.review.len() > 0)
}

/// A round whose share of review is whole always draws from the review pool
/// when there is one; a round with no share, or nothing to review, never
/// does.
pub proof fn law_review_share(v: SessionView, g: Glyph)
    requires
        drawn_from(v, g),
    ensures
        v.review.len() > 0 && v.rules.review_permille >= 1000 ==> drawn_with(v, g, true),
        v.review.len() == 0 || v.rules.review_permille <= 0 ==> drawn_with(v, g, false),
{
    let roll = choose|roll: int| 0 <= roll < 1000 && drawn_with(v, g, #[trigger] reviews_on(v, roll));
    assert(drawn_with(v, g, reviews_on(v, roll)));
}

/// What choosing the next glyph does: the new signs first, in the order of
/// the file; then a missed sign, once enough tiles appeared since the last
/// miss or the last return; otherwise a draw that favours what is badly
/// known.
pub open spec fn picked(before: SessionView, after: SessionView, g: Glyph) -> bool {
    if before.warmup.len() > 0 {
        &&& g == before.warmup[0]
        &&& after == (SessionView { warmup: before.warmup.drop_first(), ..before })
    } else if before.since_retry >= RETRY_AFTER && before.retry.len() > 0 {
        &&& g == before.retry[0]
        &&& after == (SessionView { retry: before.retry.drop_first(), since_retry: 0, ..before })
    } else {
        &&& after == before
        &&& drawn_from(before, g)
    }
}

/// A tile as it appears, just above the playing area.
pub open spec fn fresh_tile(column: i32, g: Glyph, font: usize) -> Tile {
    Tile { column, y: (-TILE_HEIGHT) as i64, glyph: g, cleared: None, font }
}

/// `after` is `before` once glyph `g` was chosen (leaving `mid`) and its tile
/// added in `column`, drawn in tracing `font`.
pub open spec fn spawned_from(
    before: SessionView,
    mid: SessionView,
    g: Glyph,
    column: i32,
    font: usize,
    after: SessionView,
) -> bool {
    &&& picked(before, mid, g)
    &&& 0 <= column < before.rules.columns
    &&& font < before.tracings
    &&& after == (SessionView {
        tiles: mid.tiles.push(fresh_tile(column, g, font)),
        spawn_timer_ms: 0,
        spawned: (mid.spawned + 1) as u32,
        since_retry: (mid.since_retry + 1) as u32,
        ..mid
    })
}

/// What a frame of `dt` milliseconds does to the appearance of tiles: the
/// timer runs; once it reaches the interval it starts again and a tile
/// appears in a column and a tracing drawn at random.
pub open spec fn spawn_step(before: SessionView, after: SessionView, dt: int) -> bool {
    let timer = before.spawn_timer_ms + dt;
    if timer < before.rules.spawn_interval_ms {
        after == (SessionView { spawn_timer_ms: timer as i64, ..before })
    } else {
        exists|mid: SessionView, g: Glyph, column: i32, font: usize| #[trigger]
            spawned_from(before, mid, g, column, font, after)
    }
}

/// Where a falling tile's top edge is after `dt` milliseconds at `speed`.
pub open spec fn fallen(y: i64, speed: int, dt: int) -> int {
    y + speed * dt / 1000
}

/// The tile falls past the line during the frame.
pub open spec fn is_lost(t: Tile, speed: int, dt: int) -> bool {
    t.cleared is None && fallen(t.y, speed, dt) + TILE_HEIGHT >= TARGET_Y
}

/// The tile is still on screen after the frame: a cleared one while its
/// flash lasts, a falling one while above the line.
pub open spec fn stays(t: Tile, speed: int, dt: int) -> bool {
    match t.cleared {
        Some(r) => r - dt > 0,
        None => fallen(t.y, speed, dt) + TILE_HEIGHT < TARGET_Y,
    }
}

/// The tile after the frame: a cleared one stays in place, its flash
/// running; a falling one moves down.
pub open spec fn moved(t: Tile, speed: int, dt: int) -> Tile {
    match t.cleared {
        Some(r) => Tile { cleared: Some((r - dt) as i64), ..t },
        None => Tile { y: fallen(t.y, speed, dt) as i64, ..t },
    }
}

/// The tiles still on screen after the frame, moved, in order.
pub open spec fn kept_tiles(s: Seq<Tile>, speed: int, dt: int) -> Seq<Tile>
    decreases s.len(),
{
    if s.len() == 0 {
        Seq::empty()
    } else if stays(s.last(), speed, dt) {
        kept_tiles(s.drop_last(), speed, dt).push(moved(s.last(), speed, dt))
    } else {
        kept_tiles(s.drop_last(), speed, dt)
    }
}

/// The glyphs of the tiles lost during the frame, in order.
pub open spec fn lost_glyphs(s: Seq<Tile>, speed: int, dt: int) -> Seq<Glyph>
    decreases s.len(),
{
    if s.len() == 0 {
        Seq::empty()
    } else if is_lost(s.last(), speed, dt) {
        lost_glyphs(s.drop_last(), speed, dt).push(s.last().glyph)
    } else {
        lost_glyphs(s.drop_last(), speed, dt)
    }
}

/// No more glyphs are lost than there were tiles.
proof fn lemma_lost_len(s: Seq<Tile>, speed: int, dt: int)
    ensures
        lost_glyphs(s, speed, dt).len() <= s.len(),
    decreases s.len(),
{
    if s.len() > 0 {
        lemma_lost_len(s.drop_last(), speed, dt);
    }
}

/// The tally once each lost glyph counts one more miss for its sign.
pub open spec fn missed_counts(tally: Map<Seq<char>, (u32, u32)>, lost: Seq<Glyph>) -> Map<Seq<char>, (u32, u32)>
    decreases lost.len(),
{
    if lost.len() == 0 {
        tally
    } else {
        let t = missed_counts(tally, lost.drop_last());
        let c = lost.last().char@;
        t.insert(c, (counts(t, c).0, (counts(t, c).1 + 1) as u32))
    }
}

/// The list of missed signs once each lost glyph is added, unless listed.
pub open spec fn listed(names: Seq<String>, lost: Seq<Glyph>) -> Seq<String>
    decreases lost.len(),
{
    if lost.len() == 0 {
        names
    } else {
        let n = listed(names, lost.drop_last());
        if knows(n, lost.last().char@) {
            n
        } else {
            n.push(lost.last().char)
        }
    }
}

/// The last `MAX_RETRIES` glyphs of `s`, or all of them.
pub open spec fn latest(s: Seq<Glyph>) -> Seq<Glyph> {
    if s.len() <= MAX_RETRIES {
        s
    } else {
        s.subrange(s.len() - MAX_RETRIES, s.len() as int)
    }
}

/// The round after the tiles moved for `dt` milliseconds: each lost tile
/// leaves the screen, costs a life and counts as a miss of its sign, which
/// is listed for the correction and queued to come back, the wait before a
/// return starting over; a cleared tile leaves once its flash is over.
pub open spec fn advanced(v: SessionView, dt: int) -> SessionView {
    let speed = speed_at(v.rules.speed, v.spawned as nat);
    let lost = lost_glyphs(v.tiles, speed, dt);
    SessionView {
        tiles: kept_tiles(v.tiles, speed, dt),
        missed: (v.missed + lost.len()) as u32,
        tally: missed_counts(v.tally, lost),
        missed_glyphs: listed(v.missed_glyphs, lost),
        retry: latest(v.retry + lost),
        since_retry: if lost.len() > 0 {
            0
        } else {
            v.since_retry
        },
        lives: if v.lives > lost.len() {
            (v.lives - lost.len()) as u32
        } else {
            0
        },
        events: if lost.len() > 0 {
            v.events.push(Event::Missed)
        } else {
            v.events
        },
        shake_ms: if lost.len() > 0 {
            SHAKE_DURATION_MS
        } else {
            v.shake_ms
        },
        ..v
    }
}

/// Pushing a glyph on the queue and dropping its head when too long keeps
/// the latest glyphs.
proof fn lemma_latest_push(x: Seq<Glyph>, g: Glyph)
    ensures
        latest(x.push(g)) == (if latest(x).push(g).len() > MAX_RETRIES {
            latest(x).push(g).subrange(1, latest(x).push(g).len() as int)
        } else {
            latest(x).push(g)
        }),
{
    let y = latest(x).push(g);
    if y.len() > MAX_RETRIES {
        assert(latest(x.push(g)) =~= y.subrange(1, y.len() as int));
    } else {
        assert(latest(x.push(g)) =~= y);
    }
}

/// Moves the tiles for a frame: those that stay, moved, and the glyphs of
/// those lost.
fn sort_tiles(tiles: Vec<Tile>, speed: i64, dt_ms: i64) -> (r: (Vec<Tile>, Vec<Glyph>))
    requires
        speed >= 0,
        0 <= dt_ms <= RULE_LIMIT,
        forall|i: int| 0 <= i < tiles@.len() ==> ((#[trigger] tiles@[i]).cleared matches Some(r) ==> r > 0),
    ensures
        r.0@ == kept_tiles(tiles@, speed as int, dt_ms as int),
        r.1@ == lost_glyphs(tiles@, speed as int, dt_ms as int),
        forall|i: int| 0 <= i < r.0@.len() ==> ((#[trigger] r.0@[i]).cleared matches Some(c) ==> c > 0),
{
    let ghost src = tiles@;
    let ghost sp = speed as int;
    let ghost d = dt_ms as int;
    let mut rest = tiles;
    let mut kept: Vec<Tile> = Vec::new();
    let mut lost: Vec<Glyph> = Vec::new();
    let mut done: usize = 0;
    let total = rest.len();
    while rest.len() > 0
        invariant
            total == src.len(),
            speed >= 0,
            0 <= dt_ms <= RULE_LIMIT,
            sp == speed as int,
            d == dt_ms as int,
            forall|i: int| 0 <= i < src.len() ==> ((#[trigger] src[i]).cleared matches Some(r) ==> r > 0),
            done <= src.len(),
            rest@ == src.skip(done as int),
            kept@ == kept_tiles(src.take(done as int), sp, d),
            lost@ == lost_glyphs(src.take(done as int), sp, d),
            forall|i: int| 0 <= i < kept@.len() ==> ((#[trigger] kept@[i]).cleared matches Some(c) ==> c > 0),
        decreases rest@.len(),
    {
        let ghost before = src.take(done as int);
        assert(src.skip(done as int).len() == src.len() - done);
        let mut tile = rest.remove(0);
        proof {
            assert(tile == src[done as int]);
            assert(src.take(done + 1).drop_last() =~= before);
            assert(src.take(done + 1).last() == tile);
            assert(rest@ =~= src.skip(done + 1));
        }
        match tile.cleared {
            Some(left) => {
                let remaining = left - dt_ms;
                if remaining > 0 {
                    tile.cleared = Some(remaining);
                    kept.push(tile);
                }
            },
            None => {
                assert(0 <= speed as i128 * dt_ms as i128 <= 0x7fff_ffff_ffff_ffff * RULE_LIMIT) by (nonlinear_arith)
                    requires
                        0 <= speed,
                        0 <= dt_ms <= RULE_LIMIT,
                ;
                let drop: i128 = (speed as i128 * dt_ms as i128) / 1000;
                let y: i128 = tile.y as i128 + drop;
                if y + TILE_HEIGHT as i128 >= TARGET_Y as i128 {
                    lost.push(tile.glyph);
                } else {
                    tile.y = y as i64;
                    kept.push(tile);
                }
            },
        }
        done = done + 1;
    }
    proof {
        assert(src.take(src.len() as int) =~= src);
    }
    (kept, lost)
}

/// Signs recognised over everything attempted, wrong answers included, in
/// thousandths; 0 when nothing was attempted, or standing still would earn
/// three stars.
pub open spec fn accuracy_of(hits: int, missed: int, wrong: int) -> int {
    let attempts = hits + missed + wrong;
    if attempts == 0 {
        0
    } else {
        hits * 1000 / attempts
    }
}

/// Accuracy is successes over every attempt, in thousandths rounded down: a
/// tile lost past the line counts as an attempt exactly like a wrong answer,
/// so a round with any loss or mistake falls short of 1000, and one with
/// neither reaches it.
pub proof fn law_accuracy_counts_every_attempt(hits: int, missed: int, wrong: int)
    requires
        hits >= 0,
        missed >= 0,
        wrong >= 0,
        hits + missed + wrong > 0,
    ensures
        accuracy_of(hits, missed, wrong) * (hits + missed + wrong) <= hits * 1000,
        hits * 1000 < (accuracy_of(hits, missed, wrong) + 1) * (hits + missed + wrong),
        missed > 0 || wrong > 0 ==> accuracy_of(hits, missed, wrong) < 1000,
        missed == 0 && wrong == 0 ==> accuracy_of(hits, missed, wrong) == 1000,
        accuracy_of(hits, missed + 1, wrong) == accuracy_of(hits, missed, wrong + 1),
{
    let t = hits + missed + wrong;
    let a = accuracy_of(hits, missed, wrong);
    assert(a == hits * 1000 / t);
    assert(a * t <= hits * 1000 < (a + 1) * t) by (nonlinear_arith)
        requires
            a == hits * 1000 / t,
            t > 0,
            hits >= 0,
    ;
    if missed > 0 || wrong > 0 {
        assert(a < 1000) by (nonlinear_arith)
            requires
                a * t <= hits * 1000,
                hits < t,
                t > 0,
        ;
    }
    if missed == 0 && wrong == 0 {
        assert(hits * 1000 / hits == 1000) by (nonlinear_arith)
            requires
                hits > 0,
        ;
    }
}

/// `signs` lists each sign of the tally once, in the order of the signs,
/// with its successes and misses.
pub open spec fn lists_tally(signs: Seq<SignResult>, tally: Map<Seq<char>, (u32, u32)>) -> bool {
    &&& forall|i: int, j: int| 0 <= i < j < signs.len() ==> lex_lt(#[trigger] signs[i].character@, #[trigger] signs[j].character@)
    &&& forall|i: int|
        0 <= i < signs.len() ==> tally.contains_key(#[trigger] signs[i].character@) && tally[signs[i].character@]
            == (signs[i].hits, signs[i].misses)
    &&& forall|c: Seq<char>| #[trigger] tally.contains_key(c) ==> exists|i: int| 0 <= i < signs.len() && signs[i].character@ == c
}

/// `o` reports round `v`, ended for `reason`.
pub open spec fn reports(o: Outcome, v: SessionView, reason: EndReason) -> bool {
    &&& o.language_id@ == v.language_id
    &&& o.level_id@ == v.level_id
    &&& o.score == v.score
    &&& o.hits == v.hits
    &&& o.accuracy == accuracy_of(v.hits as int, v.missed as int, v.wrong as int)
    &&& o.stars == stars_for(v.stars, o.accuracy as int)
    &&& o.reason == reason
    &&& !o.is_record
    &&& o.is_revision == v.is_revision
    &&& o.mode == v.mode
    &&& o.is_perfect == (v.hits > 0 && v.missed == 0 && v.wrong == 0)
    &&& o.missed_glyphs@ == v.missed_glyphs
    &&& lists_tally(o.signs@, v.tally)
}

/// The shaking once `dt` milliseconds went by.
pub open spec fn shaken(v: SessionView, dt: int) -> SessionView {
    SessionView {
        shake_ms: if v.shake_ms - dt > 0 {
            (v.shake_ms - dt) as i64
        } else {
            0
        },
        ..v
    }
}

/// The clock once `dt` milliseconds went by; it stops at zero. A round
/// without a clock keeps none.
pub open spec fn clocked(v: SessionView, dt: int) -> SessionView {
    if v.rules.duration_ms > 0 {
        SessionView {
            time_left_ms: if v.time_left_ms - dt > 0 {
                (v.time_left_ms - dt) as i64
            } else {
                0
            },
            ..v
        }
    } else {
        v
    }
}

/// A tile lost during a frame restarts the wait: its sign joins the end of
/// the queue, and the queue is not served before tiles appear again.
pub proof fn law_miss_restarts_wait(v: SessionView, dt: int)
    requires
        lost_glyphs(v.tiles, speed_at(v.rules.speed, v.spawned as nat), dt).len() > 0,
    ensures
        advanced(v, dt).since_retry == 0,
        advanced(v, dt).retry.len() > 0,
        advanced(v, dt).retry.last() == lost_glyphs(v.tiles, speed_at(v.rules.speed, v.spawned as nat), dt).last(),
{
    let lost = lost_glyphs(v.tiles, speed_at(v.rules.speed, v.spawned as nat), dt);
    let all = v.retry + lost;
    assert(all.last() == lost.last());
    if all.len() > MAX_RETRIES {
        assert(latest(all).last() == all[all.len() - 1]);
    }
}

/// While fewer than `RETRY_AFTER` tiles appeared since the last miss or the
/// last return, a new tile leaves the queue as it was, and the wait grows by
/// one tile.
pub proof fn law_queue_waits(
    before: SessionView,
    mid: SessionView,
    g: Glyph,
    column: i32,
    font: usize,
    after: SessionView,
)
    requires
        spawned_from(before, mid, g, column, font, after),
        before.since_retry < RETRY_AFTER,
    ensures
        after.retry == before.retry,
        after.since_retry == before.since_retry + 1,
{
}

/// The clock of a timed round runs out within the next `dt` milliseconds.
pub open spec fn runs_out(v: SessionView, dt: int) -> bool {
    v.rules.duration_ms > 0 && v.time_left_ms - dt <= 0
}

/// The review pool of level `j` holds every sign taught by the levels it
/// requires, directly or not, however long the chain; each sign once; and
/// nothing but glyphs of those levels.
pub proof fn law_review_pool(levels: Seq<Level>, j: int)
    requires
        0 <= j < levels.len(),
    ensures
        forall|a: int, b: int|
            0 <= a < b < review_of(levels, j).len() ==> (#[trigger] review_of(levels, j)[a]).char@
                != (#[trigger] review_of(levels, j)[b]).char@,
        forall|k: int, g: int|
            0 <= k < levels.len() && reaches(levels, j, k) && 0 <= g < levels[k].glyphs@.len() ==> has_sign(
                review_of(levels, j),
                (#[trigger] levels[k].glyphs@[g]).char@,
            ),
        forall|a: int| 0 <= a < review_of(levels, j).len() ==> from_reached(levels, j, #[trigger] review_of(levels, j)[a]),
{
    lemma_review(levels, j);
}

/// Every missed sign is listed, and none twice when none was before.
pub proof fn law_missed_listed_once(names: Seq<String>, lost: Seq<Glyph>)
    requires
        forall|a: int, b: int| 0 <= a < b < names.len() ==> (#[trigger] names[a])@ != (#[trigger] names[b])@,
    ensures
        forall|a: int, b: int|
            0 <= a < b < listed(names, lost).len() ==> (#[trigger] listed(names, lost)[a])@
                != (#[trigger] listed(names, lost)[b])@,
        forall|i: int| 0 <= i < lost.len() ==> knows(listed(names, lost), (#[trigger] lost[i]).char@),
        forall|i: int| 0 <= i < names.len() ==> knows(listed(names, lost), (#[trigger] names[i])@),
    decreases lost.len(),
{
    if lost.len() > 0 {
        law_missed_listed_once(names, lost.drop_last());
        let n = listed(names, lost.drop_last());
        let c = lost.last().char@;
        if !knows(n, c) {
            let m = n.push(lost.last().char);
            assert forall|a: int, b: int| 0 <= a < b < m.len() implies (#[trigger] m[a])@ != (#[trigger] m[b])@ by {
                if b == n.len() {
                    assert(m[a] == n[a]);
                } else {
                    assert(m[a] == n[a] && m[b] == n[b]);
                }
            }
        }
        let l = listed(names, lost);
        assert forall|i: int| 0 <= i < lost.len() implies knows(l, (#[trigger] lost[i]).char@) by {
            if i < lost.len() - 1 {
                assert(lost.drop_last()[i] == lost[i]);
                let k = choose|k: int| 0 <= k < n.len() && (#[trigger] n[k])@ == lost[i].char@;
                assert(l[k] == n[k]);
            } else if !knows(n, c) {
                assert(l[n.len() as int]@ == c);
            }
        }
        assert forall|i: int| 0 <= i < names.len() implies knows(l, (#[trigger] names[i])@) by {
            let k = choose|k: int| 0 <= k < n.len() && (#[trigger] n[k])@ == names[i]@;
            assert(l[k] == n[k]);
        }
    } else {
        assert forall|i: int| 0 <= i < names.len() implies knows(listed(names, lost), (#[trigger] names[i])@) by {
            assert(names[i]@ == names[i]@);
        }
    }
}

/// The glyphs kept by `met_glyphs` are those of the source whose sign was met.
proof fn lemma_met_members(s: Seq<Glyph>, met: spec_fn(Seq<char>) -> bool)
    ensures
        forall|x: Glyph| #[trigger] met_glyphs(s, met).contains(x) <==> (s.contains(x) && met(x.char@)),
    decreases s.len(),
{
    if s.len() > 0 {
        lemma_met_members(s.drop_last(), met);
        let r = met_glyphs(s, met);
        let before = met_glyphs(s.drop_last(), met);
        assert forall|x: Glyph| #[trigger] r.contains(x) <==> (s.contains(x) && met(x.char@)) by {
            if r.contains(x) {
                let i = choose|i: int| 0 <= i < r.len() && r[i] == x;
                if i < before.len() {
                    assert(before[i] == x);
                    assert(before.contains(x));
                    let k = choose|k: int| 0 <= k < s.drop_last().len() && s.drop_last()[k] == x;
                    assert(s[k] == x);
                } else {
                    assert(s[s.len() - 1] == x);
                }
            }
            if s.contains(x) && met(x.char@) {
                let k = choose|k: int| 0 <= k < s.len() && s[k] == x;
                if k < s.len() - 1 {
                    assert(s.drop_last()[k] == x);
                    assert(s.drop_last().contains(x));
                    assert(before.contains(x));
                    let i = choose|i: int| 0 <= i < before.len() && before[i] == x;
                    assert(r[i] == x);
                } else {
                    assert(r[before.len() as int] == x);
                }
            }
        }
    }
}

/// The members of the met glyphs of the first `n` levels.
proof fn lemma_learned_members(levels: Seq<Level>, met: spec_fn(Seq<char>) -> bool, n: int)
    requires
        0 <= n <= levels.len(),
    ensures
        forall|x: Glyph|
            #[trigger] learned_glyphs(levels, met, n).contains(x) <==> met(x.char@) && exists|k: int, g: int|
                0 <= k < n && 0 <= g < levels[k].glyphs@.len() && levels[k].glyphs@[g] == x,
    decreases n,
{
    if n > 0 {
        lemma_learned_members(levels, met, n - 1);
        let own = levels[n - 1].glyphs@;
        lemma_met_members(own, met);
        let before = learned_glyphs(levels, met, n - 1);
        let mine = met_glyphs(own, met);
        let all = learned_glyphs(levels, met, n);
        assert forall|x: Glyph| #[trigger] all.contains(x) <==> met(x.char@) && exists|k: int, g: int|
            0 <= k < n && 0 <= g < levels[k].glyphs@.len() && levels[k].glyphs@[g] == x by {
            if all.contains(x) {
                let i = choose|i: int| 0 <= i < all.len() && all[i] == x;
                if i < before.len() {
                    assert(before[i] == x);
                    assert(before.contains(x));
                } else {
                    assert(mine[i - before.len()] == x);
                    assert(mine.contains(x));
                    let g = choose|g: int| 0 <= g < own.len() && own[g] == x;
                    assert(levels[n - 1].glyphs@[g] == x);
                }
            }
            if met(x.char@) && exists|k: int, g: int|
                0 <= k < n && 0 <= g < levels[k].glyphs@.len() && levels[k].glyphs@[g] == x {
                let (k, g) = choose|k: int, g: int|
                    0 <= k < n && 0 <= g < levels[k].glyphs@.len() && levels[k].glyphs@[g] == x;
                if k < n - 1 {
                    assert(before.contains(x));
                    let i = choose|i: int| 0 <= i < before.len() && before[i] == x;
                    assert(all[i] == x);
                } else {
                    assert(own[g] == x);
                    assert(own.contains(x));
                    assert(mine.contains(x));
                    let i = choose|i: int| 0 <= i < mine.len() && mine[i] == x;
                    assert(all[before.len() + i] == x);
                }
            }
        }
    }
}

/// A free revision holds only signs already met, each once, taken from the
/// path's glyphs; and every sign of the path already met.
pub proof fn law_revision_pool(levels: Seq<Level>, progress: Progress, language_id: Seq<char>)
    ensures
        forall|a: int, b: int|
            0 <= a < b < revision_pool(levels, progress, language_id).len() ==> (#[trigger] revision_pool(
                levels,
                progress,
                language_id,
            )[a]).char@ != (#[trigger] revision_pool(levels, progress, language_id)[b]).char@,
        forall|a: int|
            0 <= a < revision_pool(levels, progress, language_id).len() ==> progress.script_signs(
                language_id,
            ).contains_key((#[trigger] revision_pool(levels, progress, language_id)[a]).char@),
        forall|a: int|
            0 <= a < revision_pool(levels, progress, language_id).len() ==> exists|k: int, g: int|
                0 <= k < levels.len() && 0 <= g < levels[k].glyphs@.len() && levels[k].glyphs@[g]
                    == #[trigger] revision_pool(levels, progress, language_id)[a],
        forall|k: int, g: int|
            0 <= k < levels.len() && 0 <= g < levels[k].glyphs@.len() && progress.script_signs(language_id).contains_key(
                (#[trigger] levels[k].glyphs@[g]).char@,
            ) ==> has_sign(revision_pool(levels, progress, language_id), levels[k].glyphs@[g].char@),
{
    let met = |c: Seq<char>| progress.script_signs(language_id).contains_key(c);
    let source = learned_glyphs(levels, met, levels.len() as int);
    let pool = revision_pool(levels, progress, language_id);
    assert(pool == first_of_each(source));
    lemma_learned_members(levels, met, levels.len() as int);
    lemma_first_of_each_unique(source);
    lemma_first_of_each_complete(source);
    lemma_first_of_each_from(source);
    assert forall|a: int| 0 <= a < pool.len() implies progress.script_signs(language_id).contains_key(
        (#[trigger] pool[a]).char@,
    ) by {
        assert(source.contains(pool[a]));
    }
    assert forall|a: int| 0 <= a < pool.len() implies exists|k: int, g: int|
        0 <= k < levels.len() && 0 <= g < levels[k].glyphs@.len() && levels[k].glyphs@[g] == #[trigger] pool[a] by {
        assert(source.contains(pool[a]));
    }
    assert forall|k: int, g: int|
        0 <= k < levels.len() && 0 <= g < levels[k].glyphs@.len() && progress.script_signs(language_id).contains_key(
            (#[trigger] levels[k].glyphs@[g]).char@,
        ) implies has_sign(pool, levels[k].glyphs@[g].char@) by {
        let x = levels[k].glyphs@[g];
        assert(source.contains(x));
        let i = choose|i: int| 0 <= i < source.len() && source[i] == x;
        assert(has_sign(first_of_each(source), source[i].char@));
    }
}

/// A mode keeps rules playable.
proof fn lemma_mode_playable(mode: Mode, rules: Rules)
    requires
        scalable_rules(rules),
        level_rules_sane(rules),
    ensures
        playable_rules(mode_rules(mode, rules)),
{
    let i = rules.spawn_interval_ms;
    assert((i * 72) / 100 <= i && (i * 55) / 100 <= i && (i * 9) / 10 <= i) by (nonlinear_arith)
        requires
            i >= 0,
    ;
    assert(0 <= (i * 55) / 100 && 0 <= (i * 9) / 10) by (nonlinear_arith)
        requires
            i >= 0,
    ;
    let s = rules.speed;
    assert(forall|x: int, n: int, d: int| 0 <= x && 0 <= n && 0 < d ==> #[trigger] ((x * n) / d) >= 0) by {
        assert forall|x: int, n: int, d: int| 0 <= x && 0 <= n && 0 < d implies #[trigger] ((x * n) / d) >= 0 by {
            assert((x * n) / d >= 0) by (nonlinear_arith)
                requires
                    0 <= x,
                    0 <= n,
                    0 < d,
            ;
        }
    }
}

/// What the checks of the catalogue and the machine limits give a level's
/// rules.
pub open spec fn level_rules_sane(rules: Rules) -> bool {
    &&& 1 <= rules.columns <= RANDOM_LIMIT
    &&& rules.speed.start >= 0
    &&& rules.speed.ramp >= 0
    &&& rules.speed.max >= 0
}

/// Adds the draw weight of each glyph of `glyphs`.
fn add_weights(
    weights: &mut TextMap<u32>,
    progress: &Progress,
    language_id: &str,
    glyphs: &Vec<Glyph>,
    Ghost(before): Ghost<Seq<Glyph>>,
)
    requires
        old(weights).wf(),
        progress.wf(),
        old(weights).as_map() == draw_weights(*progress, language_id@, before),
    ensures
        final(weights).wf(),
        final(weights).as_map() == draw_weights(*progress, language_id@, before + glyphs@),
{
    let mut k: usize = 0;
    while k < glyphs.len()
        invariant
            weights.wf(),
            progress.wf(),
            k <= glyphs@.len(),
            weights.as_map() == draw_weights(*progress, language_id@, before + glyphs@.take(k as int)),
        decreases glyphs@.len() - k,
    {
        let w = progress.draw_weight(language_id, glyphs[k].char.as_str());
        let ghost prefix = before + glyphs@.take(k as int);
        weights.insert(glyphs[k].char.clone(), w);
        proof {
            let next = before + glyphs@.take(k + 1);
            assert(next =~= prefix.push(glyphs@[k as int]));
            assert forall|c: Seq<char>| has_sign(next, c) <==> (has_sign(prefix, c) || c == glyphs@[k as int].char@) by {
                if has_sign(next, c) {
                    let i = choose|i: int| 0 <= i < next.len() && (#[trigger] next[i]).char@ == c;
                    if i < prefix.len() {
                        assert(prefix[i] == next[i]);
                    }
                }
                if has_sign(prefix, c) {
                    let i = choose|i: int| 0 <= i < prefix.len() && (#[trigger] prefix[i]).char@ == c;
                    assert(next[i] == prefix[i]);
                }
                if c == glyphs@[k as int].char@ {
                    assert(next[prefix.len() as int] == glyphs@[k as int]);
                }
            }
            assert(weights.as_map() =~= draw_weights(*progress, language_id@, next));
        }
        k = k + 1;
    }
    assert(glyphs@.take(glyphs@.len() as int) =~= glyphs@);
}

/// Draw weights from the progress stay between one and the heaviest.
proof fn lemma_draw_weights_light(progress: Progress, language: Seq<char>, s: Seq<Glyph>)
    requires
        progress.wf(),
    ensures
        light_weights(draw_weights(progress, language, s)),
{
    assert forall|c: Seq<char>| #[trigger] draw_weights(progress, language, s).contains_key(c) implies draw_weights(
        progress,
        language,
        s,
    )[c] <= MAX_WEIGHT by {
        progress.law_mastery_within_bounds(language, c);
    }
}

impl Session {
    /// Prepares a round on a level. `None` when the catalogue has no such
    /// level in this script.
    pub fn new(
        catalog: &Catalog,
        progress: &Progress,
        language_id: &str,
        level_id: &str,
        mode: Mode,
        tracings: usize,
    ) -> (s: Option<Session>)
        requires
            catalog_check(catalog.languages@, 0) is None,
            catalog_fits(catalog.languages@),
            progress.wf(),
            tracings <= RANDOM_LIMIT,
        ensures
            match s {
                None => !level_exists(catalog.languages@, language_id@, level_id@),
                Some(s) => s.wf() && started_on(
                    s@,
                    catalog.languages@,
                    *progress,
                    language_id@,
                    level_id@,
                    mode,
                    tracings,
                ),
            },
    {
        let language = match catalog.language(language_id) {
            Some(language) => language,
            None => {
                return None;
            },
        };
        let ghost li = find_language(catalog.languages@, language_id@)->0;
        let j = match find_level_index(&language.levels, level_id) {
            Some(j) => j,
            None => {
                return None;
            },
        };
        let level = &language.levels[j];
        proof {
            law_valid_catalog(catalog.languages@, li, j as int);
            assert(fits_language(catalog.languages@[li]));
            assert(fits_level(language.levels@[j as int]));
            lemma_mode_playable(mode, level.rules);
        }
        let review = gather_review(&language.levels, j);
        proof {
            lemma_review(language.levels@, j as int);
            lemma_within_path(language.levels@, |c: Seq<char>| true, language.levels@.len() as int);
        }
        let glyphs = level.glyphs.clone();
        let mut warmup: std::collections::VecDeque<Glyph> = std::collections::VecDeque::new();
        let mut k: usize = 0;
        while k < level.glyphs.len()
            invariant
                k <= level.glyphs@.len(),
                copies(warmup@, level.glyphs@.take(k as int)),
            decreases level.glyphs@.len() - k,
        {
            let copy = level.glyphs[k].clone();
            proof {
                assert forall|i: int| 0 <= i < k + 1 implies same_glyph(
                    #[trigger] warmup@.push(copy)[i],
                    level.glyphs@.take(k + 1)[i],
                ) by {
                    if i < k {
                        assert(warmup@.push(copy)[i] == warmup@[i]);
                    }
                }
            }
            warmup.push_back(copy);
            k = k + 1;
        }
        proof {
            assert(level.glyphs@.take(level.glyphs@.len() as int) =~= level.glyphs@);
            assert(copies(glyphs@, level.glyphs@)) by {
                assert forall|i: int| 0 <= i < glyphs@.len() implies same_glyph(#[trigger] glyphs@[i], level.glyphs@[i]) by {
                    assert(vstd::pervasive::cloned::<Glyph>(level.glyphs@[i], glyphs@[i]));
                }
            }
        }
        let mut weights: TextMap<u32> = TextMap::new();
        proof {
            assert(weights.as_map() =~= draw_weights(*progress, language_id@, Seq::empty()));
            assert(Seq::<Glyph>::empty() + glyphs@ =~= glyphs@);
        }
        add_weights(&mut weights, progress, language_id, &glyphs, Ghost(Seq::empty()));
        add_weights(&mut weights, progress, language_id, &review, Ghost(glyphs@));
        proof {
            lemma_draw_weights_light(*progress, language_id@, glyphs@ + review@);
        }
        let rules = mode.apply(&level.rules);
        let session = Session {
            language_id: text_of(language_id),
            level_id: text_of(level_id),
            level_title: level.title.clone(),
            rules,
            stars: level.stars,
            glyphs,
            review,
            warmup,
            retry: std::collections::VecDeque::new(),
            weights,
            tally: TextMap::new(),
            tiles: Vec::new(),
            score: 0,
            lives: level.rules.lives,
            input: String::new(),
            time_left_ms: rules.duration_ms,
            spawn_timer_ms: 0,
            spawned: 0,
            since_retry: 0,
            hits: 0,
            missed: 0,
            wrong: 0,
            missed_glyphs: Vec::new(),
            events: Vec::new(),
            shake_ms: 0,
            is_revision: false,
            mode,
            tracings: if tracings >= 1 {
                tracings
            } else {
                1
            },
        };
        Some(session)
    }

    /// Prepares a free revision of everything met in a script. `None` when
    /// the catalogue has no such script, or when nothing of it was met yet:
    /// revising signs never seen would be an exam, not a revision.
    pub fn revision(
        catalog: &Catalog,
        progress: &Progress,
        language_id: &str,
        tracings: usize,
    ) -> (s: Option<Session>)
        requires
            catalog_check(catalog.languages@, 0) is None,
            catalog_fits(catalog.languages@),
            progress.wf(),
            tracings <= RANDOM_LIMIT,
        ensures
            match s {
                None => find_language(catalog.languages@, language_id@) is None || revision_pool(
                    catalog.languages@[find_language(catalog.languages@, language_id@)->0].levels@,
                    *progress,
                    language_id@,
                ).len() == 0,
                Some(s) => s.wf() && revision_started(s@, catalog.languages@, *progress, language_id@, tracings),
            },
    {
        let language = match catalog.language(language_id) {
            Some(language) => language,
            None => {
                return None;
            },
        };
        let ghost li = find_language(catalog.languages@, language_id@)->0;
        let learned = progress.learned_signs(language_id);
        let glyphs = gather_learned(&language.levels, &learned);
        proof {
            assert(known_in(learned@) =~= (|c: Seq<char>| progress.script_signs(language_id@).contains_key(c)));
            assert(fits_language(catalog.languages@[li]));
            lemma_within_path(
                language.levels@,
                known_in(learned@),
                language.levels@.len() as int,
            );
            lemma_first_of_each_len(learned_glyphs(language.levels@, known_in(learned@), language.levels@.len() as int));
        }
        if glyphs.len() == 0 {
            return None;
        }
        let mut weights: TextMap<u32> = TextMap::new();
        proof {
            assert(weights.as_map() =~= draw_weights(*progress, language_id@, Seq::empty()));
            assert(Seq::<Glyph>::empty() + glyphs@ =~= glyphs@);
        }
        add_weights(&mut weights, progress, language_id, &glyphs, Ghost(Seq::empty()));
        proof {
            lemma_draw_weights_light(*progress, language_id@, glyphs@);
        }
        let rules = Rules {
            lives: 3,
            duration_ms: 90_000,
            columns: 4,
            spawn_interval_ms: 1500,
            speed: Speed { start: 55_000, ramp: 1_200, max: 170_000 },
            review_permille: 0,
        };
        Some(
            Session {
                language_id: text_of(language_id),
                level_id: String::new(),
                level_title: text_of("Revision libre"),
                rules,
                stars: Stars { one: 500, two: 750, three: 900 },
                glyphs,
                review: Vec::new(),
                warmup: std::collections::VecDeque::new(),
                retry: std::collections::VecDeque::new(),
                weights,
                tally: TextMap::new(),
                tiles: Vec::new(),
                score: 0,
                lives: 3,
                input: String::new(),
                time_left_ms: 90_000,
                spawn_timer_ms: 0,
                spawned: 0,
                since_retry: 0,
                hits: 0,
                missed: 0,
                wrong: 0,
                missed_glyphs: Vec::new(),
                events: Vec::new(),
                shake_ms: 0,
                is_revision: true,
                mode: Mode::Normal,
                tracings: if tracings >= 1 {
                    tracings
                } else {
                    1
                },
            },
        )
    }

    /// Width of a column, in whole virtual pixels.
    pub fn tile_width(&self) -> (w: i64)
        requires
            self.wf(),
        ensures
            w == (PLAYFIELD_WIDTH as int) / (self.rules.columns as int),
    {
        PLAYFIELD_WIDTH / self.rules.columns as i64
    }

    /// Left edge of the playing area, centred on the canvas, in whole
    /// virtual pixels.
    pub fn playfield_x(&self) -> (x: i64)
        requires
            self.wf(),
        ensures
            x == (CANVAS_WIDTH - ((PLAYFIELD_WIDTH as int) / (self.rules.columns as int)) * self.rules.columns) / 2,
    {
        let columns = self.rules.columns as i64;
        let width = self.tile_width();
        assert(0 <= width * columns <= PLAYFIELD_WIDTH) by (nonlinear_arith)
            requires
                width == PLAYFIELD_WIDTH / columns,
                columns >= 1,
        ;
        (CANVAS_WIDTH - width * columns) / 2
    }

    /// Share of the time left, in thousandths between 0 and 1000. Always 0
    /// when the level has no clock, so that the gauge stays empty rather
    /// than lie.
    pub fn time_ratio(&self) -> (ratio: u32)
        requires
            self.wf(),
        ensures
            ratio == time_share(self.rules.duration_ms as int, self.time_left_ms as int),
    {
        if self.rules.is_timed() {
            let share: i128 = self.time_left_ms as i128 * 1000 / self.rules.duration_ms as i128;
            if share < 0 {
                0
            } else if share > 1000 {
                1000
            } else {
                share as u32
            }
        } else {
            0
        }
    }

    /// What happened since the last reading; then forgets it.
    pub fn take_events(&mut self) -> (events: Vec<Event>)
        ensures
            events@ == old(self)@.events,
            final(self)@ == (SessionView { events: Seq::empty(), ..old(self)@ }),
    {
        let mut events: Vec<Event> = Vec::new();
        std::mem::swap(&mut events, &mut self.events);
        events
    }

    /// Adds a letter to the input, whichever keyboard it came from: the
    /// round does not know whether the one on screen or the physical one
    /// was used, and need not know.
    pub fn type_letter(&mut self, letter: char)
        ensures
            is_alphanumeric(letter) ==> final(self)@ == (SessionView {
                input: old(self)@.input.push(first_lowercase(letter)),
                ..old(self)@
            }),
            !is_alphanumeric(letter) ==> final(self)@ == old(self)@,
    {
        if char_is_alphanumeric(letter) {
            push_char(&mut self.input, char_first_lowercase(letter));
        }
    }

    /// Removes the last letter of the input, if any.
    pub fn erase(&mut self)
        ensures
            final(self)@ == (SessionView {
                input: if old(self)@.input.len() > 0 {
                    old(self)@.input.drop_last()
                } else {
                    old(self)@.input
                },
                ..old(self)@
            }),
    {
        pop_char(&mut self.input);
    }

    /// Submits the input.
    pub fn submit(&mut self)
        requires
            old(self).wf(),
            old(self).hits < u32::MAX,
            old(self).score <= u32::MAX - POINTS_PER_HIT,
            old(self).wrong < u32::MAX,
        ensures
            final(self).wf(),
            final(self)@ == validated(old(self)@),
    {
        self.validate();
    }

    /// Checks the input against the falling tiles.
    pub fn validate(&mut self)
        requires
            old(self).wf(),
            old(self).hits < u32::MAX,
            old(self).score <= u32::MAX - POINTS_PER_HIT,
            old(self).wrong < u32::MAX,
        ensures
            final(self).wf(),
            final(self)@ == validated(old(self)@),
    {
        let ghost start = self@;
        let mut answer = String::new();
        std::mem::swap(&mut answer, &mut self.input);
        if answer.as_str().is_empty() {
            assert(self@ =~= start);
            return;
        }
        match find_target(&self.tiles, answer.as_str()) {
            Some(t) => {
                let ghost tiles = self.tiles@;
                let mut tile = self.tiles.remove(t);
                tile.cleared = Some(CLEAR_FLASH_MS);
                let character = tile.glyph.char.clone();
                self.tiles.insert(t, tile);
                assert(self.tiles@ =~= tiles.update(t as int, Tile { cleared: Some(CLEAR_FLASH_MS), ..tiles[t as int] }));
                self.hits = self.hits + 1;
                self.score = self.score + POINTS_PER_HIT;
                self.events.push(Event::Hit);
                let counted: (u32, u32) = match self.tally.get(character.as_str()) {
                    Some(c) => *c,
                    None => (0, 0),
                };
                assert(counted == counts(start.tally, character@));
                self.tally.insert(character, (counted.0 + 1, counted.1));
                proof {
                    assert forall|i: int|
                        0 <= i < self.tiles@.len() implies ((#[trigger] self.tiles@[i]).cleared matches Some(r) ==> r > 0) by {
                        if i != t {
                            assert(self.tiles@[i] == tiles[i]);
                        }
                    }
                }
            },
            None => {
                self.wrong = self.wrong + 1;
                self.events.push(Event::Wrong);
            },
        }
        assert(self@ =~= validated(start));
    }

    /// Chooses the next sign to fall.
    pub fn pick_glyph(&mut self) -> (g: Glyph)
        requires
            old(self).wf(),
        ensures
            final(self).wf(),
            picked(old(self)@, final(self)@, g),
    {
        let ghost start = self@;
        match self.warmup.pop_front() {
            Some(g) => {
                assert(self@ =~= (SessionView { warmup: start.warmup.drop_first(), ..start }));
                return g;
            },
            None => {},
        }
        if self.since_retry >= RETRY_AFTER {
            match self.retry.pop_front() {
                Some(g) => {
                    self.since_retry = 0;
                    assert(self@ =~= (SessionView { retry: start.retry.drop_first(), since_retry: 0, ..start }));
                    return g;
                },
                None => {},
            }
        }
        assert(self@ =~= start);
        // The roll is drawn only when it can matter, as a short circuit would.
        let has_review = self.review.len() > 0;
        let roll: u32 = if has_review && self.rules.review_permille > 0 {
            random_below(1000)
        } else {
            0
        };
        let reviewing = reviews(roll, self.rules.review_permille, has_review);
        let g = self.draw_glyph(reviewing);
        assert(reviews_on(start, roll as int) == reviewing);
        g
    }

    /// Draws a glyph from the review pool when `reviewing`, from the level's
    /// glyphs otherwise, favouring what is badly known.
    pub fn draw_glyph(&self, reviewing: bool) -> (g: Glyph)
        requires
            self.wf(),
            reviewing ==> self.review@.len() > 0,
        ensures
            drawn_with(self@, g, reviewing),
    {
        if reviewing {
            let k = weighted_pick(&self.review, &self.weights);
            let g = self.review[k].clone();
            assert(same_glyph(g, self@.review[k as int]));
            g
        } else {
            let k = weighted_pick(&self.glyphs, &self.weights);
            let g = self.glyphs[k].clone();
            assert(same_glyph(g, self@.glyphs[k as int]));
            g
        }
    }

    /// Lets `dt_ms` milliseconds pass for the appearance of tiles.
    pub fn spawn(&mut self, dt_ms: i64)
        requires
            old(self).wf(),
            0 <= dt_ms <= RULE_LIMIT,
            old(self).spawned < u32::MAX,
        ensures
            final(self).wf(),
            spawn_step(old(self)@, final(self)@, dt_ms as int),
            final(self).tiles@.len() <= old(self).tiles@.len() + 1,
            final(self).missed == old(self).missed,
            final(self).time_left_ms == old(self).time_left_ms,
            final(self).rules == old(self).rules,
    {
        let ghost start = self@;
        self.spawn_timer_ms = self.spawn_timer_ms + dt_ms;
        if self.spawn_timer_ms < self.rules.spawn_interval_ms {
            assert(self@ =~= (SessionView { spawn_timer_ms: (start.spawn_timer_ms + dt_ms) as i64, ..start }));
            return;
        }
        self.spawn_timer_ms = self.spawn_timer_ms - dt_ms;
        assert(self@ =~= start);
        let glyph = self.pick_glyph();
        let ghost mid = self@;
        let ghost g = glyph;
        let column = random_below(self.rules.columns as u32) as i32;
        let font = random_below(self.tracings as u32) as usize;
        self.tiles.push(Tile { column, y: -TILE_HEIGHT, glyph, cleared: None, font });
        self.spawn_timer_ms = 0;
        self.spawned = self.spawned + 1;
        self.since_retry = self.since_retry + 1;
        proof {
            assert(self.tiles@ =~= mid.tiles.push(fresh_tile(column, g, font)));
            assert(self@ =~= (SessionView {
                tiles: mid.tiles.push(fresh_tile(column, g, font)),
                spawn_timer_ms: 0,
                spawned: (mid.spawned + 1) as u32,
                since_retry: (mid.since_retry + 1) as u32,
                ..mid
            }));
            assert(spawned_from(start, mid, g, column, font, self@));
            assert forall|i: int|
                0 <= i < self.tiles@.len() implies ((#[trigger] self.tiles@[i]).cleared matches Some(r) ==> r > 0) by {
                if i < mid.tiles.len() {
                    assert(self.tiles@[i] == mid.tiles[i]);
                }
            }
        }
    }

    /// Counts the lost glyphs: one miss each, for the round and for its
    /// sign; each sign listed once for the correction; each queued to come
    /// back, the queue keeping only the latest.
    fn note_lost(&mut self, lost: Vec<Glyph>)
        requires
            old(self).wf(),
            old(self).missed + lost@.len() <= u32::MAX,
        ensures
            final(self).wf(),
            final(self)@ == (SessionView {
                missed: (old(self)@.missed + lost@.len()) as u32,
                tally: missed_counts(old(self)@.tally, lost@),
                missed_glyphs: listed(old(self)@.missed_glyphs, lost@),
                retry: latest(old(self)@.retry + lost@),
                ..old(self)@
            }),
    {
        let ghost start = self@;
        let ghost all = lost@;
        let mut rest = lost;
        let total = rest.len();
        let mut done: usize = 0;
        proof {
            assert(all.take(0) =~= Seq::<Glyph>::empty());
            assert(start.retry + all.take(0) =~= start.retry);
            assert(latest(start.retry) == start.retry);
            assert(self@ =~= (SessionView {
                missed: (start.missed + 0) as u32,
                tally: missed_counts(start.tally, all.take(0)),
                missed_glyphs: listed(start.missed_glyphs, all.take(0)),
                retry: latest(start.retry + all.take(0)),
                ..start
            }));
        }
        while rest.len() > 0
            invariant
                self.wf(),
                start.missed + all.len() <= u32::MAX,
                total == all.len(),
                done <= all.len(),
                rest@ == all.skip(done as int),
                self.missed == start.missed + done,
                self@ == (SessionView {
                    missed: (start.missed + done) as u32,
                    tally: missed_counts(start.tally, all.take(done as int)),
                    missed_glyphs: listed(start.missed_glyphs, all.take(done as int)),
                    retry: latest(start.retry + all.take(done as int)),
                    ..start
                }),
            decreases rest@.len(),
        {
            let ghost prefix = all.take(done as int);
            let ghost before = self@;
            let glyph = rest.remove(0);
            proof {
                assert(glyph == all[done as int]);
                assert(all.take(done + 1).drop_last() =~= prefix);
                assert(all.take(done + 1).last() == glyph);
                assert(rest@ =~= all.skip(done + 1));
                assert(start.retry + all.take(done + 1) =~= (start.retry + prefix).push(glyph));
                lemma_latest_push(start.retry + prefix, glyph);
            }
            self.missed = self.missed + 1;
            let character = glyph.char.clone();
            let counted: (u32, u32) = match self.tally.get(character.as_str()) {
                Some(c) => *c,
                None => (0, 0),
            };
            assert(counted == counts(before.tally, character@));
            self.tally.insert(character.clone(), (counted.0, counted.1 + 1));
            if !knows_sign(&self.missed_glyphs, character.as_str()) {
                self.missed_glyphs.push(character);
            }
            self.retry.push_back(glyph);
            if self.retry.len() > MAX_RETRIES {
                self.retry.pop_front();
            }
            done = done + 1;
            proof {
                assert forall|c: Seq<char>| #[trigger] self.tally.as_map().contains_key(c) implies self.tally.as_map()[c].0
                    <= self.hits && self.tally.as_map()[c].1 <= self.missed by {
                    if c != character@ {
                        assert(before.tally.contains_key(c));
                    }
                }
                assert(self@ =~= (SessionView {
                    missed: (start.missed + done) as u32,
                    tally: missed_counts(start.tally, all.take(done as int)),
                    missed_glyphs: listed(start.missed_glyphs, all.take(done as int)),
                    retry: latest(start.retry + all.take(done as int)),
                    ..start
                }));
            }
        }
        proof {
            assert(all.take(all.len() as int) =~= all);
        }
    }

    /// Moves the tiles for `dt_ms` milliseconds.
    pub fn advance_tiles(&mut self, dt_ms: i64)
        requires
            old(self).wf(),
            0 <= dt_ms <= RULE_LIMIT,
            old(self).missed + old(self).tiles@.len() <= u32::MAX,
        ensures
            final(self).wf(),
            final(self)@ == advanced(old(self)@, dt_ms as int),
    {
        let ghost start = self@;
        let speed = self.rules.speed.at(self.spawned);
        let mut tiles: Vec<Tile> = Vec::new();
        std::mem::swap(&mut tiles, &mut self.tiles);
        let (kept, lost) = sort_tiles(tiles, speed, dt_ms);
        proof {
            lemma_lost_len(start.tiles, speed as int, dt_ms as int);
        }
        self.tiles = kept;
        let count = lost.len();
        self.note_lost(lost);
        if self.lives > count as u32 {
            self.lives = self.lives - count as u32;
        } else {
            self.lives = 0;
        }
        if count > 0 {
            self.events.push(Event::Missed);
            self.shake_ms = SHAKE_DURATION_MS;
            // The correction has to be read before the sign comes back.
            self.since_retry = 0;
        }
        assert(self@ =~= advanced(start, dt_ms as int));
    }

    /// Signs recognised over everything attempted, in thousandths.
    pub fn accuracy(&self) -> (a: u32)
        ensures
            a == accuracy_of(self.hits as int, self.missed as int, self.wrong as int),
            a <= 1000,
    {
        let attempts: u64 = self.hits as u64 + self.missed as u64 + self.wrong as u64;
        if attempts == 0 {
            return 0;
        }
        let hits = self.hits as u64;
        assert(hits * 1000 / (attempts as int) <= 1000) by (nonlinear_arith)
            requires
                hits <= attempts,
                attempts > 0,
        ;
        (hits * 1000 / attempts) as u32
    }

    /// The report of the round, ended for `reason`.
    pub fn outcome(&self, reason: EndReason) -> (o: Outcome)
        requires
            self.wf(),
        ensures
            reports(o, self@, reason),
    {
        let accuracy = self.accuracy();
        let mut signs: Vec<SignResult> = Vec::new();
        let mut i: usize = 0;
        while i < self.tally.len()
            invariant
                self.tally.wf(),
                i <= self.tally.entries().len(),
                signs@.len() == i,
                forall|j: int|
                    0 <= j < i ==> (#[trigger] signs@[j]).character@ == self.tally.entries()[j].0@ && signs@[j].hits
                        == self.tally.entries()[j].1.0 && signs@[j].misses == self.tally.entries()[j].1.1,
            decreases self.tally.entries().len() - i,
        {
            let (character, counted) = self.tally.entry_at(i);
            signs.push(SignResult { character: character.clone(), hits: counted.0, misses: counted.1 });
            i = i + 1;
        }
        proof {
            let entries = self.tally.entries();
            assert forall|a: int| 0 <= a < signs@.len() implies self.tally.as_map().contains_key(
                #[trigger] signs@[a].character@,
            ) && self.tally.as_map()[signs@[a].character@] == (signs@[a].hits, signs@[a].misses) by {
                lemma_entry_in_map(entries, a);
            }
            assert forall|c: Seq<char>| #[trigger] self.tally.as_map().contains_key(c) implies exists|a: int|
                0 <= a < signs@.len() && signs@[a].character@ == c by {
                assert(has_key(entries, c));
                let a = choose|a: int| 0 <= a < entries.len() && entries[a].0@ == c;
                assert(signs@[a].character@ == c);
            }
            assert forall|a: int, b: int| 0 <= a < b < signs@.len() implies lex_lt(
                #[trigger] signs@[a].character@,
                #[trigger] signs@[b].character@,
            ) by {
                assert(lex_lt(entries[a].0@, entries[b].0@));
            }
        }
        let missed_glyphs = self.missed_glyphs.clone();
        proof {
            assert forall|k: int| 0 <= k < missed_glyphs@.len() implies #[trigger] missed_glyphs@[k] == self.missed_glyphs@[k] by {
                assert(vstd::pervasive::cloned::<String>(self.missed_glyphs@[k], missed_glyphs@[k]));
            }
            assert(missed_glyphs@ =~= self.missed_glyphs@);
        }
        Outcome {
            language_id: self.language_id.clone(),
            level_id: self.level_id.clone(),
            score: self.score,
            hits: self.hits,
            accuracy,
            stars: self.stars.rate(accuracy),
            reason,
            is_record: false,
            is_revision: self.is_revision,
            mode: self.mode,
            is_perfect: self.hits > 0 && self.missed == 0 && self.wrong == 0,
            missed_glyphs,
            signs,
        }
    }

    /// Moves the round on by a frame of `dt_ms` milliseconds: the shaking
    /// calms down, a tile may appear, the tiles move, the clock runs. Gives
    /// the report when the round ends: the clock ran out, or the lives did.
    pub fn update(&mut self, dt_ms: i64) -> (r: Option<Outcome>)
        requires
            old(self).wf(),
            0 <= dt_ms <= RULE_LIMIT,
            old(self).spawned < u32::MAX,
            old(self).missed + old(self).tiles@.len() + 1 <= u32::MAX,
        ensures
            final(self).wf(),
            exists|mid: SessionView| #[trigger]
                spawn_step(shaken(old(self)@, dt_ms as int), mid, dt_ms as int) && final(self)@ == clocked(
                    advanced(mid, dt_ms as int),
                    dt_ms as int,
                ),
            match r {
                Some(o) => reports(
                    o,
                    final(self)@,
                    if runs_out(old(self)@, dt_ms as int) {
                        EndReason::TimeUp
                    } else {
                        EndReason::OutOfLives
                    },
                ) && (runs_out(old(self)@, dt_ms as int) || final(self).lives == 0),
                None => !runs_out(old(self)@, dt_ms as int) && final(self).lives > 0,
            },
    {
        let ghost start = self@;
        self.shake_ms = if self.shake_ms - dt_ms > 0 {
            self.shake_ms - dt_ms
        } else {
            0
        };
        assert(self@ =~= shaken(start, dt_ms as int));
        self.spawn(dt_ms);
        let ghost mid = self@;
        self.advance_tiles(dt_ms);
        assert(self@ == advanced(mid, dt_ms as int));
        if self.rules.is_timed() {
            self.time_left_ms = self.time_left_ms - dt_ms;
            if self.time_left_ms <= 0 {
                self.time_left_ms = 0;
                assert(self@ =~= clocked(advanced(mid, dt_ms as int), dt_ms as int));
                return Some(self.outcome(EndReason::TimeUp));
            }
        }
        assert(self@ =~= clocked(advanced(mid, dt_ms as int), dt_ms as int));
        if self.lives == 0 {
            return Some(self.outcome(EndReason::OutOfLives));
        }
        None
    }

    /// How far the playing area may be shaken this frame, in whole virtual
    /// pixels; 0 when it is still. Losing a life shakes the screen: the heart
    /// going out is too discreet when the eyes are on the tiles.
    pub fn shake_strength(&self) -> (strength: i64)
        requires
            self.wf(),
        ensures
            strength == shake_pixels(self.shake_ms as int),
    {
        if self.shake_ms <= 0 {
            0
        } else {
            (self.shake_ms * SHAKE_PIXELS + SHAKE_DURATION_MS - 1) / SHAKE_DURATION_MS
        }
    }
}

} // verus!
