//! The teaching content: scripts, the levels of their paths, and the signs
//! each level teaches.
//!
//! Everything that drives the game lives here. Quantities that the level
//! files write as decimals are held as whole numbers in a fixed unit: times
//! in milliseconds, distances in thousandths of a virtual pixel, ratios in
//! thousandths. Whole numbers compare and add exactly, which is what the
//! rules of a round need.

use vstd::prelude::*;

use crate::text::{is_white_space, lemma_trim_surrounded, lowercase, same_text, to_lowercase_text, trim_text, trimmed};

verus! {

/// A sign to recognise, and the readings accepted for it.
#[derive(Debug)]
pub struct Glyph {
    /// The sign itself ("ㄱ", "あ"...).
    pub char: String,
    /// Every correct romanisation. The first is the one shown to the player;
    /// the others are tolerated variants ("si" / "shi").
    pub answers: Vec<String>,
    /// How to remember the sign.
    pub mnemonics: Vec<String>,
}

/// Two glyphs that hold the same sign, answers and mnemonics.
pub open spec fn same_glyph(a: Glyph, b: Glyph) -> bool {
    a.char == b.char && a.answers@ == b.answers@ && a.mnemonics@ == b.mnemonics@
}

impl Clone for Glyph {
    fn clone(&self) -> (copy: Self)
        ensures
            same_glyph(copy, *self),
    {
        let answers = self.answers.clone();
        let mnemonics = self.mnemonics.clone();
        proof {
            assert(answers@ =~= self.answers@);
            assert(mnemonics@ =~= self.mnemonics@);
        }
        Glyph { char: self.char.clone(), answers, mnemonics }
    }
}

/// Does a typed reading match one of the answers? Case and surrounding white
/// space do not count: the game rates knowledge, not dexterity.
pub open spec fn accepts_reading(answers: Seq<String>, input: Seq<char>) -> bool {
    exists|i: int| 0 <= i < answers.len() && lowercase(answers[i]@) == lowercase(trimmed(input))
}

/// Spaces, tabulations or line breaks around a reading do not count: a reading
/// with them is accepted exactly when the bare reading is.
pub proof fn law_spaces_never_count(answers: Seq<String>, before: Seq<char>, input: Seq<char>, after: Seq<char>)
    requires
        forall|i: int| 0 <= i < before.len() ==> is_white_space(#[trigger] before[i]),
        forall|i: int| 0 <= i < after.len() ==> is_white_space(#[trigger] after[i]),
    ensures
        accepts_reading(answers, before + input + after) == accepts_reading(answers, input),
{
    lemma_trim_surrounded(before, input, after);
}

/// The verdict depends on what was typed only through its trimmed, lowercase
/// form: two readings that agree there are accepted alike. A sign without an
/// answer accepts nothing.
pub proof fn law_verdict_by_reading(answers: Seq<String>, a: Seq<char>, b: Seq<char>)
    requires
        lowercase(trimmed(a)) == lowercase(trimmed(b)),
    ensures
        accepts_reading(answers, a) == accepts_reading(answers, b),
        answers.len() == 0 ==> !accepts_reading(answers, a),
{
}

impl Glyph {
    /// Is the player's input accepted for this sign?
    pub fn accepts(&self, input: &str) -> (ok: bool)
        ensures
            ok == accepts_reading(self.answers@, input@),
    {
        let typed = to_lowercase_text(trim_text(input));
        let mut i: usize = 0;
        while i < self.answers.len()
            invariant
                i <= self.answers@.len(),
                typed@ == lowercase(trimmed(input@)),
                forall|j: int| 0 <= j < i ==> lowercase(#[trigger] self.answers@[j]@) != typed@,
            decreases self.answers@.len() - i,
        {
            let answer = to_lowercase_text(self.answers[i].as_str());
            if answer == typed {
                return true;
            }
            i = i + 1;
        }
        false
    }

    /// The reference romanisation, shown in briefings and corrections; empty
    /// when the sign has no answer at all.
    pub fn primary_answer(&self) -> (answer: &str)
        ensures
            self.answers@.len() > 0 ==> answer@ == self.answers@[0]@,
            self.answers@.len() == 0 ==> answer@ == Seq::<char>::empty(),
    {
        if self.answers.len() > 0 {
            self.answers[0].as_str()
        } else {
            proof {
                reveal_strlit("");
            }
            ""
        }
    }
}

/// How a level is played. A single game exists so far; the field is there
/// so that a second one does not require migrating every level file.
#[derive(Debug, Clone, Copy, PartialEq, Eq)]
pub enum GameMode {
    /// Tiles fall, the player types the reading before the red line.
    TileFall,
}

impl Default for GameMode {
    fn default() -> (mode: Self)
        ensures
            mode == GameMode::TileFall,
    {
        GameMode::TileFall
    }
}

/// How fast tiles fall: slowly at first, faster with every tile.
///
/// In thousandths of a virtual pixel per second.
#[derive(Debug, Clone, Copy)]
pub struct Speed {
    /// Falling speed of the first tile.
    pub start: i64,
    /// Gain for every tile that has appeared.
    pub ramp: i64,
    /// Ceiling, so that the level stays playable.
    pub max: i64,
}

/// The speed after `spawned` tiles, capped at `max`.
pub open spec fn speed_at(speed: Speed, spawned: nat) -> int {
    let raw = speed.start + speed.ramp * spawned;
    if raw < speed.max {
        raw
    } else {
        speed.max as int
    }
}

impl Default for Speed {
    fn default() -> (speed: Self)
        ensures
            speed.start == 120_000 && speed.ramp == 4_000 && speed.max == 420_000,
    {
        Speed { start: 120_000, ramp: 4_000, max: 420_000 }
    }
}

impl Speed {
    /// The speed after `spawned` tiles.
    pub fn at(&self, spawned: u32) -> (v: i64)
        requires
            self.start >= 0,
            self.ramp >= 0,
            self.max >= 0,
        ensures
            v == speed_at(*self, spawned as nat),
    {
        let ramp = self.ramp as i128;
        let count = spawned as i128;
        proof {
            assert(ramp * count <= 0x7fff_ffff_ffff_ffff * 0xffff_ffff) by (nonlinear_arith)
                requires
                    0 <= ramp <= 0x7fff_ffff_ffff_ffff,
                    0 <= count <= 0xffff_ffff,
            ;
            assert(0 <= ramp * count) by (nonlinear_arith)
                requires
                    0 <= ramp,
                    0 <= count,
            ;
        }
        let raw: i128 = self.start as i128 + ramp * count;
        if raw < self.max as i128 {
            raw as i64
        } else {
            self.max
        }
    }
}

/// The accuracy thresholds that give one, two or three stars, in
/// thousandths.
#[derive(Debug, Clone, Copy)]
pub struct Stars {
    pub one: i64,
    pub two: i64,
    pub three: i64,
}

/// Stars for an accuracy, in thousandths.
pub open spec fn stars_for(stars: Stars, accuracy: int) -> u8 {
    if accuracy >= stars.three {
        3
    } else if accuracy >= stars.two {
        2
    } else if accuracy >= stars.one {
        1
    } else {
        0
    }
}

impl Stars {
    /// Rating out of three for an accuracy between 0 and 1000.
    pub fn rate(&self, accuracy: u32) -> (rating: u8)
        ensures
            rating == stars_for(*self, accuracy as int),
    {
        let accuracy = accuracy as i64;
        if accuracy >= self.three {
            3
        } else if accuracy >= self.two {
            2
        } else if accuracy >= self.one {
            1
        } else {
            0
        }
    }
}

/// The difficulty settings of a level.
#[derive(Debug, Clone, Copy)]
pub struct Rules {
    pub lives: u32,
    /// Length of a round; `0` means no time limit.
    pub duration_ms: i64,
    pub columns: i32,
    /// Time between two tiles.
    pub spawn_interval_ms: i64,
    pub speed: Speed,
    /// Share of the draws taken from the prerequisite levels, in thousandths.
    /// It is what keeps what was just learned from being forgotten.
    pub review_permille: i64,
}

/// Lives when a level file gives none.
pub fn default_lives() -> (lives: u32)
    ensures
        lives == 3,
{
    3
}

/// Columns when a level file gives none.
pub fn default_columns() -> (columns: i32)
    ensures
        columns == 4,
{
    4
}

/// Time between two tiles when a level file gives none: 1.2 s.
pub fn default_spawn_interval() -> (ms: i64)
    ensures
        ms == 1200,
{
    1200
}

impl Default for Rules {
    fn default() -> (rules: Self)
        ensures
            rules.lives == 3,
            rules.duration_ms == 0,
            rules.columns == 4,
            rules.spawn_interval_ms == 1200,
            rules.speed.start == 120_000 && rules.speed.ramp == 4_000 && rules.speed.max == 420_000,
            rules.review_permille == 0,
    {
        Rules {
            lives: default_lives(),
            duration_ms: 0,
            columns: default_columns(),
            spawn_interval_ms: default_spawn_interval(),
            speed: Speed::default(),
            review_permille: 0,
        }
    }
}

impl Rules {
    /// Is the round played against the clock?
    pub fn is_timed(&self) -> (timed: bool)
        ensures
            timed == (self.duration_ms > 0),
    {
        self.duration_ms > 0
    }
}

/// One step of a learning path.
#[derive(Debug)]
pub struct Level {
    /// Unique over the whole catalogue (prefixed by the language).
    pub id: String,
    pub title: String,
    pub subtitle: String,
    /// Position on the path; also the display order.
    pub order: u32,
    /// Levels to finish before this one opens. Empty: a starting point.
    pub requires: Vec<String>,
    pub mode: GameMode,
    pub rules: Rules,
    pub stars: Stars,
    pub glyphs: Vec<Glyph>,
}

/// `i` is the first position of a level called `id`.
pub open spec fn is_first_level(levels: Seq<Level>, id: Seq<char>, i: int) -> bool {
    &&& 0 <= i < levels.len()
    &&& levels[i].id@ == id
    &&& forall|j: int| 0 <= j < i ==> (#[trigger] levels[j]).id@ != id
}

/// The position of the first level called `id`, if any.
pub open spec fn find_level(levels: Seq<Level>, id: Seq<char>) -> Option<int> {
    if exists|i: int| is_first_level(levels, id, i) {
        Some(choose|i: int| is_first_level(levels, id, i))
    } else {
        None
    }
}

/// Only one position is the first.
pub proof fn lemma_first_level_unique(levels: Seq<Level>, id: Seq<char>, i: int)
    requires
        is_first_level(levels, id, i),
    ensures
        find_level(levels, id) == Some(i),
{
    let j = choose|j: int| is_first_level(levels, id, j);
    if j < i {
        assert(levels[j].id@ != id);
    } else if j > i {
        assert(levels[i].id@ != id);
    }
}

/// Looks for the first level called `id`.
pub fn find_level_index(levels: &Vec<Level>, id: &str) -> (r: Option<usize>)
    ensures
        match r {
            Some(i) => find_level(levels@, id@) == Some(i as int),
            None => find_level(levels@, id@) == None::<int>,
        },
{
    let mut i: usize = 0;
    while i < levels.len()
        invariant
            i <= levels@.len(),
            forall|j: int| 0 <= j < i ==> (#[trigger] levels@[j]).id@ != id@,
        decreases levels@.len() - i,
    {
        if same_text(levels[i].id.as_str(), id) {
            proof {
                lemma_first_level_unique(levels@, id@, i as int);
            }
            return Some(i);
        }
        i = i + 1;
    }
    assert(!exists|k: int| is_first_level(levels@, id@, k));
    None
}

/// A script to learn: Korean, hiragana, katakana, kanji...
#[derive(Debug)]
pub struct Language {
    /// Stable identifier, used by the saves.
    pub id: String,
    /// Name shown in the interface's language ("Coréen").
    pub name: String,
    /// Name in the script itself ("한국어").
    pub native_name: String,
    pub description: String,
    /// The fonts able to draw this script; the first is the reference.
    pub fonts: Vec<String>,
    /// The steps of the path, in display order.
    pub levels: Vec<Level>,
}

impl Language {
    /// The first level of this language called `id`.
    pub fn level(&self, id: &str) -> (l: Option<&Level>)
        ensures
            match l {
                Some(l) => exists|i: int| find_level(self.levels@, id@) == Some(i) && *l == self.levels@[i],
                None => find_level(self.levels@, id@) == None::<int>,
            },
    {
        match find_level_index(&self.levels, id) {
            Some(i) => Some(&self.levels[i]),
            None => None,
        }
    }
}

/// `i` is the first position of a language called `id`.
pub open spec fn is_first_language(languages: Seq<Language>, id: Seq<char>, i: int) -> bool {
    &&& 0 <= i < languages.len()
    &&& languages[i].id@ == id
    &&& forall|j: int| 0 <= j < i ==> (#[trigger] languages[j]).id@ != id
}

/// The position of the first language called `id`, if any.
pub open spec fn find_language(languages: Seq<Language>, id: Seq<char>) -> Option<int> {
    if exists|i: int| is_first_language(languages, id, i) {
        Some(choose|i: int| is_first_language(languages, id, i))
    } else {
        None
    }
}

/// Every language loaded.
#[derive(Debug)]
pub struct Catalog {
    pub languages: Vec<Language>,
}

impl Catalog {
    /// The first language called `id`.
    pub fn language(&self, id: &str) -> (l: Option<&Language>)
        ensures
            match l {
                Some(l) => exists|i: int| find_language(self.languages@, id@) == Some(i) && *l == self.languages@[i],
                None => find_language(self.languages@, id@) == None::<int>,
            },
    {
        let mut i: usize = 0;
        while i < self.languages.len()
            invariant
                i <= self.languages@.len(),
                forall|j: int| 0 <= j < i ==> (#[trigger] self.languages@[j]).id@ != id@,
            decreases self.languages@.len() - i,
        {
            if same_text(self.languages[i].id.as_str(), id) {
                proof {
                    assert(is_first_language(self.languages@, id@, i as int));
                    let k = choose|k: int| is_first_language(self.languages@, id@, k);
                    if k < i {
                        assert(self.languages@[k].id@ != id@);
                    } else if k > i {
                        assert(self.languages@[i as int].id@ != id@);
                    }
                }
                return Some(&self.languages[i]);
            }
            i = i + 1;
        }
        assert(!exists|k: int| is_first_language(self.languages@, id@, k));
        None
    }
}

} // verus!
