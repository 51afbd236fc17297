//! The player's progress: the stars earned on each level, and so which levels
//! are open; how well each sign is known; what the harder modes gave.

use vstd::prelude::*;

use crate::draw::knows;
use crate::keyed::{has_key, inserted_all, entries_map, lemma_entry_in_map, lemma_inserted_sorted, lemma_prefix_map, sorted_entries, TextMap};
use crate::mode::Mode;
use crate::model::{Catalog, Language, Level};
use crate::text::{same_text, text_of};

verus! {

/// Most stars a level can give.
pub const MAX_STARS: u8 = 3;

/// A sign never met stands at zero; these bounds frame what mastery can be.
pub const WEAKEST: i8 = -4;
pub const STRONGEST: i8 = 4;

/// A mistake weighs more than a success.
///
/// Without this asymmetry, a sign missed one time in three would end up
/// passing for learned although it is not.
pub const HIT_GAIN: i8 = 1;
pub const MISS_COST: i8 = 2;

/// Version of the save format. A save of an unknown version is ignored
/// rather than misread: better start over than open levels at random.
pub const FORMAT_VERSION: u32 = 1;

/// What a level gave in its modes beyond the normal one.
#[derive(Debug, Clone, Copy, PartialEq, Eq)]
pub struct LevelModes {
    /// The fast mode was finished without a single mistake.
    pub fast_perfect: bool,
    /// So was the ultra mode.
    pub ultra_perfect: bool,
    /// Best score in the endless mode. There is nothing else to win there.
    pub endless_best: u32,
}

impl Default for LevelModes {
    fn default() -> (modes: Self)
        ensures
            modes == no_modes(),
    {
        LevelModes { fast_perfect: false, ultra_perfect: false, endless_best: 0 }
    }
}

/// Nothing won in any mode.
pub open spec fn no_modes() -> LevelModes {
    LevelModes { fast_perfect: false, ultra_perfect: false, endless_best: 0 }
}

/// A mastery within its bounds.
pub open spec fn bounded_mastery(m: i8) -> bool {
    WEAKEST <= m <= STRONGEST
}

/// Mastery after a round: one point per success, two off per mistake,
/// within the bounds.
pub open spec fn noted_mastery(current: int, hits: int, misses: int) -> int {
    let raw = current + hits * HIT_GAIN - misses * MISS_COST;
    if raw < WEAKEST {
        WEAKEST as int
    } else if raw > STRONGEST {
        STRONGEST as int
    } else {
        raw
    }
}

/// How often a sign of this mastery is drawn: the worse it is known, the
/// more it comes back.
pub open spec fn weight_for(mastery: int) -> int {
    STRONGEST - mastery + 1
}

/// The player's progress.
pub struct Progress {
    version: u32,
    /// Level identifier to best result in stars.
    best: TextMap<u8>,
    /// Mastery of each sign, by script then by sign.
    ///
    /// By script because a sign does not exist outside its own: mixing Korean
    /// and Japanese in one table made it impossible to say what was learned
    /// of a given script. Within a script the key stays the sign, not the
    /// level: a sign learned at step 2 and seen again at step 9 is the same.
    signs: TextMap<TextMap<i8>>,
    /// What the harder modes gave, by level.
    modes: TextMap<LevelModes>,
    /// The former table, all scripts mixed, kept until it is read once.
    legacy: TextMap<i8>,
}

/// A table of masteries: sorted, every value within bounds.
pub open spec fn mastery_table(t: TextMap<i8>) -> bool {
    &&& t.wf()
    &&& forall|k: Seq<char>| #[trigger] t.as_map().contains_key(k) ==> bounded_mastery(t.as_map()[k])
}

impl Progress {
    /// Well formed: every table sorted, every mastery within bounds.
    pub open spec fn wf(&self) -> bool {
        &&& self.best_table().wf()
        &&& self.signs_table().wf()
        &&& forall|l: Seq<char>| #[trigger] self.signs_table().as_map().contains_key(l) ==> mastery_table(self.signs_table().as_map()[l])
        &&& self.modes_table().wf()
        &&& mastery_table(self.legacy_table())
    }

    pub closed spec fn best_table(&self) -> TextMap<u8> {
        self.best
    }

    pub closed spec fn signs_table(&self) -> TextMap<TextMap<i8>> {
        self.signs
    }

    pub closed spec fn modes_table(&self) -> TextMap<LevelModes> {
        self.modes
    }

    pub closed spec fn legacy_table(&self) -> TextMap<i8> {
        self.legacy
    }

    pub closed spec fn format_version(&self) -> u32 {
        self.version
    }

    /// Best stars on a level, 0 when never won.
    pub open spec fn best_of(&self, level: Seq<char>) -> u8 {
        if self.best_table().as_map().contains_key(level) {
            self.best_table().as_map()[level]
        } else {
            0
        }
    }

    /// The masteries of a script, as a map.
    pub open spec fn script_signs(&self, language: Seq<char>) -> Map<Seq<char>, i8> {
        if self.signs_table().as_map().contains_key(language) {
            self.signs_table().as_map()[language].as_map()
        } else {
            Map::empty()
        }
    }

    /// The mastery of a sign, 0 when never met.
    pub open spec fn mastery_of(&self, language: Seq<char>, sign: Seq<char>) -> i8 {
        if self.script_signs(language).contains_key(sign) {
            self.script_signs(language)[sign]
        } else {
            0
        }
    }

    /// What the modes gave on a level.
    pub open spec fn modes_of(&self, level: Seq<char>) -> LevelModes {
        if self.modes_table().as_map().contains_key(level) {
            self.modes_table().as_map()[level]
        } else {
            no_modes()
        }
    }

    /// Whatever was recorded, the mastery of a sign stays within its
    /// bounds.
    pub proof fn law_mastery_within_bounds(&self, language: Seq<char>, sign: Seq<char>)
        requires
            self.wf(),
        ensures
            bounded_mastery(self.mastery_of(language, sign)),
            1 <= weight_for(self.mastery_of(language, sign) as int) <= 9,
    {
        if self.signs_table().as_map().contains_key(language) {
            assert(mastery_table(self.signs_table().as_map()[language]));
        }
    }

    /// A fresh progress, in the current format.
    pub fn new() -> (p: Self)
        ensures
            p.wf(),
            p.format_version() == FORMAT_VERSION,
            p.best_table().as_map() == Map::<Seq<char>, u8>::empty(),
            p.signs_table().as_map() == Map::<Seq<char>, TextMap<i8>>::empty(),
            p.modes_table().as_map() == Map::<Seq<char>, LevelModes>::empty(),
            p.legacy_table().as_map() == Map::<Seq<char>, i8>::empty(),
    {
        Progress {
            version: FORMAT_VERSION,
            best: TextMap::new(),
            signs: TextMap::new(),
            modes: TextMap::new(),
            legacy: TextMap::new(),
        }
    }

    /// The format the progress was written in.
    pub fn version(&self) -> (v: u32)
        ensures
            v == self.format_version(),
    {
        self.version
    }

    /// The best result on this level, 0 when never won.
    pub fn stars(&self, level_id: &str) -> (stars: u8)
        requires
            self.wf(),
        ensures
            stars == self.best_of(level_id@),
    {
        match self.best.get(level_id) {
            Some(stars) => *stars,
            None => 0,
        }
    }

    /// A level counts as finished from its first star: that is what opens
    /// the rest of the path. Aiming for three stars stays optional.
    pub fn is_completed(&self, level_id: &str) -> (done: bool)
        requires
            self.wf(),
        ensures
            done == (self.best_of(level_id@) > 0),
    {
        self.stars(level_id) > 0
    }

    /// Records a result, never lowering the best one. Returns `true` when it
    /// is a new record.
    pub fn record(&mut self, level_id: &str, stars: u8) -> (is_record: bool)
        requires
            old(self).wf(),
        ensures
            final(self).wf(),
            is_record == (min_stars(stars) > old(self).best_of(level_id@)),
            is_record ==> final(self).best_table().as_map() == old(self).best_table().as_map().insert(
                level_id@,
                min_stars(stars),
            ),
            !is_record ==> final(self).best_table() == old(self).best_table(),
            final(self).best_of(level_id@) == (if min_stars(stars) > old(self).best_of(level_id@) {
                min_stars(stars)
            } else {
                old(self).best_of(level_id@)
            }),
            forall|l: Seq<char>| #[trigger] final(self).best_of(l) >= old(self).best_of(l),
            final(self).signs_table() == old(self).signs_table(),
            final(self).modes_table() == old(self).modes_table(),
            final(self).legacy_table() == old(self).legacy_table(),
            final(self).format_version() == old(self).format_version(),
    {
        let stars = if stars < MAX_STARS {
            stars
        } else {
            MAX_STARS
        };
        let previous = self.stars(level_id);
        if stars > previous {
            self.best.insert(text_of(level_id), stars);
            true
        } else {
            false
        }
    }

    /// How solid a sign is. Zero for a sign never met.
    pub fn mastery(&self, language_id: &str, character: &str) -> (m: i8)
        requires
            self.wf(),
        ensures
            m == self.mastery_of(language_id@, character@),
            bounded_mastery(m),
    {
        match self.signs.get(language_id) {
            Some(signs) => match signs.get(character) {
                Some(m) => *m,
                None => 0,
            },
            None => 0,
        }
    }

    /// Is this sign still shaky?
    pub fn is_shaky(&self, language_id: &str, character: &str) -> (shaky: bool)
        requires
            self.wf(),
        ensures
            shaky == (self.mastery_of(language_id@, character@) < 0),
    {
        self.mastery(language_id, character) < 0
    }

    /// How often a sign is drawn: the worse it is known, the more it comes
    /// back. Between 1 and 9.
    pub fn draw_weight(&self, language_id: &str, character: &str) -> (w: u32)
        requires
            self.wf(),
        ensures
            w == weight_for(self.mastery_of(language_id@, character@) as int),
            1 <= w <= 9,
    {
        (STRONGEST - self.mastery(language_id, character) + 1) as u32
    }

    /// Records what a sign gave in a round.
    ///
    /// The sign is stored even when successes and mistakes cancel out: it was
    /// seen, so it belongs among the signs met in its script.
    pub fn note(&mut self, language_id: &str, character: &str, hits: u32, misses: u32)
        requires
            old(self).wf(),
        ensures
            final(self).wf(),
            final(self).script_signs(language_id@)
                == old(self).script_signs(language_id@).insert(
                character@,
                noted_mastery(
                    old(self).mastery_of(language_id@, character@) as int,
                    hits as int,
                    misses as int,
                ) as i8,
            ),
            forall|l: Seq<char>| l != language_id@ ==> #[trigger] final(self).script_signs(l) == old(self).script_signs(l),
            final(self).best_table() == old(self).best_table(),
            final(self).modes_table() == old(self).modes_table(),
            final(self).legacy_table() == old(self).legacy_table(),
            final(self).format_version() == old(self).format_version(),
    {
        assert(hits * HIT_GAIN == hits && misses * MISS_COST == 2 * misses) by (nonlinear_arith)
            requires
                HIT_GAIN == 1,
                MISS_COST == 2,
        ;
        let gained: i64 = hits as i64 * HIT_GAIN as i64;
        let lost: i64 = misses as i64 * MISS_COST as i64;
        let delta: i64 = gained - lost;
        let current = self.mastery(language_id, character) as i64;
        let raw = current + delta;
        let updated: i8 = if raw < WEAKEST as i64 {
            WEAKEST
        } else if raw > STRONGEST as i64 {
            STRONGEST
        } else {
            raw as i8
        };
        self.set_mastery(language_id, character, updated);
    }

    fn set_mastery(&mut self, language_id: &str, character: &str, value: i8)
        requires
            old(self).wf(),
            bounded_mastery(value),
        ensures
            final(self).wf(),
            final(self).script_signs(language_id@) == old(self).script_signs(language_id@).insert(
                character@,
                value,
            ),
            forall|l: Seq<char>| l != language_id@ ==> #[trigger] final(self).script_signs(l) == old(self).script_signs(l),
            final(self).best_table() == old(self).best_table(),
            final(self).modes_table() == old(self).modes_table(),
            final(self).legacy_table() == old(self).legacy_table(),
            final(self).format_version() == old(self).format_version(),
    {
        let ghost before = self.signs.as_map();
        let ghost old_inner = old(self).script_signs(language_id@);
        let mut inner = match self.signs.remove(language_id) {
            Some(inner) => inner,
            None => TextMap::new(),
        };
        assert(inner.as_map() == old_inner);
        inner.insert(text_of(character), value);
        proof {
            assert forall|k: Seq<char>| #[trigger] inner.as_map().contains_key(k) implies bounded_mastery(inner.as_map()[k]) by {
                if k != character@ {
                    assert(old_inner.contains_key(k));
                }
            }
        }
        self.signs.insert(text_of(language_id), inner);
        proof {
            assert forall|l: Seq<char>| #[trigger] self.signs.as_map().contains_key(l) implies mastery_table(self.signs.as_map()[l]) by {
                if l != language_id@ {
                    assert(before.contains_key(l));
                }
            }
        }
    }

    /// The signs already met in this script, in order.
    ///
    /// A sign enters this list at its first appearance, missed or not: it is
    /// what was *seen*, and so what there is to revise.
    pub fn learned_signs(&self, language_id: &str) -> (signs: Vec<String>)
        requires
            self.wf(),
        ensures
            self.signs_table().as_map().contains_key(language_id@) ==> signs@.map_values(|s: String| s@)
                == self.signs_table().as_map()[language_id@].keys(),
            !self.signs_table().as_map().contains_key(language_id@) ==> signs@.len() == 0,
            forall|c: Seq<char>| #[trigger] knows(signs@, c) <==> self.script_signs(language_id@).contains_key(c),
    {
        let mut result: Vec<String> = Vec::new();
        match self.signs.get(language_id) {
            Some(inner) => {
                let mut i: usize = 0;
                while i < inner.len()
                    invariant
                        i <= inner.entries().len(),
                        result@.len() == i,
                        forall|j: int| 0 <= j < i ==> (#[trigger] result@[j])@ == inner.entries()[j].0@,
                    decreases inner.entries().len() - i,
                {
                    let (key, _) = inner.entry_at(i);
                    result.push(key.clone());
                    i = i + 1;
                }
                assert(result@.map_values(|s: String| s@) =~= inner.keys());
                assert forall|c: Seq<char>| #[trigger] knows(result@, c) <==> inner.as_map().contains_key(c) by {
                    if knows(result@, c) {
                        let k = choose|k: int| 0 <= k < result@.len() && (#[trigger] result@[k])@ == c;
                        assert(inner.entries()[k].0@ == c);
                        assert(has_key(inner.entries(), c));
                    }
                    if inner.as_map().contains_key(c) {
                        assert(has_key(inner.entries(), c));
                        let k = choose|k: int| 0 <= k < inner.entries().len() && inner.entries()[k].0@ == c;
                        assert(result@[k]@ == c);
                    }
                }
            },
            None => {},
        }
        result
    }

    /// What the modes gave on this level.
    pub fn modes(&self, level_id: &str) -> (modes: LevelModes)
        requires
            self.wf(),
        ensures
            modes == self.modes_of(level_id@),
    {
        match self.modes.get(level_id) {
            Some(modes) => *modes,
            None => LevelModes::default(),
        }
    }

    /// Is this mode open on this level?
    ///
    /// Each mode opens by mastering the previous one: three stars in normal,
    /// then a flawless round at each stage. No step is skipped.
    pub fn mode_unlocked(&self, level_id: &str, mode: Mode) -> (open: bool)
        requires
            self.wf(),
        ensures
            open == mode_open(self.best_of(level_id@), self.modes_of(level_id@), mode),
    {
        let modes = self.modes(level_id);
        match mode {
            Mode::Normal => true,
            Mode::Fast => self.stars(level_id) >= MAX_STARS,
            Mode::Ultra => modes.fast_perfect,
            Mode::Endless => modes.ultra_perfect,
        }
    }

    /// What the player has to do to open this mode.
    pub fn unlock_requirement(mode: Mode) -> (requirement: &'static str)
        ensures
            requirement@ == unlock_text(mode),
    {
        match mode {
            Mode::Normal => "",
            Mode::Fast => "3 ETOILES EN NORMAL",
            Mode::Ultra => "SANS FAUTE EN RAPIDE",
            Mode::Endless => "SANS FAUTE EN ULTRA",
        }
    }

    /// Has this mode already been mastered on this level?
    pub fn mode_mastered(&self, level_id: &str, mode: Mode) -> (mastered: bool)
        requires
            self.wf(),
        ensures
            mastered == match mode {
                Mode::Normal => self.best_of(level_id@) >= MAX_STARS,
                Mode::Fast => self.modes_of(level_id@).fast_perfect,
                Mode::Ultra => self.modes_of(level_id@).ultra_perfect,
                Mode::Endless => false,
            },
    {
        let modes = self.modes(level_id);
        match mode {
            Mode::Normal => self.stars(level_id) >= MAX_STARS,
            Mode::Fast => modes.fast_perfect,
            Mode::Ultra => modes.ultra_perfect,
            // The endless mode is not mastered, it is pushed.
            Mode::Endless => false,
        }
    }

    /// Records a round played in a mode beyond the normal one. Returns `true`
    /// when something new was won: a coloured star, or an endless record.
    pub fn record_mode(&mut self, level_id: &str, mode: Mode, perfect: bool, score: u32) -> (won: bool)
        requires
            old(self).wf(),
        ensures
            final(self).wf(),
            won == mode_win(old(self).modes_of(level_id@), mode, perfect, score),
            final(self).modes_table().as_map() == old(self).modes_table().as_map().insert(
                level_id@,
                mode_record(old(self).modes_of(level_id@), mode, perfect, score),
            ),
            final(self).best_table() == old(self).best_table(),
            final(self).signs_table() == old(self).signs_table(),
            final(self).legacy_table() == old(self).legacy_table(),
            final(self).format_version() == old(self).format_version(),
    {
        let mut entry = self.modes(level_id);
        let won = match mode {
            // The normal mode goes through `record`, which counts in stars.
            Mode::Normal => false,
            Mode::Fast => {
                if perfect && !entry.fast_perfect {
                    entry.fast_perfect = true;
                    true
                } else {
                    false
                }
            },
            Mode::Ultra => {
                if perfect && !entry.ultra_perfect {
                    entry.ultra_perfect = true;
                    true
                } else {
                    false
                }
            },
            Mode::Endless => {
                if score > entry.endless_best {
                    entry.endless_best = score;
                    true
                } else {
                    false
                }
            },
        };
        self.modes.insert(text_of(level_id), entry);
        won
    }

    /// Is the level playable? It is when all its prerequisites are done.
    pub fn is_unlocked(&self, level: &Level) -> (open: bool)
        requires
            self.wf(),
        ensures
            open == level_open(*self, level.requires@),
    {
        let mut i: usize = 0;
        while i < level.requires.len()
            invariant
                self.wf(),
                i <= level.requires@.len(),
                forall|j: int| 0 <= j < i ==> self.best_of((#[trigger] level.requires@[j])@) > 0,
            decreases level.requires@.len() - i,
        {
            if !self.is_completed(level.requires[i].as_str()) {
                return false;
            }
            i = i + 1;
        }
        true
    }

    /// Stars earned and stars possible for a script, for the "5 / 12" of the
    /// learning path.
    pub fn language_stars(&self, language: &Language) -> (totals: (u32, u32))
        requires
            self.wf(),
            language.levels@.len() * 255 <= u32::MAX,
        ensures
            totals.0 == stars_sum(*self, language.levels@),
            totals.1 == language.levels@.len() * MAX_STARS,
    {
        let mut earned: u32 = 0;
        let mut i: usize = 0;
        while i < language.levels.len()
            invariant
                self.wf(),
                i <= language.levels@.len(),
                language.levels@.len() * 255 <= u32::MAX,
                earned == stars_sum(*self, language.levels@.take(i as int)),
                earned <= i * 255,
            decreases language.levels@.len() - i,
        {
            assert(language.levels@.take(i + 1).drop_last() =~= language.levels@.take(i as int));
            earned = earned + self.stars(language.levels[i].id.as_str()) as u32;
            i = i + 1;
        }
        assert(language.levels@.take(i as int) =~= language.levels@);
        (earned, language.levels.len() as u32 * MAX_STARS as u32)
    }

    /// Carries the former flat table over into the tables by script, and
    /// empties it. Returns `true` when something was moved, in which case the
    /// save has to be written again.
    ///
    /// The catalogue is needed: nothing in the former save says which script
    /// a sign belongs to. A sign that no script teaches any more is dropped.
    pub fn migrate(&mut self, catalog: &Catalog) -> (moved: bool)
        requires
            old(self).wf(),
        ensures
            final(self).wf(),
            migration(*old(self), *final(self), moved, catalog.languages@),
    {
        if self.legacy.len() == 0 {
            assert(self.legacy_table().as_map() =~= Map::<Seq<char>, i8>::empty());
            return false;
        }
        let ghost start = *self;
        let ghost entries = self.legacy.entries();
        let count = self.legacy.len();
        let mut i: usize = 0;
        proof {
            assert forall|l: Seq<char>| #[trigger] self.script_signs(l) =~= migrated(
                start.script_signs(l),
                entries_map(entries.take(0)),
                catalog.languages@,
                l,
            ) by {}
        }
        while i < count
            invariant
                self.wf(),
                count == entries.len(),
                entries == self.legacy.entries(),
                sorted_entries(entries),
                mastery_table(start.legacy_table()),
                start.legacy_table().entries() == entries,
                i <= count,
                forall|l: Seq<char>|
                    #[trigger] self.script_signs(l) == migrated(
                        start.script_signs(l),
                        entries_map(entries.take(i as int)),
                        catalog.languages@,
                        l,
                    ),
                self.best_table() == start.best_table(),
                self.modes_table() == start.modes_table(),
                self.format_version() == start.format_version(),
            decreases count - i,
        {
            let (sign, score) = self.legacy.entry_at(i);
            let sign = sign.clone();
            let score = *score;
            proof {
                lemma_prefix_map(entries, i as int);
                lemma_entry_in_map(entries, i as int);
                assert(start.legacy_table().as_map().contains_key(entries[i as int].0@));
                assert(bounded_mastery(score));
            }
            let ghost prefix = entries_map(entries.take(i as int));
            match find_owner(&catalog.languages, sign.as_str()) {
                Some(k) => {
                    let ghost before = *self;
                    self.set_mastery(catalog.languages[k].id.as_str(), sign.as_str(), score);
                    proof {
                        assert forall|l: Seq<char>| #[trigger] self.script_signs(l) == migrated(
                            start.script_signs(l),
                            entries_map(entries.take(i + 1)),
                            catalog.languages@,
                            l,
                        ) by {
                            assert(self.script_signs(l) =~= migrated(
                                start.script_signs(l),
                                prefix.insert(sign@, score),
                                catalog.languages@,
                                l,
                            ));
                        }
                    }
                },
                None => {
                    proof {
                        assert forall|l: Seq<char>| #[trigger] self.script_signs(l) == migrated(
                            start.script_signs(l),
                            entries_map(entries.take(i + 1)),
                            catalog.languages@,
                            l,
                        ) by {
                            assert(migrated(start.script_signs(l), prefix.insert(sign@, score), catalog.languages@, l)
                                =~= migrated(start.script_signs(l), prefix, catalog.languages@, l));
                        }
                    }
                },
            }
            i = i + 1;
        }
        assert(entries.take(count as int) =~= entries);
        let ghost mid = *self;
        self.legacy = TextMap::new();
        assert forall|l: Seq<char>| #[trigger] self.script_signs(l) == migrated(
            start.script_signs(l),
            start.legacy_table().as_map(),
            catalog.languages@,
            l,
        ) by {
            assert(entries_map(entries.take(count as int)) == start.legacy_table().as_map());
            assert(mid.script_signs(l) == migrated(
                start.script_signs(l),
                entries_map(entries.take(count as int)),
                catalog.languages@,
                l,
            ));
            assert(self.signs_table() == mid.signs_table());
        }
        true
    }
}

/// What `migrate` does: it moves something exactly when the former table
/// holds entries; it then empties that table and files each of its signs
/// under the first script that teaches it; otherwise nothing changes.
pub open spec fn migration(before: Progress, after: Progress, moved: bool, languages: Seq<Language>) -> bool {
    &&& moved == (before.legacy_table().entries().len() > 0)
    &&& !moved ==> after == before
    &&& after.legacy_table().entries().len() == 0
    &&& after.legacy_table().as_map() == Map::<Seq<char>, i8>::empty()
    &&& moved ==> forall|l: Seq<char>|
        #[trigger] after.script_signs(l) == migrated(
            before.script_signs(l),
            before.legacy_table().as_map(),
            languages,
            l,
        )
    &&& after.best_table() == before.best_table()
    &&& after.modes_table() == before.modes_table()
    &&& after.format_version() == before.format_version()
}

/// A second migration moves nothing: it returns `false` and leaves the
/// progress as the first one left it.
pub proof fn law_migrate_once(
    start: Progress,
    first: Progress,
    second: Progress,
    moved_first: bool,
    moved_second: bool,
    languages: Seq<Language>,
)
    requires
        migration(start, first, moved_first, languages),
        migration(first, second, moved_second, languages),
    ensures
        !moved_second,
        second == first,
{
}

/// The masteries of a script once the former table is carried over: every
/// sign of the former table whose first teaching script is this one takes
/// the former value.
pub open spec fn migrated(
    current: Map<Seq<char>, i8>,
    legacy: Map<Seq<char>, i8>,
    languages: Seq<Language>,
    language: Seq<char>,
) -> Map<Seq<char>, i8> {
    Map::new(
        |c: Seq<char>| current.contains_key(c) || claimed(legacy, languages, language, c),
        |c: Seq<char>|
            if claimed(legacy, languages, language, c) {
                legacy[c]
            } else {
                current[c]
            },
    )
}

/// Does this script take over the former value of a sign?
pub open spec fn claimed(legacy: Map<Seq<char>, i8>, languages: Seq<Language>, language: Seq<char>, c: Seq<char>) -> bool {
    &&& legacy.contains_key(c)
    &&& owner_of(languages, c) is Some
    &&& languages[owner_of(languages, c)->0].id@ == language
}

/// Does this level teach a sign?
fn level_teaches(level: &Level, sign: &str) -> (b: bool)
    ensures
        b == exists|j: int| 0 <= j < level.glyphs@.len() && (#[trigger] level.glyphs@[j]).char@ == sign@,
{
    let mut j: usize = 0;
    while j < level.glyphs.len()
        invariant
            j <= level.glyphs@.len(),
            forall|k: int| 0 <= k < j ==> (#[trigger] level.glyphs@[k]).char@ != sign@,
        decreases level.glyphs@.len() - j,
    {
        if same_text(level.glyphs[j].char.as_str(), sign) {
            return true;
        }
        j = j + 1;
    }
    false
}

/// Does a level of this script teach a sign?
pub fn language_teaches(language: &Language, sign: &str) -> (b: bool)
    ensures
        b == teaches(*language, sign@),
{
    let mut i: usize = 0;
    while i < language.levels.len()
        invariant
            i <= language.levels@.len(),
            forall|k: int, j: int|
                0 <= k < i && 0 <= j < language.levels@[k].glyphs@.len() ==> (#[trigger] language.levels@[k].glyphs@[j]).char@ != sign@,
        decreases language.levels@.len() - i,
    {
        if level_teaches(&language.levels[i], sign) {
            return true;
        }
        i = i + 1;
    }
    false
}

/// The first script that teaches a sign.
pub fn find_owner(languages: &Vec<Language>, sign: &str) -> (r: Option<usize>)
    ensures
        match r {
            Some(k) => owner_of(languages@, sign@) == Some(k as int),
            None => owner_of(languages@, sign@) == None::<int>,
        },
{
    let mut i: usize = 0;
    while i < languages.len()
        invariant
            i <= languages@.len(),
            forall|j: int| 0 <= j < i ==> !teaches(#[trigger] languages@[j], sign@),
        decreases languages@.len() - i,
    {
        if language_teaches(&languages[i], sign) {
            proof {
                let w = choose|w: int| 0 <= w < languages@.len() && teaches(languages@[w], sign@) && forall|j: int| 0 <= j < w ==> !teaches(#[trigger] languages@[j], sign@);
                if w < i {
                    assert(!teaches(languages@[w], sign@));
                } else if w > i {
                    assert(!teaches(languages@[i as int], sign@));
                }
            }
            return Some(i);
        }
        i = i + 1;
    }
    None
}

impl Progress {
    /// A progress read back from a save.
    ///
    /// A save of another format gives a fresh progress rather than a misread
    /// one. Masteries outside their bounds (a hand-edited file) are brought
    /// back within them.
    pub fn from_saved(
        version: u32,
        best: &Vec<(String, u8)>,
        signs: &Vec<(String, Vec<(String, i8)>)>,
        modes: &Vec<(String, LevelModes)>,
        legacy: &Vec<(String, i8)>,
    ) -> (p: Self)
        ensures
            p.wf(),
            read_back(version, best@, signs@, modes@, legacy@, p),
    {
        if version != FORMAT_VERSION {
            return Progress::new();
        }
        let mut scripts: TextMap<TextMap<i8>> = TextMap::new();
        let mut i: usize = 0;
        while i < signs.len()
            invariant
                scripts.wf(),
                i <= signs@.len(),
                forall|l: Seq<char>| #[trigger] scripts.as_map().contains_key(l) ==> mastery_table(scripts.as_map()[l]),
                forall|l: Seq<char>| #[trigger] saved_scripts(signs@.take(i as int)).contains_key(l) == scripts.as_map().contains_key(l),
                forall|l: Seq<char>| #[trigger] scripts.as_map().contains_key(l) ==> scripts.as_map()[l].as_map() == saved_scripts(signs@.take(i as int))[l],
            decreases signs@.len() - i,
        {
            assert(signs@.take(i + 1).drop_last() =~= signs@.take(i as int));
            let ghost next = saved_scripts(signs@.take(i + 1));
            assert(next == saved_scripts(signs@.take(i as int)).insert(
                signs@[i as int].0@,
                inserted_all(clamped_pairs(signs@[i as int].1@)),
            ));
            let table = clamped_table(&signs[i].1);
            scripts.insert(signs[i].0.clone(), table);
            i = i + 1;
        }
        assert(signs@.take(i as int) =~= signs@);
        let p = Progress {
            version,
            best: TextMap::from_pairs(best),
            signs: scripts,
            modes: TextMap::from_pairs(modes),
            legacy: clamped_table(legacy),
        };
        assert forall|l: Seq<char>| #[trigger] p.script_signs(l) == saved_script(signs@, l) by {}
        p
    }

    /// The best results, in key order, for writing a save.
    pub fn best_pairs(&self) -> (pairs: Vec<(String, u8)>)
        ensures
            pairs@ == self.best_table().entries(),
    {
        let pairs = self.best.to_pairs();
        assert(pairs@ =~= self.best_table().entries());
        pairs
    }

    /// What the modes gave, in key order, for writing a save.
    pub fn mode_pairs(&self) -> (pairs: Vec<(String, LevelModes)>)
        ensures
            pairs@ == self.modes_table().entries(),
    {
        let pairs = self.modes.to_pairs();
        assert(pairs@ =~= self.modes_table().entries());
        pairs
    }

    /// The former flat table, in key order, for writing a save.
    pub fn legacy_pairs(&self) -> (pairs: Vec<(String, i8)>)
        ensures
            pairs@ == self.legacy_table().entries(),
    {
        let pairs = self.legacy.to_pairs();
        assert(pairs@ =~= self.legacy_table().entries());
        pairs
    }

    /// The masteries by script, in key order, for writing a save.
    pub fn sign_pairs(&self) -> (pairs: Vec<(String, Vec<(String, i8)>)>)
        ensures
            lists_scripts(pairs@, self.signs_table().entries()),
    {
        let mut pairs: Vec<(String, Vec<(String, i8)>)> = Vec::new();
        let mut i: usize = 0;
        while i < self.signs.len()
            invariant
                i <= self.signs_table().entries().len(),
                pairs@.len() == i,
                forall|k: int| 0 <= k < i ==> (#[trigger] pairs@[k]).0 == self.signs_table().entries()[k].0
                    && pairs@[k].1@.len() == self.signs_table().entries()[k].1.entries().len()
                    && forall|j: int| 0 <= j < pairs@[k].1@.len() ==> (#[trigger] pairs@[k].1@[j]).0
                        == self.signs_table().entries()[k].1.entries()[j].0
                        && pairs@[k].1@[j].1 == self.signs_table().entries()[k].1.entries()[j].1,
            decreases self.signs_table().entries().len() - i,
        {
            let (language, table) = self.signs.entry_at(i);
            pairs.push((language.clone(), table.to_pairs()));
            i = i + 1;
        }
        assert forall|k: int| 0 <= k < pairs@.len() implies (#[trigger] pairs@[k]).1@ == self.signs_table().entries()[k].1.entries() by {
            assert(pairs@[k].1@ =~= self.signs_table().entries()[k].1.entries());
        }
        pairs
    }
}

/// The masteries by script as a save lists them: one pair per script, in the
/// order of the table, each holding the entries of its script.
pub open spec fn lists_scripts(pairs: Seq<(String, Vec<(String, i8)>)>, entries: Seq<(String, TextMap<i8>)>) -> bool {
    &&& pairs.len() == entries.len()
    &&& forall|i: int| 0 <= i < pairs.len() ==> (#[trigger] pairs[i]).0 == entries[i].0 && pairs[i].1@ == entries[i].1.entries()
}

/// What a progress read back from a save holds: a fresh progress when the
/// save is of another format; otherwise the tables the save lists, a later
/// pair replacing an earlier one, masteries brought back within bounds.
pub open spec fn read_back(
    version: u32,
    best: Seq<(String, u8)>,
    signs: Seq<(String, Vec<(String, i8)>)>,
    modes: Seq<(String, LevelModes)>,
    legacy: Seq<(String, i8)>,
    p: Progress,
) -> bool {
    &&& p.format_version() == FORMAT_VERSION
    &&& version != FORMAT_VERSION ==> p.best_table().as_map() == Map::<Seq<char>, u8>::empty()
        && p.signs_table().as_map() == Map::<Seq<char>, TextMap<i8>>::empty()
        && p.modes_table().as_map() == Map::<Seq<char>, LevelModes>::empty()
        && p.legacy_table().as_map() == Map::<Seq<char>, i8>::empty()
    &&& version == FORMAT_VERSION ==> p.best_table().as_map() == inserted_all(best)
        && p.modes_table().as_map() == inserted_all(modes)
        && p.legacy_table().as_map() == inserted_all(clamped_pairs(legacy))
        && forall|l: Seq<char>| #[trigger] p.script_signs(l) == saved_script(signs, l)
}

/// The entries of a table of masteries are all within bounds.
proof fn lemma_entries_bounded(t: TextMap<i8>)
    requires
        mastery_table(t),
    ensures
        forall|i: int| 0 <= i < t.entries().len() ==> bounded_mastery(#[trigger] t.entries()[i].1),
        clamped_pairs(t.entries()) == t.entries(),
        inserted_all(clamped_pairs(t.entries())) == t.as_map(),
{
    assert forall|i: int| 0 <= i < t.entries().len() implies bounded_mastery(#[trigger] t.entries()[i].1) by {
        lemma_entry_in_map(t.entries(), i);
        assert(t.as_map().contains_key(t.entries()[i].0@));
    }
    assert(clamped_pairs(t.entries()) =~= t.entries());
    lemma_inserted_sorted(t.entries());
}

/// Reading back the scripts a save lists gives each script its table.
proof fn lemma_saved_scripts(pairs: Seq<(String, Vec<(String, i8)>)>, entries: Seq<(String, TextMap<i8>)>)
    requires
        lists_scripts(pairs, entries),
        sorted_entries(entries),
        forall|i: int| 0 <= i < entries.len() ==> mastery_table(#[trigger] entries[i].1),
    ensures
        forall|l: Seq<char>| #[trigger] saved_scripts(pairs).contains_key(l) == entries_map(entries).contains_key(l),
        forall|l: Seq<char>| #[trigger] saved_scripts(pairs).contains_key(l) ==> saved_scripts(pairs)[l] == entries_map(entries)[l].as_map(),
    decreases pairs.len(),
{
    if pairs.len() == 0 {
        assert(entries_map(entries) =~= Map::<Seq<char>, TextMap<i8>>::empty());
    } else {
        let n = entries.len() - 1;
        lemma_prefix_map(entries, n);
        assert(entries.take(n) =~= entries.drop_last());
        assert(entries.take(n + 1) =~= entries);
        assert(lists_scripts(pairs.drop_last(), entries.drop_last())) by {
            assert forall|i: int| 0 <= i < pairs.drop_last().len() implies (#[trigger] pairs.drop_last()[i]).0
                == entries.drop_last()[i].0 && pairs.drop_last()[i].1@ == entries.drop_last()[i].1.entries() by {
                assert(pairs.drop_last()[i] == pairs[i]);
            }
        }
        assert forall|i: int| 0 <= i < entries.drop_last().len() implies mastery_table(#[trigger] entries.drop_last()[i].1) by {
            assert(entries.drop_last()[i] == entries[i]);
        }
        lemma_saved_scripts(pairs.drop_last(), entries.drop_last());
        assert(pairs.last() == pairs[n]);
        lemma_entries_bounded(entries[n].1);
        let key = entries[n].0@;
        let before = saved_scripts(pairs.drop_last());
        assert(saved_scripts(pairs) == before.insert(key, entries[n].1.as_map()));
        assert(entries_map(entries) == entries_map(entries.drop_last()).insert(key, entries[n].1));
        assert forall|l: Seq<char>| #[trigger] saved_scripts(pairs).contains_key(l) ==> saved_scripts(pairs)[l]
            == entries_map(entries)[l].as_map() by {
            if l != key && before.contains_key(l) {
                assert(entries_map(entries.drop_last()).contains_key(l));
            }
        }
    }
}

/// A progress written as pairs and read back in the current format is the
/// same progress: the same stars, the same masteries, the same results in
/// the modes, the same former table.
pub proof fn law_save_round_trip(
    p: Progress,
    best: Seq<(String, u8)>,
    signs: Seq<(String, Vec<(String, i8)>)>,
    modes: Seq<(String, LevelModes)>,
    legacy: Seq<(String, i8)>,
    q: Progress,
)
    requires
        p.wf(),
        p.format_version() == FORMAT_VERSION,
        best == p.best_table().entries(),
        lists_scripts(signs, p.signs_table().entries()),
        modes == p.modes_table().entries(),
        legacy == p.legacy_table().entries(),
        read_back(p.format_version(), best, signs, modes, legacy, q),
    ensures
        q.best_table().as_map() == p.best_table().as_map(),
        q.modes_table().as_map() == p.modes_table().as_map(),
        q.legacy_table().as_map() == p.legacy_table().as_map(),
        forall|l: Seq<char>| #[trigger] q.script_signs(l) == p.script_signs(l),
        forall|l: Seq<char>| #[trigger] q.best_of(l) == p.best_of(l),
        forall|l: Seq<char>| #[trigger] q.modes_of(l) == p.modes_of(l),
        forall|l: Seq<char>, c: Seq<char>| #[trigger] q.mastery_of(l, c) == p.mastery_of(l, c),
{
    lemma_inserted_sorted(best);
    lemma_inserted_sorted(modes);
    lemma_entries_bounded(p.legacy_table());
    let entries = p.signs_table().entries();
    assert forall|i: int| 0 <= i < entries.len() implies mastery_table(#[trigger] entries[i].1) by {
        lemma_entry_in_map(entries, i);
        assert(p.signs_table().as_map().contains_key(entries[i].0@));
    }
    lemma_saved_scripts(signs, entries);
    assert forall|l: Seq<char>| #[trigger] q.script_signs(l) == p.script_signs(l) by {
        assert(q.script_signs(l) == saved_script(signs, l));
    }
    assert forall|l: Seq<char>, c: Seq<char>| #[trigger] q.mastery_of(l, c) == p.mastery_of(l, c) by {
        assert(q.script_signs(l) == p.script_signs(l));
    }
}

/// A mastery brought back within its bounds.
pub open spec fn clamp_mastery(m: i8) -> i8 {
    if m < WEAKEST {
        WEAKEST
    } else if m > STRONGEST {
        STRONGEST
    } else {
        m
    }
}

/// Pairs whose masteries are brought back within bounds.
pub open spec fn clamped_pairs(s: Seq<(String, i8)>) -> Seq<(String, i8)> {
    s.map_values(|e: (String, i8)| (e.0, clamp_mastery(e.1)))
}

/// The masteries by script that a save lists, a later script replacing an
/// earlier one of the same name.
pub open spec fn saved_scripts(s: Seq<(String, Vec<(String, i8)>)>) -> Map<Seq<char>, Map<Seq<char>, i8>>
    decreases s.len(),
{
    if s.len() == 0 {
        Map::empty()
    } else {
        saved_scripts(s.drop_last()).insert(s.last().0@, inserted_all(clamped_pairs(s.last().1@)))
    }
}

/// The masteries of one script that a save lists.
pub open spec fn saved_script(s: Seq<(String, Vec<(String, i8)>)>, language: Seq<char>) -> Map<Seq<char>, i8> {
    if saved_scripts(s).contains_key(language) {
        saved_scripts(s)[language]
    } else {
        Map::empty()
    }
}

proof fn lemma_inserted_bounded(s: Seq<(String, i8)>)
    ensures
        forall|k: Seq<char>| #[trigger] inserted_all(clamped_pairs(s)).contains_key(k) ==> bounded_mastery(
            inserted_all(clamped_pairs(s))[k],
        ),
    decreases s.len(),
{
    if s.len() > 0 {
        lemma_inserted_bounded(s.drop_last());
        assert(clamped_pairs(s).drop_last() =~= clamped_pairs(s.drop_last()));
        let last = clamped_pairs(s).last();
        assert(last.1 == clamp_mastery(s.last().1));
        assert(bounded_mastery(last.1));
        assert(inserted_all(clamped_pairs(s)) == inserted_all(clamped_pairs(s.drop_last())).insert(last.0@, last.1));
    }
}

/// A table of masteries from saved pairs, brought back within bounds.
fn clamped_table(pairs: &Vec<(String, i8)>) -> (t: TextMap<i8>)
    ensures
        mastery_table(t),
        t.as_map() == inserted_all(clamped_pairs(pairs@)),
{
    let mut clamped: Vec<(String, i8)> = Vec::new();
    let mut i: usize = 0;
    while i < pairs.len()
        invariant
            i <= pairs@.len(),
            clamped@ == clamped_pairs(pairs@.take(i as int)),
        decreases pairs@.len() - i,
    {
        let m = pairs[i].1;
        let m = if m < WEAKEST {
            WEAKEST
        } else if m > STRONGEST {
            STRONGEST
        } else {
            m
        };
        clamped.push((pairs[i].0.clone(), m));
        i = i + 1;
        assert(clamped@ =~= clamped_pairs(pairs@.take(i as int)));
    }
    assert(pairs@.take(i as int) =~= pairs@);
    proof {
        lemma_inserted_bounded(pairs@);
    }
    TextMap::from_pairs(&clamped)
}

/// A level open stays open as stars are earned: finishing a level is never
/// undone.
pub proof fn law_open_stays_open(before: Progress, after: Progress, prerequisites: Seq<String>)
    requires
        forall|l: Seq<char>| #[trigger] after.best_of(l) >= before.best_of(l),
        level_open(before, prerequisites),
    ensures
        level_open(after, prerequisites),
{
    assert forall|j: int| 0 <= j < prerequisites.len() implies after.best_of((#[trigger] prerequisites[j])@) > 0 by {
        assert(before.best_of(prerequisites[j]@) > 0);
    }
}

/// What a mode gave is never lost: a coloured star once earned stays, and the
/// best endless score never goes down.
pub proof fn law_modes_never_lost(modes: LevelModes, mode: Mode, perfect: bool, score: u32)
    ensures
        modes.fast_perfect ==> mode_record(modes, mode, perfect, score).fast_perfect,
        modes.ultra_perfect ==> mode_record(modes, mode, perfect, score).ultra_perfect,
        mode_record(modes, mode, perfect, score).endless_best >= modes.endless_best,
        mode_win(modes, mode, perfect, score) ==> mode_record(modes, mode, perfect, score) != modes,
{
}

/// A mistake costs more than a success earns: as many misses as successes
/// never raise a mastery, and lower it unless at the floor.
pub proof fn law_mistake_outweighs_success(current: int, n: int)
    requires
        WEAKEST <= current <= STRONGEST,
        n > 0,
    ensures
        noted_mastery(current, n, n) <= current,
        current > WEAKEST ==> noted_mastery(current, n, n) < current,
{
}

/// The worse a sign is known, the more it is drawn; a mastered sign keeps a
/// chance.
pub proof fn law_weaker_weighs_more(a: int, b: int)
    requires
        WEAKEST <= a < b <= STRONGEST,
    ensures
        weight_for(a) > weight_for(b),
        weight_for(b) >= 1,
{
}

/// The smaller of a result and the most a level gives.
pub open spec fn min_stars(stars: u8) -> u8 {
    if stars < MAX_STARS {
        stars
    } else {
        MAX_STARS
    }
}

/// Is a mode open, given the stars and what the modes gave on the level?
pub open spec fn mode_open(stars: u8, modes: LevelModes, mode: Mode) -> bool {
    match mode {
        Mode::Normal => true,
        Mode::Fast => stars >= MAX_STARS,
        Mode::Ultra => modes.fast_perfect,
        Mode::Endless => modes.ultra_perfect,
    }
}

/// What a player is told to do to open a mode.
pub open spec fn unlock_text(mode: Mode) -> Seq<char> {
    match mode {
        Mode::Normal => ""@,
        Mode::Fast => "3 ETOILES EN NORMAL"@,
        Mode::Ultra => "SANS FAUTE EN RAPIDE"@,
        Mode::Endless => "SANS FAUTE EN ULTRA"@,
    }
}

/// Does a round in a mode win something new?
pub open spec fn mode_win(modes: LevelModes, mode: Mode, perfect: bool, score: u32) -> bool {
    match mode {
        Mode::Normal => false,
        Mode::Fast => perfect && !modes.fast_perfect,
        Mode::Ultra => perfect && !modes.ultra_perfect,
        Mode::Endless => score > modes.endless_best,
    }
}

/// What the modes hold after a round.
pub open spec fn mode_record(modes: LevelModes, mode: Mode, perfect: bool, score: u32) -> LevelModes {
    match mode {
        Mode::Normal => modes,
        Mode::Fast => if perfect {
            LevelModes { fast_perfect: true, ..modes }
        } else {
            modes
        },
        Mode::Ultra => if perfect {
            LevelModes { ultra_perfect: true, ..modes }
        } else {
            modes
        },
        Mode::Endless => if score > modes.endless_best {
            LevelModes { endless_best: score, ..modes }
        } else {
            modes
        },
    }
}

/// Are all these prerequisites finished?
pub open spec fn level_open(progress: Progress, prerequisites: Seq<String>) -> bool {
    forall|j: int| 0 <= j < prerequisites.len() ==> progress.best_of((#[trigger] prerequisites[j])@) > 0
}

/// The stars earned over some levels.
pub open spec fn stars_sum(progress: Progress, levels: Seq<Level>) -> int
    decreases levels.len(),
{
    if levels.len() == 0 {
        0
    } else {
        stars_sum(progress, levels.drop_last()) + progress.best_of(levels.last().id@)
    }
}

/// Does a level of this script teach a sign?
pub open spec fn teaches(language: Language, sign: Seq<char>) -> bool {
    exists|i: int, j: int|
        0 <= i < language.levels@.len() && 0 <= j < language.levels@[i].glyphs@.len()
            && (#[trigger] language.levels@[i].glyphs@[j]).char@ == sign
}

/// The first script that teaches a sign, if any.
pub open spec fn owner_of(languages: Seq<Language>, sign: Seq<char>) -> Option<int> {
    if exists|i: int| 0 <= i < languages.len() && teaches(languages[i], sign) && forall|j: int| 0 <= j < i ==> !teaches(#[trigger] languages[j], sign) {
        Some(choose|i: int| 0 <= i < languages.len() && teaches(languages[i], sign) && forall|j: int| 0 <= j < i ==> !teaches(#[trigger] languages[j], sign))
    } else {
        None
    }
}

} // verus!
