//! The rules of coherence the catalogue must follow.
//!
//! Validation is strict and happens at start-up. An incoherent level file
//! must give a clear message at once, not a learning path silently broken
//! three screens further.

use vstd::prelude::*;

use crate::model::{find_level, find_level_index, Catalog, Glyph, Language, Level};
use crate::cycles::{cycle_found, find_cycle, law_cycle_search};
use crate::paths::on_cycle;
use crate::text::{same_text, text_of};

verus! {

/// What can be wrong with the content.
#[derive(Debug)]
pub enum DataError {
    /// A script's folder has no `language.toml`.
    MissingManifest(String),
    /// A file is not valid UTF-8.
    NotUtf8(String),
    /// A syntax or schema error in a level file, as the reader reported it.
    Parse { file: String, message: String },
    DuplicateLanguage(String),
    DuplicateLevel(String),
    EmptyLanguage(String),
    UnknownRequirement { level: String, required: String },
    CyclicRequirements { language: String, level: String },
    InvalidLevel { level: String, reason: String },
}

/// What a validation error says, as texts.
pub ghost enum Problem {
    MissingManifest(Seq<char>),
    NotUtf8(Seq<char>),
    Parse(Seq<char>, Seq<char>),
    DuplicateLanguage(Seq<char>),
    DuplicateLevel(Seq<char>),
    EmptyLanguage(Seq<char>),
    UnknownRequirement(Seq<char>, Seq<char>),
    CyclicRequirements(Seq<char>, Seq<char>),
    InvalidLevel(Seq<char>, Seq<char>),
}

impl DataError {
    /// What the error says.
    pub open spec fn problem(&self) -> Problem {
        match self {
            DataError::MissingManifest(dir) => Problem::MissingManifest(dir@),
            DataError::NotUtf8(file) => Problem::NotUtf8(file@),
            DataError::Parse { file, message } => Problem::Parse(file@, message@),
            DataError::DuplicateLanguage(id) => Problem::DuplicateLanguage(id@),
            DataError::DuplicateLevel(id) => Problem::DuplicateLevel(id@),
            DataError::EmptyLanguage(id) => Problem::EmptyLanguage(id@),
            DataError::UnknownRequirement { level, required } => Problem::UnknownRequirement(level@, required@),
            DataError::CyclicRequirements { language, level } => Problem::CyclicRequirements(language@, level@),
            DataError::InvalidLevel { level, reason } => Problem::InvalidLevel(level@, reason@),
        }
    }
}

/// The first glyph that accepts no answer at all.
pub open spec fn first_unanswered(glyphs: Seq<Glyph>) -> Option<int> {
    if exists|i: int| 0 <= i < glyphs.len() && glyphs[i].answers@.len() == 0 {
        Some(
            choose|i: int|
                0 <= i < glyphs.len() && glyphs[i].answers@.len() == 0 && forall|j: int|
                    0 <= j < i ==> (#[trigger] glyphs[j]).answers@.len() > 0,
        )
    } else {
        None
    }
}

/// A ratio in thousandths, between 0 and 1.
pub open spec fn is_ratio(x: i64) -> bool {
    0 <= x <= 1000
}

/// What is wrong with a level on its own, checked in this order; `None` when
/// nothing is.
pub open spec fn level_problem(level: Level) -> Option<Seq<char>> {
    let stars = level.stars;
    let rules = level.rules;
    if level.glyphs@.len() == 0 {
        Some("aucun glyphe : il n'y aurait rien à apprendre"@)
    } else if first_unanswered(level.glyphs@) is Some {
        Some(
            "le glyphe « "@ + level.glyphs@[first_unanswered(level.glyphs@)->0].char@
                + " » n'a aucune réponse acceptée"@,
        )
    } else if exists|k: int| 0 <= k < level.requires@.len() && (#[trigger] level.requires@[k])@ == level.id@ {
        Some("le niveau se référence lui-même dans `requires`"@)
    } else if !is_ratio(stars.one) || !is_ratio(stars.two) || !is_ratio(stars.three) {
        Some("les seuils d'étoiles sont des précisions, entre 0.0 et 1.0"@)
    } else if !(stars.one <= stars.two && stars.two <= stars.three) {
        Some("les seuils d'étoiles doivent être croissants (one <= two <= three)"@)
    } else if rules.lives == 0 {
        Some("`lives` doit valoir au moins 1"@)
    } else if rules.columns < 1 {
        Some("`columns` doit valoir au moins 1"@)
    } else if rules.spawn_interval_ms <= 0 {
        Some("`spawn_interval` doit être strictement positif"@)
    } else if rules.duration_ms < 0 {
        Some("`duration` ne peut pas être négatif (0 = sans limite)"@)
    } else if !is_ratio(rules.review_permille) {
        Some("`review_ratio` est une proportion, entre 0.0 et 1.0"@)
    } else if rules.speed.start <= 0 || rules.speed.max < rules.speed.start || rules.speed.ramp < 0 {
        Some("`speed` doit vérifier 0 < start <= max et ramp >= 0"@)
    } else if rules.review_permille > 0 && level.requires@.len() == 0 {
        // A level that only revises older signs without prerequisites would
        // have nothing to revise: its tile could not be drawn.
        Some("`review_ratio` > 0 sans aucun prérequis à réviser"@)
    } else {
        None
    }
}

/// A level passes on its own exactly when it teaches at least one sign,
/// each sign accepts some answer, it does not require itself, its star
/// thresholds are ratios in increasing order, it has a life and a column,
/// tiles come at a positive interval, its duration is not negative, its
/// review share is a ratio and has prerequisites to draw from, and its
/// speed starts above zero, never exceeds its cap at the start and does not
/// slow down.
pub proof fn law_sound_level(level: Level)
    ensures
        level_problem(level) is None <==> {
            &&& level.glyphs@.len() > 0
            &&& forall|g: int| 0 <= g < level.glyphs@.len() ==> (#[trigger] level.glyphs@[g]).answers@.len() > 0
            &&& forall|k: int| 0 <= k < level.requires@.len() ==> (#[trigger] level.requires@[k])@ != level.id@
            &&& 0 <= level.stars.one <= level.stars.two <= level.stars.three <= 1000
            &&& level.rules.lives >= 1
            &&& level.rules.columns >= 1
            &&& level.rules.spawn_interval_ms > 0
            &&& level.rules.duration_ms >= 0
            &&& 0 <= level.rules.review_permille <= 1000
            &&& 0 < level.rules.speed.start <= level.rules.speed.max
            &&& level.rules.speed.ramp >= 0
            &&& level.rules.review_permille > 0 ==> level.requires@.len() > 0
        },
{
    lemma_all_answered(level.glyphs@);
    let self_ref = exists|k: int| 0 <= k < level.requires@.len() && (#[trigger] level.requires@[k])@ == level.id@;
    assert(self_ref <==> !(forall|k: int| 0 <= k < level.requires@.len() ==> (#[trigger] level.requires@[k])@ != level.id@));
}

/// No sign lacks an answer exactly when each sign has one.
proof fn lemma_all_answered(glyphs: Seq<Glyph>)
    ensures
        first_unanswered(glyphs) is None <==> forall|g: int| 0 <= g < glyphs.len() ==> (#[trigger] glyphs[g]).answers@.len() > 0,
{
    if exists|i: int| 0 <= i < glyphs.len() && glyphs[i].answers@.len() == 0 {
        let i = choose|i: int| 0 <= i < glyphs.len() && glyphs[i].answers@.len() == 0;
        assert(glyphs[i].answers@.len() == 0);
    }
}

fn invalid(level: &Level, reason: String) -> (e: Result<(), DataError>)
    ensures
        e matches Err(e) && e.problem() == Problem::InvalidLevel(level.id@, reason@),
{
    Err(DataError::InvalidLevel { level: level.id.clone(), reason })
}

/// Checks a level on its own.
pub fn validate_level(level: &Level) -> (r: Result<(), DataError>)
    ensures
        match level_problem(*level) {
            None => r is Ok,
            Some(reason) => r matches Err(e) && e.problem() == Problem::InvalidLevel(level.id@, reason),
        },
{
    if level.glyphs.len() == 0 {
        return invalid(level, text_of("aucun glyphe : il n'y aurait rien à apprendre"));
    }
    let mut g: usize = 0;
    while g < level.glyphs.len()
        invariant
            g <= level.glyphs@.len(),
            forall|j: int| 0 <= j < g ==> (#[trigger] level.glyphs@[j]).answers@.len() > 0,
        decreases level.glyphs@.len() - g,
    {
        if level.glyphs[g].answers.len() == 0 {
            let mut reason = text_of("le glyphe « ");
            reason.append(level.glyphs[g].char.as_str());
            reason.append(" » n'a aucune réponse acceptée");
            proof {
                let w = choose|i: int|
                    0 <= i < level.glyphs@.len() && level.glyphs@[i].answers@.len() == 0 && forall|j: int|
                        0 <= j < i ==> (#[trigger] level.glyphs@[j]).answers@.len() > 0;
                assert(0 <= g < level.glyphs@.len() && level.glyphs@[g as int].answers@.len() == 0);
                if w < g {
                    assert(level.glyphs@[w].answers@.len() > 0);
                } else if w > g {
                    assert(level.glyphs@[g as int].answers@.len() > 0);
                }
            }
            return invalid(level, reason);
        }
        g = g + 1;
    }
    assert(first_unanswered(level.glyphs@) is None);
    let mut k: usize = 0;
    while k < level.requires.len()
        invariant
            k <= level.requires@.len(),
            level.glyphs@.len() > 0,
            first_unanswered(level.glyphs@) is None,
            forall|j: int| 0 <= j < k ==> (#[trigger] level.requires@[j])@ != level.id@,
        decreases level.requires@.len() - k,
    {
        if same_text(level.requires[k].as_str(), level.id.as_str()) {
            return invalid(level, text_of("le niveau se référence lui-même dans `requires`"));
        }
        k = k + 1;
    }
    let stars = &level.stars;
    if !(0 <= stars.one && stars.one <= 1000) || !(0 <= stars.two && stars.two <= 1000) || !(0 <= stars.three
        && stars.three <= 1000) {
        return invalid(level, text_of("les seuils d'étoiles sont des précisions, entre 0.0 et 1.0"));
    }
    if !(stars.one <= stars.two && stars.two <= stars.three) {
        return invalid(level, text_of("les seuils d'étoiles doivent être croissants (one <= two <= three)"));
    }
    let rules = &level.rules;
    if rules.lives == 0 {
        return invalid(level, text_of("`lives` doit valoir au moins 1"));
    }
    if rules.columns < 1 {
        return invalid(level, text_of("`columns` doit valoir au moins 1"));
    }
    if rules.spawn_interval_ms <= 0 {
        return invalid(level, text_of("`spawn_interval` doit être strictement positif"));
    }
    if rules.duration_ms < 0 {
        return invalid(level, text_of("`duration` ne peut pas être négatif (0 = sans limite)"));
    }
    if !(0 <= rules.review_permille && rules.review_permille <= 1000) {
        return invalid(level, text_of("`review_ratio` est une proportion, entre 0.0 et 1.0"));
    }
    if rules.speed.start <= 0 || rules.speed.max < rules.speed.start || rules.speed.ramp < 0 {
        return invalid(level, text_of("`speed` doit vérifier 0 < start <= max et ramp >= 0"));
    }
    if rules.review_permille > 0 && level.requires.len() == 0 {
        return invalid(level, text_of("`review_ratio` > 0 sans aucun prérequis à réviser"));
    }
    Ok(())
}

/// Looks for a cycle of requirements in a path, which would lock levels away
/// for good: the level the depth-first search meets again on its own chain
/// is reported.
pub fn detect_cycle(language: &Language) -> (r: Result<(), DataError>)
    ensures
        match cycle_found(language.levels@) {
            None => r is Ok,
            Some(j) => r matches Err(e) && e.problem() == Problem::CyclicRequirements(
                language.id@,
                language.levels@[j].id@,
            ),
        },
{
    match find_cycle(&language.levels) {
        None => Ok(()),
        Some(j) => Err(DataError::CyclicRequirements { language: language.id.clone(), level: language.levels[j].id.clone() }),
    }
}

/// A level of an earlier language, or an earlier level of this language,
/// already carries `id`. Identifiers are unique over the whole catalogue:
/// the saves index levels by identifier alone.
pub open spec fn level_id_seen(languages: Seq<Language>, i: int, j: int, id: Seq<char>) -> bool {
    ||| exists|a: int, b: int|
        0 <= a < i && 0 <= b < languages[a].levels@.len() && (#[trigger] languages[a].levels@[b]).id@ == id
    ||| exists|b: int| 0 <= b < j && (#[trigger] languages[i].levels@[b]).id@ == id
}

/// The first requirement that names no level of the path.
pub open spec fn first_unknown(levels: Seq<Level>, names: Seq<String>) -> Option<int> {
    if exists|k: int| 0 <= k < names.len() && find_level(levels, names[k]@) is None {
        Some(
            choose|k: int|
                0 <= k < names.len() && find_level(levels, names[k]@) is None && forall|q: int|
                    0 <= q < k ==> find_level(levels, (#[trigger] names[q])@) is Some,
        )
    } else {
        None
    }
}

/// What is wrong with level `j` of language `i`, checked in this order.
pub open spec fn level_check(languages: Seq<Language>, i: int, j: int) -> Option<Problem> {
    let language = languages[i];
    let level = language.levels@[j];
    if level_id_seen(languages, i, j, level.id@) {
        Some(Problem::DuplicateLevel(level.id@))
    } else if level_problem(level) is Some {
        Some(Problem::InvalidLevel(level.id@, level_problem(level)->0))
    } else if first_unknown(language.levels@, level.requires@) is Some {
        Some(
            Problem::UnknownRequirement(
                level.id@,
                level.requires@[first_unknown(language.levels@, level.requires@)->0]@,
            ),
        )
    } else {
        None
    }
}

/// The first problem among the levels of language `i`, from level `j` on.
pub open spec fn levels_check(languages: Seq<Language>, i: int, j: int) -> Option<Problem>
    decreases languages[i].levels@.len() - j,
{
    if j < 0 || j >= languages[i].levels@.len() {
        None
    } else if level_check(languages, i, j) is Some {
        level_check(languages, i, j)
    } else {
        levels_check(languages, i, j + 1)
    }
}

/// What is wrong with language `i`, checked in this order.
pub open spec fn language_check(languages: Seq<Language>, i: int) -> Option<Problem> {
    let language = languages[i];
    if exists|a: int| 0 <= a < i && (#[trigger] languages[a]).id@ == language.id@ {
        Some(Problem::DuplicateLanguage(language.id@))
    } else if language.levels@.len() == 0 {
        Some(Problem::EmptyLanguage(language.id@))
    } else if levels_check(languages, i, 0) is Some {
        levels_check(languages, i, 0)
    } else if cycle_found(language.levels@) is Some {
        Some(Problem::CyclicRequirements(language.id@, language.levels@[cycle_found(language.levels@)->0].id@))
    } else {
        None
    }
}

/// The first problem of the catalogue, from language `i` on.
pub open spec fn catalog_check(languages: Seq<Language>, i: int) -> Option<Problem>
    decreases languages.len() - i,
{
    if i < 0 || i >= languages.len() {
        None
    } else if language_check(languages, i) is Some {
        language_check(languages, i)
    } else {
        catalog_check(languages, i + 1)
    }
}

proof fn lemma_levels_check_skip(languages: Seq<Language>, i: int, j: int)
    requires
        0 <= j <= languages[i].levels@.len(),
        forall|b: int| 0 <= b < j ==> level_check(languages, i, b) is None,
    ensures
        levels_check(languages, i, 0) == levels_check(languages, i, j),
    decreases j,
{
    if j > 0 {
        lemma_levels_check_skip(languages, i, j - 1);
        assert(level_check(languages, i, j - 1) is None);
    }
}

proof fn lemma_catalog_check_skip(languages: Seq<Language>, i: int)
    requires
        0 <= i <= languages.len(),
        forall|a: int| 0 <= a < i ==> language_check(languages, a) is None,
    ensures
        catalog_check(languages, 0) == catalog_check(languages, i),
    decreases i,
{
    if i > 0 {
        lemma_catalog_check_skip(languages, i - 1);
        assert(language_check(languages, i - 1) is None);
    }
}

/// Every language up to `i` passed its own checks.
proof fn lemma_languages_pass(languages: Seq<Language>, i: int)
    requires
        catalog_check(languages, 0) is None,
        0 <= i < languages.len(),
    ensures
        language_check(languages, i) is None,
        catalog_check(languages, i + 1) is None,
    decreases i,
{
    if i > 0 {
        lemma_languages_pass(languages, i - 1);
    }
}

/// Every level of language `i` up to `j` passed its own checks.
proof fn lemma_levels_pass(languages: Seq<Language>, i: int, j: int)
    requires
        levels_check(languages, i, 0) is None,
        0 <= j < languages[i].levels@.len(),
    ensures
        level_check(languages, i, j) is None,
        levels_check(languages, i, j + 1) is None,
    decreases j,
{
    if j > 0 {
        lemma_levels_pass(languages, i, j - 1);
    }
}

/// What a catalogue that passed its checks guarantees of level `j` of
/// language `i`: no earlier language has the same identifier and the
/// language has levels; no other level of the catalogue shares the level's
/// identifier; the level is valid on its own; each of its requirements
/// names a level of its path; and it lies on no cycle of requirements.
pub proof fn law_valid_catalog(languages: Seq<Language>, i: int, j: int)
    requires
        catalog_check(languages, 0) is None,
        0 <= i < languages.len(),
        0 <= j < languages[i].levels@.len(),
    ensures
        forall|a: int| 0 <= a < i ==> (#[trigger] languages[a]).id@ != languages[i].id@,
        languages[i].levels@.len() > 0,
        !level_id_seen(languages, i, j, languages[i].levels@[j].id@),
        level_problem(languages[i].levels@[j]) is None,
        forall|k: int|
            0 <= k < languages[i].levels@[j].requires@.len() ==> find_level(
                languages[i].levels@,
                (#[trigger] languages[i].levels@[j].requires@[k])@,
            ) is Some,
        !on_cycle(languages[i].levels@, j),
{
    lemma_languages_pass(languages, i);
    let language = languages[i];
    let level = language.levels@[j];
    lemma_levels_pass(languages, i, j);
    assert forall|k: int| 0 <= k < level.requires@.len() implies find_level(
        language.levels@,
        (#[trigger] level.requires@[k])@,
    ) is Some by {
        if find_level(language.levels@, level.requires@[k]@) is None {
            assert(first_unknown(language.levels@, level.requires@) is Some);
        }
    }
    law_cycle_search(language.levels@);
}

/// Has an identifier already been given to an earlier level?
fn level_id_seen_exec(languages: &Vec<Language>, i: usize, j: usize, id: &str) -> (seen: bool)
    requires
        i < languages@.len(),
        j <= languages@[i as int].levels@.len(),
    ensures
        seen == level_id_seen(languages@, i as int, j as int, id@),
{
    let mut a: usize = 0;
    while a < i
        invariant
            i < languages@.len(),
            a <= i,
            forall|x: int, b: int|
                0 <= x < a && 0 <= b < languages@[x].levels@.len() ==> (#[trigger] languages@[x].levels@[b]).id@ != id@,
        decreases i - a,
    {
        let levels = &languages[a].levels;
        let mut b: usize = 0;
        while b < levels.len()
            invariant
                a < i < languages@.len(),
                levels == &languages@[a as int].levels,
                b <= levels@.len(),
                forall|x: int, c: int|
                    0 <= x < a && 0 <= c < languages@[x].levels@.len() ==> (#[trigger] languages@[x].levels@[c]).id@ != id@,
                forall|c: int| 0 <= c < b ==> (#[trigger] levels@[c]).id@ != id@,
            decreases levels@.len() - b,
        {
            if same_text(levels[b].id.as_str(), id) {
                assert(languages@[a as int].levels@[b as int].id@ == id@);
                return true;
            }
            b = b + 1;
        }
        a = a + 1;
    }
    let levels = &languages[i].levels;
    let mut b: usize = 0;
    while b < j
        invariant
            i < languages@.len(),
            j <= levels@.len(),
            levels == &languages@[i as int].levels,
            b <= j,
            forall|x: int, c: int|
                0 <= x < i && 0 <= c < languages@[x].levels@.len() ==> (#[trigger] languages@[x].levels@[c]).id@ != id@,
            forall|c: int| 0 <= c < b ==> (#[trigger] levels@[c]).id@ != id@,
        decreases j - b,
    {
        if same_text(levels[b].id.as_str(), id) {
            assert(languages@[i as int].levels@[b as int].id@ == id@);
            return true;
        }
        b = b + 1;
    }
    false
}

/// Checks that every requirement of a level names a level of its path.
fn check_requirements(levels: &Vec<Level>, level: &Level) -> (r: Result<(), DataError>)
    ensures
        match first_unknown(levels@, level.requires@) {
            None => r is Ok,
            Some(k) => r matches Err(e) && e.problem() == Problem::UnknownRequirement(
                level.id@,
                level.requires@[k]@,
            ),
        },
{
    let mut k: usize = 0;
    while k < level.requires.len()
        invariant
            k <= level.requires@.len(),
            forall|q: int| 0 <= q < k ==> find_level(levels@, (#[trigger] level.requires@[q])@) is Some,
        decreases level.requires@.len() - k,
    {
        match find_level_index(levels, level.requires[k].as_str()) {
            Some(_) => {},
            None => {
                proof {
                    let w = choose|w: int|
                        0 <= w < level.requires@.len() && find_level(levels@, level.requires@[w]@) is None
                            && forall|q: int| 0 <= q < w ==> find_level(levels@, (#[trigger] level.requires@[q])@) is Some;
                    if w < k {
                        assert(find_level(levels@, level.requires@[w]@) is Some);
                    } else if w > k {
                        assert(find_level(levels@, level.requires@[k as int]@) is Some);
                    }
                }
                return Err(
                    DataError::UnknownRequirement { level: level.id.clone(), required: level.requires[k].clone() },
                );
            },
        }
        k = k + 1;
    }
    Ok(())
}

impl Catalog {
    /// Checks every rule of coherence of the catalogue, and reports the first
    /// problem found: languages in order, and within a language its own
    /// identifier, then its levels in order, then its cycles.
    pub fn validate(&self) -> (r: Result<(), DataError>)
        ensures
            match catalog_check(self.languages@, 0) {
                None => r is Ok,
                Some(p) => r matches Err(e) && e.problem() == p,
            },
    {
        let languages = &self.languages;
        let mut i: usize = 0;
        while i < languages.len()
            invariant
                languages == &self.languages,
                i <= languages@.len(),
                forall|a: int| 0 <= a < i ==> language_check(languages@, a) is None,
            decreases languages@.len() - i,
        {
            proof {
                lemma_catalog_check_skip(languages@, i as int);
            }
            let language = &languages[i];
            let mut a: usize = 0;
            while a < i
                invariant
                    languages == &self.languages,
                    i < languages@.len(),
                    catalog_check(languages@, 0) == catalog_check(languages@, i as int),
                    language == &languages@[i as int],
                    a <= i,
                    forall|x: int| 0 <= x < a ==> (#[trigger] languages@[x]).id@ != language.id@,
                decreases i - a,
            {
                if same_text(languages[a].id.as_str(), language.id.as_str()) {
                    return Err(DataError::DuplicateLanguage(language.id.clone()));
                }
                a = a + 1;
            }
            if language.levels.len() == 0 {
                return Err(DataError::EmptyLanguage(language.id.clone()));
            }
            let mut j: usize = 0;
            while j < language.levels.len()
                invariant
                    languages == &self.languages,
                    i < languages@.len(),
                    catalog_check(languages@, 0) == catalog_check(languages@, i as int),
                    forall|x: int| 0 <= x < i ==> (#[trigger] languages@[x]).id@ != language.id@,
                    language.levels@.len() > 0,
                    language == &languages@[i as int],
                    j <= language.levels@.len(),
                    forall|b: int| 0 <= b < j ==> level_check(languages@, i as int, b) is None,
                decreases language.levels@.len() - j,
            {
                proof {
                    lemma_levels_check_skip(languages@, i as int, j as int);
                }
                let level = &language.levels[j];
                if level_id_seen_exec(languages, i, j, level.id.as_str()) {
                    return Err(DataError::DuplicateLevel(level.id.clone()));
                }
                match validate_level(level) {
                    Ok(()) => {},
                    Err(e) => {
                        return Err(e);
                    },
                }
                match check_requirements(&language.levels, level) {
                    Ok(()) => {},
                    Err(e) => {
                        return Err(e);
                    },
                }
                j = j + 1;
            }
            proof {
                lemma_levels_check_skip(languages@, i as int, j as int);
            }
            match detect_cycle(language) {
                Ok(()) => {},
                Err(e) => {
                    return Err(e);
                },
            }
            i = i + 1;
        }
        proof {
            lemma_catalog_check_skip(languages@, i as int);
        }
        Ok(())
    }
}

} // verus!
