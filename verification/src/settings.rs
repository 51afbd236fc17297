//! The player's settings: the volumes, and the daily learning goal.
//!
//! They are saved apart from the progress: wiping one's progress to start a
//! script over must not put the sound back to full volume.

use vstd::prelude::*;

use crate::text::{decimal, push_char, push_decimal, text_of};

verus! {

/// Version of the format. A file of an unknown version is ignored rather than
/// misread.
pub const FORMAT_VERSION: u32 = 1;

/// Volumes are whole steps, not decimals: a ten-segment gauge is set without
/// effort from the keyboard, where a continuous setting would need aiming.
pub const MAX_LEVEL: u8 = 10;

/// The durations offered for the daily goal, in minutes.
///
/// Zero turns the alert off. Steps rather than a continuous setting: nobody
/// wants to aim at 37 minutes, and nine steps are crossed in one gesture.
pub const DAILY_GOALS: [u32; 9] = [0, 5, 10, 15, 20, 30, 60, 90, 120];

/// The steps of the daily goal, as a sequence.
pub open spec fn goal_steps() -> Seq<u32> {
    seq![0u32, 5, 10, 15, 20, 30, 60, 90, 120]
}

/// Two digits, with a leading zero under ten.
pub open spec fn two_digits(n: nat) -> Seq<char> {
    if n < 10 {
        seq!['0'].add(decimal(n))
    } else {
        decimal(n)
    }
}

/// How a goal duration reads: "AUCUN", "5 MIN", "1H", "1H30".
pub open spec fn goal_text(minutes: nat) -> Seq<char> {
    if minutes == 0 {
        "AUCUN"@
    } else if minutes < 60 {
        decimal(minutes) + " MIN"@
    } else if minutes % 60 == 0 {
        decimal(minutes / 60).push('H')
    } else {
        decimal(minutes / 60).push('H') + two_digits(minutes % 60)
    }
}

/// The label of a goal duration.
pub fn goal_label(minutes: u32) -> (label: String)
    ensures
        label@ == goal_text(minutes as nat),
{
    proof {
        reveal_strlit("AUCUN");
        reveal_strlit(" MIN");
        reveal_strlit("");
    }
    if minutes == 0 {
        return text_of("AUCUN");
    }
    let mut label = text_of("");
    if minutes < 60 {
        push_decimal(&mut label, minutes);
        push_char(&mut label, ' ');
        push_char(&mut label, 'M');
        push_char(&mut label, 'I');
        push_char(&mut label, 'N');
        assert(label@ =~= decimal(minutes as nat) + " MIN"@);
        return label;
    }
    push_decimal(&mut label, minutes / 60);
    push_char(&mut label, 'H');
    let rest = minutes % 60;
    if rest == 0 {
        assert(label@ =~= decimal((minutes / 60) as nat).push('H'));
        return label;
    }
    if rest < 10 {
        push_char(&mut label, '0');
    }
    push_decimal(&mut label, rest);
    assert(label@ =~= decimal((minutes / 60) as nat).push('H') + two_digits(rest as nat));
    label
}

/// The player's settings.
#[derive(Debug, Clone, Copy)]
pub struct Settings {
    pub version: u32,
    /// Volume of the menu music, from 0 to `MAX_LEVEL`.
    pub music: u8,
    /// Volume of the music during a round.
    ///
    /// Apart from the menus', and lower by default: in a round the
    /// information goes through the sound effects, which a music too loud
    /// would cover at the very moment they matter.
    pub music_game: u8,
    /// Volume of the sound effects, from 0 to `MAX_LEVEL`.
    pub sfx: u8,
    /// Minutes of learning aimed at each day, `0` to not be alerted.
    ///
    /// `None` means the question was never asked. That is not the same as
    /// having answered "off", and it is what brings up the goal screen at
    /// first launch.
    pub daily_goal: Option<u32>,
}

/// The menu music volume when nothing was chosen.
pub fn default_music() -> (level: u8)
    ensures
        level == 6,
{
    6
}

/// The round music volume when nothing was chosen.
pub fn default_music_game() -> (level: u8)
    ensures
        level == 4,
{
    4
}

/// The sound effects volume when nothing was chosen.
pub fn default_sfx() -> (level: u8)
    ensures
        level == 8,
{
    8
}

impl Default for Settings {
    fn default() -> (settings: Self)
        ensures
            settings.version == FORMAT_VERSION,
            settings.music == 6,
            settings.music_game == 4,
            settings.sfx == 8,
            settings.daily_goal == None::<u32>,
    {
        Settings {
            version: FORMAT_VERSION,
            music: default_music(),
            music_game: default_music_game(),
            sfx: default_sfx(),
            daily_goal: None,
        }
    }
}

/// The step of a goal duration: its position among the steps, or 0 when it
/// is none of them.
pub open spec fn goal_step(minutes: u32) -> int {
    if exists|i: int| 0 <= i < 9 && goal_steps()[i] == minutes {
        goal_witness(minutes)
    } else {
        0
    }
}

/// A step holding this duration.
pub open spec fn goal_witness(minutes: u32) -> int {
    choose|i: int| 0 <= i < 9 && goal_steps()[i] == minutes
}

/// The goal in minutes, 0 when off or never asked.
pub open spec fn goal_minutes(goal: Option<u32>) -> u32 {
    match goal {
        Some(minutes) => minutes,
        None => 0,
    }
}

/// The settings with every value within what the game offers.
pub open spec fn clamped_settings(s: Settings) -> Settings {
    Settings {
        music: if s.music < MAX_LEVEL {
            s.music
        } else {
            MAX_LEVEL
        },
        music_game: if s.music_game < MAX_LEVEL {
            s.music_game
        } else {
            MAX_LEVEL
        },
        sfx: if s.sfx < MAX_LEVEL {
            s.sfx
        } else {
            MAX_LEVEL
        },
        daily_goal: match s.daily_goal {
            Some(g) => if goal_steps().contains(g) {
                Some(g)
            } else {
                None
            },
            None => None,
        },
        ..s
    }
}

/// Is this duration one of the steps?
fn is_goal_step(minutes: u32) -> (b: bool)
    ensures
        b == goal_steps().contains(minutes),
{
    let mut i: usize = 0;
    while i < 9
        invariant
            i <= 9,
            forall|j: int| 0 <= j < i ==> goal_steps()[j] != minutes,
        decreases 9 - i,
    {
        if DAILY_GOALS[i] == minutes {
            assert(goal_steps()[i as int] == minutes);
            return true;
        }
        i = i + 1;
    }
    false
}

/// The loudness of a volume level, in thousandths: a level beyond the
/// maximum counts as the maximum.
pub open spec fn gain_of(level: u8) -> int {
    if level <= MAX_LEVEL {
        level * 1000 / (MAX_LEVEL as int)
    } else {
        1000
    }
}

/// The loudness of a level, in thousandths.
pub fn gain(level: u8) -> (g: u32)
    ensures
        g == gain_of(level),
        g <= 1000,
{
    let level = if level <= MAX_LEVEL {
        level
    } else {
        MAX_LEVEL
    };
    level as u32 * 1000 / MAX_LEVEL as u32
}

impl Settings {
    /// Loudness of the menu music, in thousandths.
    pub fn music_gain(&self) -> (g: u32)
        ensures
            g == gain_of(self.music),
    {
        gain(self.music)
    }

    /// Loudness of the music during a round, in thousandths.
    pub fn music_game_gain(&self) -> (g: u32)
        ensures
            g == gain_of(self.music_game),
    {
        gain(self.music_game)
    }

    /// Loudness of the sound effects, in thousandths.
    pub fn sfx_gain(&self) -> (g: u32)
        ensures
            g == gain_of(self.sfx),
    {
        gain(self.sfx)
    }

    /// The daily goal in minutes, `0` when the alert is off or the question
    /// was never asked.
    pub fn daily_goal_minutes(&self) -> (minutes: u32)
        ensures
            minutes == goal_minutes(self.daily_goal),
    {
        match self.daily_goal {
            Some(minutes) => minutes,
            None => 0,
        }
    }

    /// The matching step in `DAILY_GOALS`.
    pub fn daily_goal_step(&self) -> (step: usize)
        ensures
            step == goal_step(goal_minutes(self.daily_goal)),
            step < 9,
    {
        let minutes = self.daily_goal_minutes();
        let mut i: usize = 0;
        while i < 9
            invariant
                i <= 9,
                minutes == goal_minutes(self.daily_goal),
                forall|j: int| 0 <= j < i ==> goal_steps()[j] != minutes,
            decreases 9 - i,
        {
            if DAILY_GOALS[i] == minutes {
                proof {
                    assert(goal_steps()[i as int] == minutes);
                    let k = goal_witness(minutes);
                    if k < i {
                        assert(goal_steps()[k] != minutes);
                    } else if k > i {
                        lemma_goal_steps_distinct(i as int, k);
                    }
                }
                return i;
            }
            i = i + 1;
        }
        0
    }

    /// A hand-edited file could announce a volume of 200: such a value never
    /// reaches the sound engine. A duration that is not a step is dropped
    /// rather than taken at its word: the slider would have no place for it.
    pub fn clamped(self) -> (s: Self)
        ensures
            s == clamped_settings(self),
    {
        let mut s = self;
        if s.music > MAX_LEVEL {
            s.music = MAX_LEVEL;
        }
        if s.music_game > MAX_LEVEL {
            s.music_game = MAX_LEVEL;
        }
        if s.sfx > MAX_LEVEL {
            s.sfx = MAX_LEVEL;
        }
        match s.daily_goal {
            Some(goal) => {
                if !is_goal_step(goal) {
                    s.daily_goal = None;
                }
            },
            None => {},
        }
        s
    }

    /// Settings read back from a save: kept and clamped when the format is
    /// the current one, the defaults otherwise.
    pub fn from_saved(saved: Settings) -> (s: Self)
        ensures
            saved.version == FORMAT_VERSION ==> s == clamped_settings(saved),
            saved.version != FORMAT_VERSION ==> s.version == FORMAT_VERSION && s.music == 6 && s.music_game
                == 4 && s.sfx == 8 && s.daily_goal == None::<u32>,
    {
        if saved.version == FORMAT_VERSION {
            saved.clamped()
        } else {
            Settings::default()
        }
    }
}

/// The steps are all different.
proof fn lemma_goal_steps_distinct(i: int, k: int)
    requires
        0 <= i < k < 9,
    ensures
        goal_steps()[i] != goal_steps()[k],
{
}

/// Every step maps back to itself: the slider shows where the goal stands.
pub proof fn law_goal_step_round_trip(i: int)
    requires
        0 <= i < 9,
    ensures
        goal_step(goal_steps()[i]) == i,
{
    let minutes = goal_steps()[i];
    assert(exists|j: int| 0 <= j < 9 && goal_steps()[j] == minutes);
    let k = goal_witness(minutes);
    if k < i {
        lemma_goal_steps_distinct(k, i);
    } else if k > i {
        lemma_goal_steps_distinct(i, k);
    }
}

/// Clamping twice changes nothing more than clamping once, and clamped
/// settings hold only volumes the gauge offers and a goal the slider knows.
pub proof fn law_clamped_is_settled(s: Settings)
    ensures
        clamped_settings(clamped_settings(s)) == clamped_settings(s),
        clamped_settings(s).music <= MAX_LEVEL,
        clamped_settings(s).music_game <= MAX_LEVEL,
        clamped_settings(s).sfx <= MAX_LEVEL,
        clamped_settings(s).daily_goal matches Some(g) ==> goal_steps().contains(g),
{
}

} // verus!
