//! How a level is played: the normal round, and the harder modes that open
//! once the previous one is mastered.

use vstd::prelude::*;

use crate::model::{Rules, Speed};

verus! {

/// How a level is played.
///
/// A mode changes neither the signs nor the path: it only hardens the rules
/// of the level. Everything derives from the level's own rules, so that a
/// level tuned to be slow stays slow in every mode.
#[derive(Debug, Clone, Copy, PartialEq, Eq)]
pub enum Mode {
    Normal,
    Fast,
    Ultra,
    /// No clock: the fall speeds up until the lives run out.
    Endless,
}

/// The largest magnitude a rule's number may have for a mode to rescale it.
pub const RULE_LIMIT: i64 = 0x00ff_ffff_ffff_ffff;

/// A number of the rules that a mode can rescale without overflow.
pub open spec fn rule_number(x: i64) -> bool {
    0 <= x <= RULE_LIMIT
}

/// Rules whose numbers every mode can rescale.
pub open spec fn scalable_rules(rules: Rules) -> bool {
    &&& rule_number(rules.duration_ms)
    &&& rule_number(rules.spawn_interval_ms)
    &&& rule_number(rules.speed.start)
    &&& rule_number(rules.speed.ramp)
    &&& rule_number(rules.speed.max)
}

/// `x` multiplied by `num / den`, rounded towards zero.
pub open spec fn scale(x: i64, num: int, den: int) -> int {
    (x * num) / den
}

/// A speed multiplied by `num / den`, ramp included.
pub open spec fn scaled_speed(speed: Speed, num: int, den: int) -> Speed {
    Speed {
        start: scale(speed.start, num, den) as i64,
        ramp: scale(speed.ramp, num, den) as i64,
        max: scale(speed.max, num, den) as i64,
    }
}

/// The rules of a level, hardened by a mode.
pub open spec fn mode_rules(mode: Mode, rules: Rules) -> Rules {
    match mode {
        Mode::Normal => rules,
        Mode::Fast => Rules {
            speed: scaled_speed(rules.speed, 3, 2),
            spawn_interval_ms: scale(rules.spawn_interval_ms, 72, 100) as i64,
            ..rules
        },
        Mode::Ultra => Rules {
            speed: scaled_speed(rules.speed, 21, 10),
            spawn_interval_ms: scale(rules.spawn_interval_ms, 55, 100) as i64,
            ..rules
        },
        Mode::Endless => Rules {
            duration_ms: 0,
            speed: Speed {
                start: scale(rules.speed.start, 4, 5) as i64,
                ramp: scale(
                    if rules.speed.ramp > 1000 {
                        rules.speed.ramp
                    } else {
                        1000
                    },
                    5,
                    2,
                ) as i64,
                max: scale(rules.speed.max, 6, 1) as i64,
            },
            spawn_interval_ms: scale(rules.spawn_interval_ms, 9, 10) as i64,
            ..rules
        },
    }
}

/// `y` is `x` times `num / den`, rounded down: the largest whole number whose
/// `den`-fold does not exceed `num` times `x`.
pub open spec fn times_ratio(y: int, x: int, num: int, den: int) -> bool {
    den * y <= num * x < den * y + den
}

/// Scaling by a ratio gives `x` times the ratio rounded down, within range.
proof fn lemma_scale(x: i64, num: int, den: int)
    requires
        rule_number(x),
        0 <= num <= 72,
        1 <= den,
    ensures
        times_ratio(scale(x, num, den), x as int, num, den),
        0 <= scale(x, num, den) <= x * num,
        scale(x, num, den) as i64 == scale(x, num, den),
{
    let p = x * num;
    assert(0 <= p <= RULE_LIMIT * 72) by (nonlinear_arith)
        requires
            0 <= x <= RULE_LIMIT,
            0 <= num <= 72,
            p == x * num,
    ;
    vstd::arithmetic::div_mod::lemma_fundamental_div_mod(p, den);
    vstd::arithmetic::div_mod::lemma_mod_pos_bound(p, den);
    let q = p / den;
    assert(0 <= q <= p) by (nonlinear_arith)
        requires
            p == den * q + p % den,
            0 <= p % den < den,
            den >= 1,
            p >= 0,
    ;
    assert(num * x == p) by (nonlinear_arith)
        requires
            p == x * num,
    ;
}

/// What each mode does to a level's rules. The normal mode keeps them.
/// The fast mode multiplies the three speeds (start, ramp and cap) by 3/2
/// and the time between tiles by 72/100; the ultra mode by 21/10 and
/// 55/100; each rounded down. The endless mode has no clock: it starts at
/// 4/5 of the speed, accelerates by 5/2 of the ramp (at least 1000), caps at
/// six times the speed cap and sends tiles at 9/10 of the interval. Lives,
/// columns and the share of review never change. So each harder mode is at
/// least as fast as the one before it and sends tiles at least as often.
pub proof fn law_mode_ratios(r: Rules)
    requires
        scalable_rules(r),
    ensures
        mode_rules(Mode::Normal, r) == r,
        times_ratio(mode_rules(Mode::Fast, r).speed.start as int, r.speed.start as int, 3, 2),
        times_ratio(mode_rules(Mode::Fast, r).speed.ramp as int, r.speed.ramp as int, 3, 2),
        times_ratio(mode_rules(Mode::Fast, r).speed.max as int, r.speed.max as int, 3, 2),
        times_ratio(mode_rules(Mode::Fast, r).spawn_interval_ms as int, r.spawn_interval_ms as int, 72, 100),
        times_ratio(mode_rules(Mode::Ultra, r).speed.start as int, r.speed.start as int, 21, 10),
        times_ratio(mode_rules(Mode::Ultra, r).speed.ramp as int, r.speed.ramp as int, 21, 10),
        times_ratio(mode_rules(Mode::Ultra, r).speed.max as int, r.speed.max as int, 21, 10),
        times_ratio(mode_rules(Mode::Ultra, r).spawn_interval_ms as int, r.spawn_interval_ms as int, 55, 100),
        times_ratio(mode_rules(Mode::Endless, r).speed.start as int, r.speed.start as int, 4, 5),
        times_ratio(
            mode_rules(Mode::Endless, r).speed.ramp as int,
            if r.speed.ramp > 1000 { r.speed.ramp as int } else { 1000 },
            5,
            2,
        ),
        mode_rules(Mode::Endless, r).speed.max == r.speed.max * 6,
        times_ratio(mode_rules(Mode::Endless, r).spawn_interval_ms as int, r.spawn_interval_ms as int, 9, 10),
        mode_rules(Mode::Endless, r).duration_ms == 0,
        mode_rules(Mode::Fast, r).duration_ms == r.duration_ms,
        mode_rules(Mode::Ultra, r).duration_ms == r.duration_ms,
        forall|m: Mode| #![auto] mode_rules(m, r).lives == r.lives && mode_rules(m, r).columns == r.columns
            && mode_rules(m, r).review_permille == r.review_permille,
        r.speed.start <= mode_rules(Mode::Fast, r).speed.start <= mode_rules(Mode::Ultra, r).speed.start,
        r.speed.ramp <= mode_rules(Mode::Fast, r).speed.ramp <= mode_rules(Mode::Ultra, r).speed.ramp,
        r.speed.max <= mode_rules(Mode::Fast, r).speed.max <= mode_rules(Mode::Ultra, r).speed.max,
        mode_rules(Mode::Ultra, r).spawn_interval_ms <= mode_rules(Mode::Fast, r).spawn_interval_ms
            <= r.spawn_interval_ms,
{
    lemma_scale(r.speed.start, 3, 2);
    lemma_scale(r.speed.ramp, 3, 2);
    lemma_scale(r.speed.max, 3, 2);
    lemma_scale(r.spawn_interval_ms, 72, 100);
    lemma_scale(r.speed.start, 21, 10);
    lemma_scale(r.speed.ramp, 21, 10);
    lemma_scale(r.speed.max, 21, 10);
    lemma_scale(r.spawn_interval_ms, 55, 100);
    lemma_scale(r.speed.start, 4, 5);
    let ramp: i64 = if r.speed.ramp > 1000 { r.speed.ramp } else { 1000 };
    lemma_scale(ramp, 5, 2);
    lemma_scale(r.speed.max, 6, 1);
    lemma_scale(r.spawn_interval_ms, 9, 10);
    assert(scale(r.speed.max, 6, 1) == r.speed.max * 6);
}

fn scale_exec(x: i64, num: i64, den: i64) -> (y: i64)
    requires
        rule_number(x),
        0 <= num <= 72,
        1 <= den <= 100,
    ensures
        y == scale(x, num as int, den as int),
        0 <= y,
        y <= x * num,
{
    proof {
        assert(x * num <= RULE_LIMIT * 72) by (nonlinear_arith)
            requires
                0 <= x <= RULE_LIMIT,
                0 <= num <= 72,
        ;
        assert(0 <= x * num) by (nonlinear_arith)
            requires
                0 <= x,
                0 <= num,
        ;
        assert((x * num) / (den as int) <= x * num) by (nonlinear_arith)
            requires
                0 <= x * num,
                1 <= den,
        ;
    }
    (x * num) / den
}

fn scale_speed(speed: Speed, num: i64, den: i64) -> (s: Speed)
    requires
        rule_number(speed.start),
        rule_number(speed.ramp),
        rule_number(speed.max),
        0 <= num <= 72,
        1 <= den <= 100,
    ensures
        s == scaled_speed(speed, num as int, den as int),
{
    Speed {
        start: scale_exec(speed.start, num, den),
        ramp: scale_exec(speed.ramp, num, den),
        max: scale_exec(speed.max, num, den),
    }
}

impl Mode {
    /// Every mode, in the order of the briefing.
    pub const ALL: [Mode; 4] = [Mode::Normal, Mode::Fast, Mode::Ultra, Mode::Endless];

    /// The label of the mode.
    pub fn label(self) -> (label: &'static str)
        ensures
            label@ == mode_label(self),
    {
        match self {
            Mode::Normal => "NORMAL",
            Mode::Fast => "RAPIDE",
            Mode::Ultra => "ULTRA",
            Mode::Endless => "INFINI",
        }
    }

    /// Is this mode judged on flawless rounds only?
    ///
    /// The normal mode is rated in stars, from rough to perfect. The fast and
    /// ultra modes know two outcomes only: flawless, or to be played again.
    pub fn demands_perfection(self) -> (b: bool)
        ensures
            b == (self == Mode::Fast || self == Mode::Ultra),
    {
        match self {
            Mode::Fast | Mode::Ultra => true,
            _ => false,
        }
    }

    /// The rules of a level, hardened according to the mode.
    pub fn apply(self, rules: &Rules) -> (hardened: Rules)
        requires
            scalable_rules(*rules),
        ensures
            hardened == mode_rules(self, *rules),
    {
        match self {
            Mode::Normal => *rules,
            Mode::Fast => Rules {
                speed: scale_speed(rules.speed, 3, 2),
                spawn_interval_ms: scale_exec(rules.spawn_interval_ms, 72, 100),
                ..*rules
            },
            Mode::Ultra => Rules {
                speed: scale_speed(rules.speed, 21, 10),
                spawn_interval_ms: scale_exec(rules.spawn_interval_ms, 55, 100),
                ..*rules
            },
            Mode::Endless => {
                // The round starts gently, more gently than the normal one,
                // but nothing stops the acceleration any more: it is what
                // ends the round, not the clock.
                let ramp = if rules.speed.ramp > 1000 {
                    rules.speed.ramp
                } else {
                    1000
                };
                Rules {
                    duration_ms: 0,
                    speed: Speed {
                        start: scale_exec(rules.speed.start, 4, 5),
                        ramp: scale_exec(ramp, 5, 2),
                        max: scale_exec(rules.speed.max, 6, 1),
                    },
                    spawn_interval_ms: scale_exec(rules.spawn_interval_ms, 9, 10),
                    ..*rules
                }
            },
        }
    }

    /// The mode `step` places away in `ALL`, wrapping around at both ends.
    pub fn cycled(self, step: i32) -> (next: Mode)
        ensures
            mode_index(next) == (mode_index(self) + step) % 4,
    {
        let from: i64 = match self {
            Mode::Normal => 0,
            Mode::Fast => 1,
            Mode::Ultra => 2,
            Mode::Endless => 3,
        };
        let sum = from + step as i64;
        let target = if sum >= 0 {
            sum % 4
        } else {
            (4 - (-sum) % 4) % 4
        };
        assert(target == (mode_index(self) + step) % 4) by (nonlinear_arith)
            requires
                sum == mode_index(self) + step,
                sum >= 0 ==> target == sum % 4,
                sum < 0 ==> target == (4 - (-sum) % 4) % 4,
        ;
        if target == 0 {
            Mode::Normal
        } else if target == 1 {
            Mode::Fast
        } else if target == 2 {
            Mode::Ultra
        } else {
            Mode::Endless
        }
    }
}

/// The position of a mode in `Mode::ALL`.
pub open spec fn mode_index(mode: Mode) -> int {
    match mode {
        Mode::Normal => 0,
        Mode::Fast => 1,
        Mode::Ultra => 2,
        Mode::Endless => 3,
    }
}

/// The label shown for a mode.
pub open spec fn mode_label(mode: Mode) -> Seq<char> {
    match mode {
        Mode::Normal => "NORMAL"@,
        Mode::Fast => "RAPIDE"@,
        Mode::Ultra => "ULTRA"@,
        Mode::Endless => "INFINI"@,
    }
}

impl Default for Mode {
    fn default() -> (mode: Self)
        ensures
            mode == Mode::Normal,
    {
        Mode::Normal
    }
}

/// Each mode hardens the rules of its level: faster falls, closer tiles.
pub proof fn law_modes_harden(rules: Rules)
    requires
        scalable_rules(rules),
        rules.speed.start > 0,
        rules.spawn_interval_ms > 0,
    ensures
        mode_rules(Mode::Normal, rules).speed.start <= mode_rules(Mode::Fast, rules).speed.start,
        mode_rules(Mode::Fast, rules).speed.start <= mode_rules(Mode::Ultra, rules).speed.start,
        mode_rules(Mode::Ultra, rules).spawn_interval_ms <= mode_rules(Mode::Fast, rules).spawn_interval_ms,
        mode_rules(Mode::Fast, rules).spawn_interval_ms <= mode_rules(Mode::Normal, rules).spawn_interval_ms,
        mode_rules(Mode::Endless, rules).duration_ms == 0,
        mode_rules(Mode::Endless, rules).speed.start <= rules.speed.start,
        mode_rules(Mode::Endless, rules).speed.max == rules.speed.max * 6,
{
    let s = rules.speed.start;
    let i = rules.spawn_interval_ms;
    assert(s <= (s * 3) / 2 && (s * 3) / 2 <= (s * 21) / 10) by (nonlinear_arith)
        requires
            s > 0,
    ;
    assert((i * 55) / 100 <= (i * 72) / 100 && (i * 72) / 100 <= i) by (nonlinear_arith)
        requires
            i > 0,
    ;
    assert((s * 4) / 5 <= s) by (nonlinear_arith)
        requires
            s > 0,
    ;
}

} // verus!
