//! The background music: the tracks of a folder played one after the other
//! in a random order, and the decisions that keep the music going.
//!
//! Decoding a track and handing it to the sound engine is the caller's work;
//! this module says which track comes next and when to start, stop or change
//! the volume.

use vstd::prelude::*;

use crate::random::{random_below, RANDOM_LIMIT};
use crate::text::{same_text, to_lowercase_text};

verus! {

/// Silence between two tracks. Chaining them at once sounds like a single
/// incoherent piece.
pub const GAP_MS: i64 = 1500;

/// Is a file extension one of the audio formats played? Anything else in the
/// folder is ignored, so that notes or sources can be left there.
pub open spec fn audio_extension(lower: Seq<char>) -> bool {
    lower == "mp3"@ || lower == "ogg"@ || lower == "wav"@
}

/// Is this extension, whatever its case, an audio format played?
pub fn is_audio_extension(extension: &str) -> (b: bool)
    ensures
        b == audio_extension(crate::text::lowercase(extension@)),
{
    let lower = to_lowercase_text(extension);
    same_text(lower.as_str(), "mp3") || same_text(lower.as_str(), "ogg") || same_text(lower.as_str(), "wav")
}

/// `order` passes every one of `n` tracks exactly once.
pub open spec fn is_order(order: Seq<usize>, n: int) -> bool {
    &&& order.len() == n
    &&& forall|i: int| 0 <= i < order.len() ==> #[trigger] order[i] < n
    &&& forall|i: int, j: int| 0 <= i < j < order.len() ==> #[trigger] order[i] != #[trigger] order[j]
}

/// A list of tracks and the order they pass in.
pub struct Playlist {
    /// How many tracks there are; the caller keeps the files themselves.
    pub tracks: usize,
    /// The order of passage, shuffled again at each round.
    pub order: Vec<usize>,
    /// Position in `order`.
    pub next: usize,
    /// The track played last, so that the next round does not open on it.
    pub last: Option<usize>,
}

impl Playlist {
    /// Well formed: the order passes every track once, and a round about to
    /// open does not open on the track played last.
    pub open spec fn wf(&self) -> bool {
        &&& self.tracks <= RANDOM_LIMIT
        &&& is_order(self.order@, self.tracks as int)
        &&& self.next <= self.order@.len()
        &&& self.last matches Some(l) ==> l < self.tracks
        &&& self.next == 0 && self.tracks > 1 && self.last is Some ==> self.order@[0] != self.last->0
    }

    /// A playlist of `tracks` tracks, shuffled.
    pub fn new(tracks: usize) -> (p: Playlist)
        requires
            tracks <= RANDOM_LIMIT,
        ensures
            p.wf(),
            p.tracks == tracks,
            p.next == 0,
            p.last is None,
    {
        let mut playlist = Playlist { tracks, order: Vec::new(), next: 0, last: None };
        playlist.reshuffle();
        playlist
    }

    /// Is there no track at all?
    pub fn is_empty(&self) -> (b: bool)
        ensures
            b == (self.tracks == 0),
    {
        self.tracks == 0
    }

    /// Shuffles the order of passage again, Fisher and Yates' way.
    ///
    /// The first track of the new round is never the one that just played:
    /// without that care, a draw among three tracks would fairly often give
    /// the same twice in a row, which sounds like a bug.
    ///
    /// The draws are random: the order is the shuffle of the numbers drawn,
    /// whichever they were, each below the number of places left.
    pub fn reshuffle(&mut self)
        requires
            old(self).tracks <= RANDOM_LIMIT,
            old(self).last matches Some(l) ==> l < old(self).tracks,
        ensures
            final(self).wf(),
            final(self).tracks == old(self).tracks,
            final(self).last == old(self).last,
            final(self).next == 0,
            exists|draws: Seq<u32>| #[trigger] valid_draws(old(self).tracks as int, draws)
                && final(self).order@ == opened_apart(fisher_yates(old(self).tracks as int, draws), old(self).last),
    {
        let n = self.tracks;
        let mut draws: Vec<u32> = Vec::new();
        let mut position = n;
        while position > 1
            invariant
                position <= n,
                n > 0 ==> position >= 1,
                n <= RANDOM_LIMIT,
                draws@.len() == n - position,
                forall|k: int| 0 <= k < draws@.len() ==> #[trigger] draws@[k] <= n - 1 - k,
            decreases position,
        {
            position = position - 1;
            let other = random_below((position + 1) as u32);
            draws.push(other);
        }
        assert(valid_draws(n as int, draws@));
        let mut order = shuffled(n, &draws);
        let ghost drawn = order@;
        if n > 1 {
            match self.last {
                Some(last) => {
                    if order[0] == last {
                        let a = order[0];
                        let b = order[1];
                        order.set(0, b);
                        order.set(1, a);
                        proof {
                            lemma_swap_keeps_order(order@, n as int);
                        }
                    }
                },
                None => {},
            }
        }
        assert(order@ == opened_apart(drawn, self.last));
        self.order = order;
        self.next = 0;
    }

    /// The next track to play; `None` when there is none.
    pub fn take_next(&mut self) -> (r: Option<usize>)
        requires
            old(self).wf(),
        ensures
            final(self).wf(),
            final(self).tracks == old(self).tracks,
            r is None <==> old(self).tracks == 0,
            r matches Some(i) ==> i < old(self).tracks && final(self).last == Some(i),
            r matches Some(i) ==> (final(self).next == 1 && old(self).tracks > 1 ==> old(self).last != Some(i)),
            old(self).tracks > 0 && old(self).next < old(self).order@.len() ==> r == Some(
                old(self).order@[old(self).next as int],
            ) && final(self).order@ == old(self).order@ && final(self).next == old(self).next + 1,
            old(self).tracks > 0 && old(self).next >= old(self).order@.len() ==> r == Some(final(self).order@[0])
                && final(self).next == 1,
    {
        if self.tracks == 0 {
            return None;
        }
        if self.next >= self.order.len() {
            self.reshuffle();
        }
        let index = self.order[self.next];
        self.next = self.next + 1;
        self.last = Some(index);
        Some(index)
    }
}

/// Draws fit for shuffling `n` tracks: one for each place from the last down
/// to the second, each at most the index of its place.
pub open spec fn valid_draws(n: int, draws: Seq<u32>) -> bool {
    &&& draws.len() == (if n > 1 { n - 1 } else { 0 })
    &&& forall|k: int| 0 <= k < draws.len() ==> #[trigger] draws[k] <= n - 1 - k
}

/// The tracks in their own order.
pub open spec fn in_order(n: int) -> Seq<usize> {
    Seq::new(n as nat, |i: int| i as usize)
}

/// `s` with the entries at `i` and `j` exchanged.
pub open spec fn swapped(s: Seq<usize>, i: int, j: int) -> Seq<usize> {
    s.update(i, s[j]).update(j, s[i])
}

/// The order after the first `k` swaps of the shuffle: the `k`-th swap
/// exchanges place `n - k` with the place its draw names.
pub open spec fn shuffle_steps(n: int, draws: Seq<u32>, k: int) -> Seq<usize>
    decreases k,
{
    if k <= 0 {
        in_order(n)
    } else {
        swapped(shuffle_steps(n, draws, k - 1), n - k, draws[k - 1] as int)
    }
}

/// Fisher and Yates' shuffle of `n` tracks with the given draws: from the
/// last place down to the second, each place exchanged with one at or
/// before it.
pub open spec fn fisher_yates(n: int, draws: Seq<u32>) -> Seq<usize> {
    shuffle_steps(n, draws, draws.len() as int)
}

/// An order whose first track, if it is the one played last, changes place
/// with the second.
pub open spec fn opened_apart(order: Seq<usize>, last: Option<usize>) -> Seq<usize> {
    if order.len() > 1 && last is Some && order[0] == last->0 {
        swapped(order, 0, 1)
    } else {
        order
    }
}

/// The order of `n` tracks shuffled with the given draws.
pub fn shuffled(n: usize, draws: &Vec<u32>) -> (order: Vec<usize>)
    requires
        valid_draws(n as int, draws@),
    ensures
        order@ == fisher_yates(n as int, draws@),
        is_order(order@, n as int),
{
    let mut order: Vec<usize> = Vec::new();
    let mut i: usize = 0;
    while i < n
        invariant
            i <= n,
            order@.len() == i,
            forall|k: int| 0 <= k < i ==> order@[k] == k,
        decreases n - i,
    {
        order.push(i);
        i = i + 1;
    }
    assert(order@ =~= in_order(n as int));
    assert(is_order(order@, n as int));
    let mut k: usize = 0;
    while k < draws.len()
        invariant
            valid_draws(n as int, draws@),
            k <= draws@.len(),
            order@ == shuffle_steps(n as int, draws@, k as int),
            is_order(order@, n as int),
        decreases draws@.len() - k,
    {
        let place = n - 1 - k;
        let other = draws[k] as usize;
        let a = order[place];
        let b = order[other];
        order.set(place, b);
        order.set(other, a);
        proof {
            lemma_swap_keeps_order(order@, n as int);
        }
        k = k + 1;
    }
    order
}

/// Track `v` stands somewhere in `s`.
pub open spec fn appears(s: Seq<usize>, v: int) -> bool {
    exists|i: int| 0 <= i < s.len() && s[i] == v
}

/// Every one of the `n` tracks appears somewhere in `s`.
pub open spec fn covers(s: Seq<usize>, n: int) -> bool {
    forall|v: int| 0 <= v < n ==> #[trigger] appears(s, v)
}

/// Exchanging two entries keeps an order an order, and every track present.
proof fn lemma_swapped_order(s: Seq<usize>, n: int, a: int, b: int)
    requires
        is_order(s, n),
        covers(s, n),
        0 <= a < n,
        0 <= b < n,
    ensures
        is_order(swapped(s, a, b), n),
        covers(swapped(s, a, b), n),
{
    let t = swapped(s, a, b);
    assert forall|x: int| 0 <= x < n implies t[x] == (if x == b { s[a] } else if x == a { s[b] } else { s[x] }) by {}
    assert forall|i: int, j: int| 0 <= i < j < t.len() implies #[trigger] t[i] != #[trigger] t[j] by {
        let si = if i == b { a } else if i == a { b } else { i };
        let sj = if j == b { a } else if j == a { b } else { j };
        assert(t[i] == s[si] && t[j] == s[sj]);
        if si < sj {
            assert(s[si] != s[sj]);
        } else {
            assert(s[sj] != s[si]);
        }
    }
    assert forall|v: int| 0 <= v < n implies appears(t, v) by {
        assert(appears(s, v));
        let i = choose|i: int| 0 <= i < s.len() && s[i] == v;
        let w = if i == a { b } else if i == b { a } else { i };
        assert(t[w] == v);
    }
}

/// The first `k` steps of a shuffle depend on the first `k` draws only.
proof fn lemma_steps_prefix(n: int, d1: Seq<u32>, d2: Seq<u32>, k: int)
    requires
        forall|i: int| 0 <= i < k ==> d1[i] == d2[i],
    ensures
        shuffle_steps(n, d1, k) == shuffle_steps(n, d2, k),
    decreases k,
{
    if k > 0 {
        lemma_steps_prefix(n, d1, d2, k - 1);
    }
}

/// The first `k` steps of a shuffle with fit draws keep an order of the
/// tracks.
proof fn lemma_steps_order(n: int, draws: Seq<u32>, k: int)
    requires
        0 <= n <= RANDOM_LIMIT,
        valid_draws(n, draws),
        0 <= k <= draws.len(),
    ensures
        is_order(shuffle_steps(n, draws, k), n),
        covers(shuffle_steps(n, draws, k), n),
    decreases k,
{
    if k == 0 {
        let s = in_order(n);
        assert forall|v: int| 0 <= v < n implies appears(s, v) by {
            assert(s[v] == v);
        }
    } else {
        lemma_steps_order(n, draws, k - 1);
        lemma_swapped_order(shuffle_steps(n, draws, k - 1), n, n - k, draws[k - 1] as int);
    }
}

/// Draws that lead the first `k` steps of a shuffle to the target's last
/// `k` places.
proof fn lemma_reach(n: int, target: Seq<usize>, k: int) -> (draws: Seq<u32>)
    requires
        1 <= n <= RANDOM_LIMIT,
        is_order(target, n),
        0 <= k <= n - 1,
    ensures
        draws.len() == k,
        forall|i: int| 0 <= i < k ==> #[trigger] draws[i] <= n - 1 - i,
        is_order(shuffle_steps(n, draws, k), n),
        covers(shuffle_steps(n, draws, k), n),
        forall|j: int| n - k <= j < n ==> #[trigger] shuffle_steps(n, draws, k)[j] == target[j],
    decreases k,
{
    if k == 0 {
        let s = in_order(n);
        assert forall|v: int| 0 <= v < n implies appears(s, v) by {
            assert(s[v] == v);
        }
        Seq::empty()
    } else {
        let d = lemma_reach(n, target, k - 1);
        let s = shuffle_steps(n, d, k - 1);
        let m = n - k;
        let v = target[m] as int;
        assert(appears(s, v));
        let i = choose|i: int| 0 <= i < s.len() && s[i] == v;
        if i > m {
            assert(s[i] == target[i]);
            assert(target[m] != target[i]);
        }
        let draws = d.push(i as u32);
        lemma_steps_prefix(n, draws, d, k - 1);
        lemma_swapped_order(s, n, m, i);
        let t = shuffle_steps(n, draws, k);
        assert(t == swapped(s, m, i));
        assert forall|j: int| n - k <= j < n implies #[trigger] shuffle_steps(n, draws, k)[j] == target[j] by {
            if j > m {
                assert(s[j] == target[j]);
            }
        }
        assert forall|x: int| 0 <= x < k implies #[trigger] draws[x] <= n - 1 - x by {
            if x < k - 1 {
                assert(draws[x] == d[x]);
            }
        }
        draws
    }
}

/// The shuffles of `n` tracks are exactly their orders: fit draws always
/// give an order that passes every track once, and every such order is
/// given by some draws. No order is left out, and none is favoured by the
/// way the swaps are laid out.
pub proof fn law_shuffles_are_the_orders(n: int, draws: Seq<u32>, target: Seq<usize>)
    requires
        0 <= n <= RANDOM_LIMIT,
    ensures
        valid_draws(n, draws) ==> is_order(fisher_yates(n, draws), n),
        is_order(target, n) ==> exists|d: Seq<u32>| #[trigger] valid_draws(n, d) && fisher_yates(n, d) == target,
{
    if valid_draws(n, draws) {
        lemma_steps_order(n, draws, draws.len() as int);
    }
    if is_order(target, n) {
        if n == 0 {
            let d = Seq::<u32>::empty();
            assert(fisher_yates(n, d) =~= target);
            assert(valid_draws(n, d));
        } else {
            let d = lemma_reach(n, target, n - 1);
            let s = shuffle_steps(n, d, n - 1);
            assert(s[0] == target[0]) by {
                let w = target[0] as int;
                assert(appears(s, w));
                let i = choose|i: int| 0 <= i < s.len() && s[i] == w;
                if i > 0 {
                    assert(s[i] == target[i]);
                    assert(target[0] != target[i]);
                }
            }
            assert(fisher_yates(n, d) =~= target) by {
                assert forall|j: int| 0 <= j < n implies fisher_yates(n, d)[j] == target[j] by {
                    if j > 0 {
                        assert(s[j] == target[j]);
                    }
                }
            }
            assert(valid_draws(n, d));
        }
    }
}

/// A swap of two entries keeps an order an order. Stated over the result: an
/// order whose entries are distinct and in range stays one.
proof fn lemma_swap_keeps_order(order: Seq<usize>, n: int)
    requires
        order.len() == n,
        forall|i: int| 0 <= i < order.len() ==> #[trigger] order[i] < n,
        forall|i: int, j: int| 0 <= i < j < order.len() ==> #[trigger] order[i] != #[trigger] order[j],
    ensures
        is_order(order, n),
{
}

/// Which atmosphere the current screen asks for.
#[derive(Debug, Clone, Copy, PartialEq, Eq, Structural)]
pub enum Ambience {
    Menus,
    Game,
}

/// What the caller must do for the music this frame.
#[derive(Debug, Clone, Copy, PartialEq, Eq, Structural)]
pub struct MusicStep {
    /// Apply the current gain to the track playing.
    pub apply_volume: bool,
    /// Stop the track playing.
    pub stop: bool,
    /// Start the next track of the playlist of the ambience.
    pub start_next: bool,
}

/// Where the music stands.
#[derive(Debug, Clone, Copy, PartialEq, Eq, Structural)]
pub struct MusicState {
    /// The ambience in progress, once a track started.
    pub current: Option<Ambience>,
    /// Time left in the track playing, known from its decoding: the sound
    /// engine does not tell when a sound ends.
    pub playing_ms: Option<i64>,
    /// Silence left before the next track.
    pub silence_ms: i64,
    /// Volume wanted for each ambience, in thousandths.
    pub menus_volume: u32,
    pub game_volume: u32,
    /// An ambience whose volume is heard without being in it, while it is
    /// set from the options. Asked again at each frame by the screen.
    pub preview: Option<Ambience>,
    pub requested_preview: Option<Ambience>,
}

/// The gain applied: the ambience previewed, else the current one.
pub open spec fn gain_for(m: MusicState) -> u32 {
    let heard = if m.preview is Some {
        m.preview
    } else {
        m.current
    };
    match heard {
        Some(Ambience::Game) => m.game_volume,
        _ => m.menus_volume,
    }
}

/// The state and the step after a frame of `dt` milliseconds in `ambience`,
/// when its playlist is `empty` or not.
pub open spec fn stepped(m: MusicState, dt: int, ambience: Ambience, empty: bool) -> (MusicState, MusicStep) {
    let requested = m.requested_preview;
    let apply_volume = requested != m.preview;
    let m1 = MusicState { preview: requested, requested_preview: None, ..m };
    let switch = m1.current != Some(ambience);
    let m2 = if switch {
        MusicState { playing_ms: None, current: Some(ambience), silence_ms: 0, ..m1 }
    } else {
        m1
    };
    let stop_now = switch && m1.playing_ms is Some;
    if empty {
        (m2, MusicStep { apply_volume, stop: stop_now, start_next: false })
    } else if m2.playing_ms is Some && m2.playing_ms->0 - dt > 0 {
        (MusicState { playing_ms: Some((m2.playing_ms->0 - dt) as i64), ..m2 }, MusicStep {
            apply_volume,
            stop: stop_now,
            start_next: false,
        })
    } else {
        let ended = m2.playing_ms is Some;
        let m3 = if ended {
            MusicState { playing_ms: None, silence_ms: GAP_MS, ..m2 }
        } else {
            m2
        };
        let silence = m3.silence_ms - dt;
        (MusicState { silence_ms: silence as i64, ..m3 }, MusicStep {
            apply_volume,
            stop: stop_now || ended,
            start_next: silence <= 0,
        })
    }
}

impl MusicState {
    /// Nothing playing yet, at these volumes.
    pub fn new(menus_volume: u32, game_volume: u32) -> (m: MusicState)
        ensures
            m == (MusicState {
                current: None,
                playing_ms: None,
                silence_ms: 0,
                menus_volume,
                game_volume,
                preview: None,
                requested_preview: None,
            }),
    {
        MusicState {
            current: None,
            playing_ms: None,
            silence_ms: 0,
            menus_volume,
            game_volume,
            preview: None,
            requested_preview: None,
        }
    }

    /// Makes the volume of an ambience heard without being in it. Without
    /// that, setting the round music from the menus would be moving a slider
    /// with the ears plugged. Asked again at each frame: that is what brings
    /// things back to normal on leaving the screen, Escape included.
    pub fn preview(&mut self, ambience: Ambience)
        ensures
            *final(self) == (MusicState { requested_preview: Some(ambience), ..*old(self) }),
    {
        self.requested_preview = Some(ambience);
    }

    /// The gain really applied, preview included, in thousandths.
    pub fn gain(&self) -> (g: u32)
        ensures
            g == gain_for(*self),
    {
        let heard = match self.preview {
            Some(a) => Some(a),
            None => self.current,
        };
        match heard {
            Some(Ambience::Game) => self.game_volume,
            _ => self.menus_volume,
        }
    }

    /// Changes both volumes, at most whole; the track playing must follow
    /// at once, so the caller applies the gain again.
    pub fn set_volumes(&mut self, menus: u32, game: u32)
        ensures
            *final(self) == (MusicState {
                menus_volume: if menus <= 1000 {
                    menus
                } else {
                    1000
                },
                game_volume: if game <= 1000 {
                    game
                } else {
                    1000
                },
                ..*old(self)
            }),
    {
        self.menus_volume = if menus <= 1000 {
            menus
        } else {
            1000
        };
        self.game_volume = if game <= 1000 {
            game
        } else {
            1000
        };
    }

    /// Decides what the music does over a frame of `dt_ms` milliseconds in
    /// `ambience`. A change of ambience cuts at once and starts without
    /// waiting: letting the menu track finish over a round already started
    /// would be worse than a clean cut.
    pub fn step(&mut self, dt_ms: i64, ambience: Ambience, playlist_empty: bool) -> (s: MusicStep)
        requires
            0 <= dt_ms <= 1_000_000_000,
            -1_000_000_000 <= old(self).silence_ms <= GAP_MS,
            old(self).playing_ms matches Some(r) ==> -1_000_000_000 <= r,
        ensures
            (*final(self), s) == stepped(*old(self), dt_ms as int, ambience, playlist_empty),
    {
        let requested = self.requested_preview;
        self.requested_preview = None;
        let apply_volume = requested != self.preview;
        self.preview = requested;
        let switch = self.current != Some(ambience);
        let stop_now = switch && self.playing_ms.is_some();
        if switch {
            self.playing_ms = None;
            self.current = Some(ambience);
            self.silence_ms = 0;
        }
        if playlist_empty {
            return MusicStep { apply_volume, stop: stop_now, start_next: false };
        }
        let mut ended = false;
        match self.playing_ms {
            Some(remaining) => {
                if remaining - dt_ms > 0 {
                    self.playing_ms = Some(remaining - dt_ms);
                    return MusicStep { apply_volume, stop: stop_now, start_next: false };
                }
                self.playing_ms = None;
                self.silence_ms = GAP_MS;
                ended = true;
            },
            None => {},
        }
        self.silence_ms = self.silence_ms - dt_ms;
        MusicStep { apply_volume, stop: stop_now || ended, start_next: self.silence_ms <= 0 }
    }

    /// Notes that a track of `length_ms` milliseconds started.
    pub fn started(&mut self, length_ms: i64)
        ensures
            *final(self) == (MusicState { playing_ms: Some(length_ms), ..*old(self) }),
    {
        self.playing_ms = Some(length_ms);
    }

    /// Notes that the music was stopped.
    pub fn stopped(&mut self)
        ensures
            *final(self) == (MusicState { playing_ms: None, ..*old(self) }),
    {
        self.playing_ms = None;
    }
}

/// Each ambience is heard at its own volume, and a preview makes the other
/// one heard.
pub proof fn law_gain_follows_ambience(m: MusicState, a: Ambience)
    ensures
        gain_for(MusicState { current: Some(a), preview: None, ..m }) == (match a {
            Ambience::Menus => m.menus_volume,
            Ambience::Game => m.game_volume,
        }),
        gain_for(MusicState { preview: Some(a), ..m }) == (match a {
            Ambience::Menus => m.menus_volume,
            Ambience::Game => m.game_volume,
        }),
{
}

} // verus!
