//! The logic of the interface pieces: hovering, and the notched slider.
//!
//! Positions are in thousandths of a virtual pixel.

use vstd::prelude::*;
use vstd::string::StringSliceAdditionalSpecFns;

verus! {

/// A rectangle of the screen, its corner at the top left.
#[derive(Debug, Clone, Copy, PartialEq, Eq, Structural)]
pub struct Area {
    pub x: i64,
    pub y: i64,
    pub w: i64,
    pub h: i64,
}

/// A rectangle within which every coordinate computes without overflow.
pub open spec fn modest(a: Area) -> bool {
    &&& -0x1_0000_0000_0000 <= a.x <= 0x1_0000_0000_0000
    &&& -0x1_0000_0000_0000 <= a.y <= 0x1_0000_0000_0000
    &&& 0 <= a.w <= 0x1_0000_0000_0000
    &&& 0 <= a.h <= 0x1_0000_0000_0000
}

/// The point lies on the rectangle, its edges included.
pub open spec fn inside(a: Area, px: int, py: int) -> bool {
    a.x <= px <= a.x + a.w && a.y <= py <= a.y + a.h
}

/// How far above and below a thin element a press still catches it.
pub const GRAB_TOLERANCE: i64 = 6000;

/// Width of a slider's cursor.
pub const CURSOR_WIDTH: i64 = 7000;

/// Is the point on the rectangle, edges included?
pub fn contains(a: Area, px: i64, py: i64) -> (b: bool)
    ensures
        b == inside(a, px as int, py as int),
{
    px >= a.x && px as i128 <= a.x as i128 + a.w as i128 && py >= a.y && py as i128 <= a.y as i128 + a.h as i128
}

/// Where a thin element can be caught: a rail a few pixels high is almost
/// impossible to aim at with a finger, so a press a little above or below
/// it counts.
pub fn grab_area(a: Area) -> (g: Area)
    requires
        modest(a),
    ensures
        g == (Area { x: a.x, y: (a.y - GRAB_TOLERANCE) as i64, w: a.w, h: (a.h + 2 * GRAB_TOLERANCE) as i64 }),
{
    Area { x: a.x, y: a.y - GRAB_TOLERANCE, w: a.w, h: a.h + 2 * GRAB_TOLERANCE }
}

/// `a / b` rounded to the nearest whole, halves away from zero, for `a` not
/// negative and `b` positive.
pub open spec fn rounded(a: int, b: int) -> int {
    (2 * a + b) / (2 * b)
}

/// The notch pointed at by a horizontal position, the height left aside.
pub open spec fn step_at_x(a: Area, steps: int, px: int) -> int {
    if steps < 2 {
        0
    } else {
        let along = if px < a.x {
            0
        } else if px > a.x + a.w {
            a.w as int
        } else {
            px - a.x
        };
        rounded(along * (steps - 1), a.w as int)
    }
}

/// The notch pointed at by a horizontal position, without looking at the
/// height: during a drag the hand drifts well beyond a bar a few pixels high,
/// and requiring it to stay there would drop the cursor at the first slip.
/// The nearest notch is taken: aiming at a rail to the pixel asks a
/// precision nobody has.
pub fn slider_step_from_x(a: Area, steps: usize, px: i64) -> (step: usize)
    requires
        modest(a),
        a.w > 0,
        steps <= u32::MAX,
    ensures
        step == step_at_x(a, steps as int, px as int),
        steps >= 1 ==> step < steps,
{
    if steps < 2 {
        return 0;
    }
    let along: i64 = if px < a.x {
        0
    } else if px > a.x + a.w {
        a.w
    } else {
        px - a.x
    };
    let along = along as u128;
    let width = a.w as u128;
    let notches = (steps - 1) as u128;
    assert(along * notches <= width * notches) by (nonlinear_arith)
        requires
            along <= width,
    ;
    assert(width * notches <= 0x1_0000_0000_0000 * 0xffff_ffff) by (nonlinear_arith)
        requires
            width <= 0x1_0000_0000_0000,
            notches <= 0xffff_ffff,
    ;
    let product = along * notches;
    let step = (2 * product + width) / (2 * width);
    assert(step < notches + 1) by (nonlinear_arith)
        requires
            step == (2 * (along * notches) + width) / (2 * width),
            along <= width,
            width > 0,
    ;
    step as usize
}

/// The notch under the pointer, if it is on the bar. It serves to catch the
/// cursor; once caught, `slider_step_from_x` follows the gesture.
pub fn slider_step_at(a: Area, steps: usize, px: i64, py: i64) -> (step: Option<usize>)
    requires
        modest(a),
        a.w > 0,
        steps <= u32::MAX,
    ensures
        step == (if inside(grab_area_of(a), px as int, py as int) {
            Some(step_at_x(a, steps as int, px as int) as usize)
        } else {
            None::<usize>
        }),
{
    let grab = grab_area(a);
    if !contains(grab, px, py) {
        return None;
    }
    Some(slider_step_from_x(a, steps, px))
}

/// What the player did to a slider during a frame.
#[derive(Debug, Clone, Copy, PartialEq, Eq)]
pub struct SliderInput {
    /// The right arrow was pressed.
    pub right: bool,
    /// The left arrow was pressed.
    pub left: bool,
    /// The button went down during the frame.
    pub pressed: bool,
    /// The button is held.
    pub down: bool,
    /// Where the pointer is.
    pub x: i64,
    pub y: i64,
}

/// A slider after a frame, as its notch and whether it is being dragged.
///
/// The arrows move one notch, within the ends. Otherwise the cursor is
/// caught by a press on the bar and follows the hand, whatever its height,
/// until the button is let go: without that hold the hand would have to stay
/// on a rail a few pixels high for the whole gesture.
pub open spec fn slider_after(a: Area, steps: int, step: int, dragging: bool, input: SliderInput) -> (int, bool) {
    if input.right {
        (if step + 1 < steps { step + 1 } else { steps - 1 }, dragging)
    } else if input.left {
        (if step > 0 { step - 1 } else { 0 }, dragging)
    } else if input.down && (dragging || (input.pressed && inside(grab_area_of(a), input.x as int, input.y as int))) {
        (step_at_x(a, steps, input.x as int), true)
    } else {
        (step, false)
    }
}

/// Moves a slider for a frame: the notch chosen, at the keyboard or by
/// dragging the cursor, and whether the cursor is held.
pub fn slider_pick(a: Area, steps: usize, step: usize, dragging: bool, input: SliderInput) -> (r: (usize, bool))
    requires
        modest(a),
        a.w > 0,
        1 <= steps <= u32::MAX,
        step < steps,
    ensures
        (r.0 as int, r.1) == slider_after(a, steps as int, step as int, dragging, input),
        r.0 < steps,
        !input.right && !input.left && !input.down ==> !r.1,
{
    if input.right {
        return (if step + 1 < steps { step + 1 } else { steps - 1 }, dragging);
    }
    if input.left {
        return (if step > 0 { step - 1 } else { 0 }, dragging);
    }
    let mut held = dragging;
    if input.pressed {
        match slider_step_at(a, steps, input.x, input.y) {
            Some(_) => {
                held = true;
            },
            None => {},
        }
    }
    if !input.down {
        held = false;
    }
    if held {
        (slider_step_from_x(a, steps, input.x), true)
    } else {
        (step, false)
    }
}

/// The area where a bar can be caught.
pub open spec fn grab_area_of(a: Area) -> Area {
    Area { x: a.x, y: (a.y - GRAB_TOLERANCE) as i64, w: a.w, h: (a.h + 2 * GRAB_TOLERANCE) as i64 }
}

/// How far along its travel the cursor stands on notch `index`, to the whole
/// pixel.
pub open spec fn tick_at(travel: int, steps: int, index: int) -> int {
    if steps < 2 {
        0
    } else {
        rounded(travel * index, (steps - 1) * 1000) * 1000
    }
}

/// The offset of notch `index` along a travel of `travel`, rounded to the
/// whole pixel.
pub fn tick_offset(travel: i64, steps: usize, index: usize) -> (offset: i64)
    requires
        0 <= travel <= 0x1_0000_0000_0000,
        steps <= u32::MAX,
        index < steps,
    ensures
        offset == tick_at(travel as int, steps as int, index as int),
        steps >= 2 ==> 0 <= offset <= travel + 1000,
{
    if steps < 2 {
        return 0;
    }
    let t = travel as u128;
    let i = index as u128;
    let d = (steps as u128 - 1) * 1000;
    assert(t * i <= 0x1_0000_0000_0000 * 0xffff_ffff) by (nonlinear_arith)
        requires
            t <= 0x1_0000_0000_0000,
            i <= 0xffff_ffff,
    ;
    let product = t * i;
    let pixels = (2 * product + d) / (2 * d);
    assert(pixels * 1000 <= t + 1000) by (nonlinear_arith)
        requires
            pixels == (2 * (t * i) + d) / (2 * d),
            i * 1000 <= d,
            d >= 1000,
    ;
    (pixels * 1000) as i64
}

/// Nothing under the pointer.
pub const NOTHING: u64 = 0;

/// The starting value of the FNV-1a hash.
pub const FNV_OFFSET: u64 = 0xcbf2_9ce4_8422_2325;
/// The prime of the FNV-1a hash.
pub const FNV_PRIME: u64 = 0x0000_0100_0000_01b3;

/// The FNV-1a hash of some bytes.
pub open spec fn fnv(bytes: Seq<u8>) -> u64
    decreases bytes.len(),
{
    if bytes.len() == 0 {
        FNV_OFFSET
    } else {
        (fnv(bytes.drop_last()) ^ (bytes.last() as u64)).wrapping_mul(FNV_PRIME)
    }
}

/// The four bytes of `x`, most significant first.
pub open spec fn be32(x: u32) -> Seq<u8> {
    seq![(x / 16777216) as u8, ((x / 65536) % 256) as u8, ((x / 256) % 256) as u8, (x % 256) as u8]
}

/// The identity of an interface element: from its label and its size,
/// never reserved for nothing.
pub open spec fn element_id(label: Seq<u8>, w_bits: u32, h_bits: u32) -> u64 {
    fnv(label + be32(w_bits) + be32(h_bits)) | 1
}

fn hash_bytes(hash: u64, bytes: &[u8], Ghost(before): Ghost<Seq<u8>>) -> (h: u64)
    requires
        hash == fnv(before),
    ensures
        h == fnv(before + bytes@),
{
    let mut h = hash;
    let mut i: usize = 0;
    while i < bytes.len()
        invariant
            i <= bytes@.len(),
            h == fnv(before + bytes@.take(i as int)),
        decreases bytes@.len() - i,
    {
        proof {
            assert((before + bytes@.take(i + 1)).drop_last() =~= before + bytes@.take(i as int));
            assert((before + bytes@.take(i + 1)).last() == bytes@[i as int]);
        }
        h = (h ^ bytes[i] as u64).wrapping_mul(FNV_PRIME);
        i = i + 1;
    }
    assert(bytes@.take(bytes@.len() as int) =~= bytes@);
    h
}

fn be_bytes(x: u32) -> (b: [u8; 4])
    ensures
        b@ == be32(x),
{
    let b = [(x / 16777216) as u8, (x / 65536 % 256) as u8, (x / 256 % 256) as u8, (x % 256) as u8];
    assert(b@ =~= be32(x));
    b
}

/// An identity for an interface element, from its label and its size, the
/// sizes given by the bits of their floating-point values.
///
/// Deliberately independent of its position: in a list that scrolls, a
/// geometric identity would change every frame and make the sound crackle
/// all along the scrolling.
pub fn widget_id(label: &str, w_bits: u32, h_bits: u32) -> (id: u64)
    ensures
        id == element_id(label.spec_bytes(), w_bits, h_bits),
        id != NOTHING,
{
    let h = hash_bytes(FNV_OFFSET, label.as_bytes(), Ghost(Seq::empty()));
    assert(Seq::<u8>::empty() + label.spec_bytes() =~= label.spec_bytes());
    let w = be_bytes(w_bits);
    let h = hash_bytes(h, w.as_slice(), Ghost(label.spec_bytes()));
    let hb = be_bytes(h_bits);
    let h = hash_bytes(h, hb.as_slice(), Ghost(label.spec_bytes() + be32(w_bits)));
    let id = h | 1;
    assert(id != 0) by (bit_vector)
        requires
            id == h | 1,
    ;
    id
}

/// What the pointer hovers, from one frame to the next.
///
/// The sound of moving cannot be left to the arrow keys: moving the mouse
/// from one button to another is a move like any other. The elements report
/// what they see while being drawn, and the main loop compares from one
/// frame to the next.
#[derive(Debug, Clone, Copy, PartialEq, Eq, Structural)]
pub struct FocusTracker {
    /// What the pointer hovers during the frame.
    pub hovered: u64,
    /// What it hovered during the previous frame.
    pub previous: u64,
    /// Must the next comparison be silenced?
    pub muted: bool,
}

impl FocusTracker {
    /// Nothing hovered yet.
    pub fn new() -> (f: FocusTracker)
        ensures
            f == (FocusTracker { hovered: NOTHING, previous: NOTHING, muted: false }),
    {
        FocusTracker { hovered: NOTHING, previous: NOTHING, muted: false }
    }

    /// Reports that element `id` is under the pointer. The last to speak
    /// wins: of two elements on top of each other, the smaller, drawn last,
    /// is also the one a click reaches.
    pub fn focus(&mut self, id: u64)
        ensures
            *final(self) == (FocusTracker { hovered: id, ..*old(self) }),
    {
        self.hovered = id;
    }

    /// Did the pointer just arrive on a new element? Called once per frame
    /// after drawing, it consumes what was reported. Leaving for empty space
    /// does not count; the first look of a screen only notes where the
    /// pointer already is.
    pub fn focus_moved(&mut self) -> (moved: bool)
        ensures
            *final(self) == (FocusTracker { hovered: NOTHING, previous: old(self).hovered, muted: false }),
            moved == (!old(self).muted && old(self).hovered != NOTHING && old(self).hovered != old(self).previous),
    {
        let hovered = self.hovered;
        let previous = self.previous;
        let muted = self.muted;
        self.hovered = NOTHING;
        self.previous = hovered;
        self.muted = false;
        if muted {
            return false;
        }
        hovered != NOTHING && hovered != previous
    }

    /// Forgets the hovering, on changing screen: otherwise the button under
    /// the pointer on arrival would sound without anyone moving.
    pub fn forget_focus(&mut self)
        ensures
            *final(self) == (FocusTracker { hovered: NOTHING, previous: NOTHING, muted: true }),
    {
        self.hovered = NOTHING;
        self.previous = NOTHING;
        self.muted = true;
    }
}

/// Staying on an element is heard once: a second report of the same element
/// in the next frame is no move.
pub proof fn law_heard_once(f: FocusTracker, id: u64)
    ensures
        ({
            let after = FocusTracker { hovered: NOTHING, previous: id, muted: false };
            !(!after.muted && id != NOTHING && id != after.previous)
        }),
{
}

} // verus!
