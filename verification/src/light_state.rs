//! Per-pixel compositing and per-peer animation state: the pixel
//! accumulator with its order-fixed screen blend, the hue-to-RGB
//! conversion, and the animated slot state of ranked peers and of the
//! favorite indicator. All color and position arithmetic is fixed point,
//! in milli-units (permille).

use vstd::prelude::*;

verus! {

use crate::utils::{
    div_toward_zero,
    linear_conversion_spec,
    num_linear_conversion,
};
use crate::light_mgr::{
    NUM_LIGHTS,
    MAX_DEVICES_SHOWN,
    FAVORITE_RESERVE_LIGHTS,
    SLOT_WIDTH,
    NUM_TRANSITIONAL_STEPS,
    OFF_STRIP_SLOT,
};
use vstd::arithmetic::div_mod::{
    lemma_div_is_ordered,
    lemma_div_multiples_vanish,
    lemma_div_pos_is_pos,
};

/// Brightness falloff per pixel of distance from a slot center, permille.
pub const FALL_OFF_PERMILLE: u32 = 500;

/// Screen blend of two permille channel values: the complement of the
/// product of the complements, truncating at permille resolution.
pub open spec fn screen_channel(a: int, b: int) -> int {
    1000 - (1000 - a) * (1000 - b) / 1000
}

/// Screen blending keeps channels in range and leaves a channel unchanged
/// when the contribution is zero.
pub proof fn lemma_screen_channel_range(a: int, b: int)
    requires
        0 <= a <= 1000,
        0 <= b <= 1000,
    ensures
        0 <= screen_channel(a, b) <= 1000,
        b == 0 ==> screen_channel(a, b) == a,
        screen_channel(a, b) >= a,
{
    let x = 1000 - a;
    let y = 1000 - b;
    assert(0 <= x * y <= 1000 * x) by (nonlinear_arith)
        requires
            0 <= x <= 1000,
            0 <= y <= 1000,
    ;
    lemma_div_pos_is_pos(x * y, 1000);
    lemma_div_is_ordered(x * y, 1000 * x, 1000);
    lemma_div_multiples_vanish(x, 1000);
    if b == 0 {
        assert(x * y == 1000 * x) by (nonlinear_arith)
            requires
                y == 1000,
        ;
    }
}

/// Exec screen blend on permille channels.
fn blend_channel(a: u32, b: u32) -> (r: u32)
    requires
        a <= 1000,
        b <= 1000,
    ensures
        r == screen_channel(a as int, b as int),
        r <= 1000,
{
    proof {
        lemma_screen_channel_range(a as int, b as int);
    }
    1000 - (1000 - a) * (1000 - b) / 1000
}

/// A hue at full saturation and brightness `v` (permille), as RGB permille
/// channels: within each 60-degree sector one channel is full, one rises
/// or falls linearly, and one is dark.
pub open spec fn hsv_rgb_spec(hue: int, v: int) -> (int, int, int) {
    let f = hue % 60;
    let t = v * f / 60;
    let q = v * (60 - f) / 60;
    if hue < 60 {
        (v, t, 0)
    } else if hue < 120 {
        (q, v, 0)
    } else if hue < 180 {
        (0, v, t)
    } else if hue < 240 {
        (0, q, v)
    } else if hue < 300 {
        (t, 0, v)
    } else {
        (v, 0, q)
    }
}

/// The rising and falling channels stay within the brightness.
proof fn lemma_hsv_channel_range(v: int, f: int)
    requires
        0 <= v <= 1000,
        0 <= f <= 60,
    ensures
        0 <= v * f / 60 <= v,
{
    assert(0 <= v * f <= v * 60) by (nonlinear_arith)
        requires
            0 <= v <= 1000,
            0 <= f <= 60,
    ;
    lemma_div_pos_is_pos(v * f, 60);
    lemma_div_is_ordered(v * f, v * 60, 60);
    lemma_div_multiples_vanish(v, 60);
}

/// Exec hue-to-RGB conversion at full saturation.
fn hsv_to_rgb(hue: u16, v: u32) -> (rgb: (u32, u32, u32))
    requires
        hue < 360,
        v <= 1000,
    ensures
        (rgb.0 as int, rgb.1 as int, rgb.2 as int) == hsv_rgb_spec(hue as int, v as int),
        rgb.0 <= 1000,
        rgb.1 <= 1000,
        rgb.2 <= 1000,
{
    let f = (hue % 60) as u32;
    proof {
        lemma_hsv_channel_range(v as int, f as int);
        lemma_hsv_channel_range(v as int, 60 - f as int);
    }
    let t = v * f / 60;
    let q = v * (60 - f) / 60;
    if hue < 60 {
        (v, t, 0)
    } else if hue < 120 {
        (q, v, 0)
    } else if hue < 180 {
        (0, v, t)
    } else if hue < 240 {
        (0, q, v)
    } else if hue < 300 {
        (t, 0, v)
    } else {
        (v, 0, q)
    }
}

/// Accumulator for one physical pixel: RGB permille channels, rebuilt from
/// black every tick; contributions combine by screen blending.
#[derive(Debug, Clone, Copy, PartialEq, Eq, Structural)]
pub struct AvgPixel {
    pub red: u32,
    pub green: u32,
    pub blue: u32,
}

impl AvgPixel {
    /// Channels are permille values.
    pub open spec fn wf(self) -> bool {
        self.red <= 1000 && self.green <= 1000 && self.blue <= 1000
    }

    /// A black pixel: the identity of the screen blend.
    pub open spec fn black_spec() -> AvgPixel {
        AvgPixel { red: 0, green: 0, blue: 0 }
    }

    pub fn black() -> (r: AvgPixel)
        ensures
            r == AvgPixel::black_spec(),
            r.wf(),
    {
        AvgPixel { red: 0, green: 0, blue: 0 }
    }

    /// Blend one hue contribution of brightness `v` into the pixel.
    pub fn add(&mut self, hue: u16, v: u32)
        requires
            old(self).wf(),
            hue < 360,
            v <= 1000,
        ensures
            *final(self) == blend_spec(*old(self), hue as int, v as int),
            final(self).wf(),
    {
        let (cr, cg, cb) = hsv_to_rgb(hue, v);
        self.red = blend_channel(self.red, cr);
        self.green = blend_channel(self.green, cg);
        self.blue = blend_channel(self.blue, cb);
    }
}

/// One hue contribution of brightness `v` screen-blended into a pixel.
pub open spec fn blend_spec(p: AvgPixel, hue: int, v: int) -> AvgPixel {
    let rgb = hsv_rgb_spec(hue, v);
    AvgPixel {
        red: screen_channel(p.red as int, rgb.0) as u32,
        green: screen_channel(p.green as int, rgb.1) as u32,
        blue: screen_channel(p.blue as int, rgb.2) as u32,
    }
}

/// A zero-brightness contribution leaves the pixel unchanged.
pub proof fn lemma_blend_zero(p: AvgPixel, hue: int)
    requires
        p.wf(),
    ensures
        blend_spec(p, hue, 0) == p,
{
    lemma_screen_channel_range(p.red as int, 0);
    lemma_screen_channel_range(p.green as int, 0);
    lemma_screen_channel_range(p.blue as int, 0);
}

/// The color-wheel channels of a hue stay in range.
pub proof fn lemma_hsv_rgb_range(hue: int, v: int)
    requires
        0 <= hue < 360,
        0 <= v <= 1000,
    ensures
        0 <= hsv_rgb_spec(hue, v).0 <= 1000,
        0 <= hsv_rgb_spec(hue, v).1 <= 1000,
        0 <= hsv_rgb_spec(hue, v).2 <= 1000,
{
    vstd::arithmetic::div_mod::lemma_mod_division_less_than_divisor(hue, 60);
    lemma_hsv_channel_range(v, hue % 60);
    lemma_hsv_channel_range(v, 60 - hue % 60);
}

/// Blending a contribution in range keeps the pixel well formed.
pub proof fn lemma_blend_wf(p: AvgPixel, hue: int, v: int)
    requires
        p.wf(),
        0 <= hue < 360,
        0 <= v <= 1000,
    ensures
        blend_spec(p, hue, v).wf(),
{
    lemma_hsv_rgb_range(hue, v);
    let rgb = hsv_rgb_spec(hue, v);
    lemma_screen_channel_range(p.red as int, rgb.0);
    lemma_screen_channel_range(p.green as int, rgb.1);
    lemma_screen_channel_range(p.blue as int, rgb.2);
}

/// One output pixel handed to the strip sink.
#[derive(Debug, Clone, Copy, PartialEq, Eq, Structural)]
pub struct Color {
    pub r: u8,
    pub g: u8,
    pub b: u8,
}

/// A permille channel scaled to the 8-bit output range, truncating.
pub open spec fn to_byte_spec(c: int) -> int {
    c * 255 / 1000
}

/// Reduce an accumulated pixel to its 8-bit output value.
pub fn reduce_pixel(p: &AvgPixel) -> (c: Color)
    requires
        p.wf(),
    ensures
        c.r == to_byte_spec(p.red as int),
        c.g == to_byte_spec(p.green as int),
        c.b == to_byte_spec(p.blue as int),
{
    proof {
        lemma_to_byte_range(p.red as int);
        lemma_to_byte_range(p.green as int);
        lemma_to_byte_range(p.blue as int);
    }
    Color {
        r: (p.red * 255 / 1000) as u8,
        g: (p.green * 255 / 1000) as u8,
        b: (p.blue * 255 / 1000) as u8,
    }
}

/// Blend one hue contribution into one pixel of the strip.
fn strip_add(strip: &mut Vec<AvgPixel>, idx: usize, hue: u16, v: u32)
    requires
        idx < old(strip)@.len(),
        old(strip)@[idx as int].wf(),
        hue < 360,
        v <= 1000,
    ensures
        final(strip)@ == old(strip)@.update(
            idx as int,
            blend_spec(old(strip)@[idx as int], hue as int, v as int),
        ),
        final(strip)@[idx as int].wf(),
{
    let mut px = strip[idx];
    px.add(hue, v);
    strip[idx] = px;
}

/// Absolute value.
pub open spec fn abs_of(k: int) -> int {
    if k < 0 {
        -k
    } else {
        k
    }
}

/// Brightness falloff factor at `k` pixels of distance from a slot
/// center: full at the center, then one falloff step per pixel.
pub open spec fn falloff_at(k: int) -> int {
    if k == 0 {
        1000
    } else if k == 1 {
        FALL_OFF_PERMILLE as int
    } else {
        FALL_OFF_PERMILLE as int * FALL_OFF_PERMILLE as int / 1000
    }
}

/// An anti-aliased contribution: the whole-pixel weight `w` (permille),
/// scaled by the brightness and the falloff factor (both permille).
pub open spec fn aa_weight(w: int, b: int, fac: int) -> int {
    w * b * fac / 1000000
}

/// A fully aliased contribution (fraction zero) has no spill weight.
pub proof fn lemma_aa_weight_zero(b: int, fac: int)
    ensures
        aa_weight(0, b, fac) == 0,
{
    assert(0int * b * fac == 0) by (nonlinear_arith);
    vstd::arithmetic::div_mod::lemma_div_of0(1000000);
}

/// Exec anti-aliasing weight.
fn aa_weight_exec(w: u32, b: u32, fac: u32) -> (r: u32)
    requires
        w <= 1000,
        b <= 1000,
        fac <= 1000,
    ensures
        r == aa_weight(w as int, b as int, fac as int),
        r <= 1000,
{
    proof {
        assert(0 <= w as int * b as int <= 1_000_000) by (nonlinear_arith)
            requires
                0 <= w as int <= 1000,
                0 <= b as int <= 1000,
        ;
        assert(0 <= w as int * b as int * fac as int <= 1_000_000_000) by (nonlinear_arith)
            requires
                0 <= w as int * b as int <= 1_000_000,
                0 <= fac as int <= 1000,
        ;
        lemma_div_pos_is_pos(w as int * b as int * fac as int, 1000000);
        lemma_div_is_ordered(w as int * b as int * fac as int, 1_000_000_000int, 1000000);
        lemma_div_multiples_vanish(1000, 1000000);
        assert(1000000int * 1000 == 1_000_000_000);
    }
    let p: u64 = w as u64 * b as u64 * fac as u64;
    (p / 1000000) as u32
}

/// The ordered pair of contributions one ranked peer makes to the pixel
/// `floor(pos) + j`: its own floor-part for offset `j` and the ceil-part
/// spilling over from offset `j - 1`. Below and at the center pixel the
/// floor-part lands first; above it the spilled ceil-part lands first.
pub open spec fn contribs_at(j: int, frac: int, b: int) -> (int, int) {
    let own = if -2 <= j <= 2 {
        aa_weight(1000 - frac, b, falloff_at(abs_of(j)))
    } else {
        0
    };
    let spill = if -2 <= j - 1 <= 2 {
        aa_weight(frac, b, falloff_at(abs_of(j - 1)))
    } else {
        0
    };
    if j <= 0 {
        (own, spill)
    } else {
        (spill, own)
    }
}

/// The whole strip after one ranked peer at continuous position `pos`
/// (milli-pixels) renders itself with hue `hue` and brightness `b`.
pub open spec fn device_render_spec(
    strip: Seq<AvgPixel>,
    pos: int,
    hue: int,
    b: int,
) -> Seq<AvgPixel> {
    Seq::new(
        strip.len(),
        |p: int|
            {
                let c = contribs_at(p - pos / 1000, pos % 1000, b);
                blend_spec(blend_spec(strip[p], hue, c.0), hue, c.1)
            },
    )
}

/// Display state of one ranked peer: its allocated hue and its animated
/// slot transition.
#[derive(Debug, Clone, Copy)]
pub struct DeviceLightState {
    pub address: u64,
    pub rssi: i32,
    pub color: u16,
    pub current_rank_slot: usize,
    pub target_rank_slot: usize,
    pub steps_remaining: u64,
}

/// The continuous strip position of a transitioning peer, in milli-pixels:
/// the slot coordinate blends current and target slot by the fraction of
/// transition steps remaining, then maps linearly onto the center pixels
/// of the first and last ranked slots (the slot width is odd, so each
/// slot has a whole center pixel).
pub open spec fn target_pixel_spec(cur: int, target: int, steps: int) -> int {
    let progress = div_toward_zero(
        steps * (cur - target) * 1000,
        NUM_TRANSITIONAL_STEPS as int,
    ) + target * 1000;
    linear_conversion_spec(
        progress,
        0,
        (MAX_DEVICES_SHOWN - 1) * 1000,
        (FAVORITE_RESERVE_LIGHTS + SLOT_WIDTH / 2) * 1000,
        (NUM_LIGHTS - SLOT_WIDTH / 2 - 1) * 1000,
    )
}

impl DeviceLightState {
    /// Slots stay in the ranked range or at the off-strip sentinel, the
    /// hue is a color-wheel angle, and a transition never holds more than
    /// the full step count.
    pub open spec fn wf(self) -> bool {
        &&& self.color < 360
        &&& self.current_rank_slot <= OFF_STRIP_SLOT
        &&& self.target_rank_slot <= OFF_STRIP_SLOT
        &&& self.steps_remaining <= NUM_TRANSITIONAL_STEPS
    }

    /// The continuous pixel position of this peer, in milli-pixels.
    pub fn get_target_pixel(&self) -> (r: i64)
        requires
            self.wf(),
        ensures
            r == target_pixel_spec(
                self.current_rank_slot as int,
                self.target_rank_slot as int,
                self.steps_remaining as int,
            ),
            (FAVORITE_RESERVE_LIGHTS + SLOT_WIDTH / 2) * 1000 <= r <= (NUM_LIGHTS
                - SLOT_WIDTH / 2 - 1) * 1000,
    {
        let steps = self.steps_remaining as i64;
        let cur = self.current_rank_slot as i64;
        let tgt = self.target_rank_slot as i64;
        proof {
            assert(-1100 <= steps as int * ((cur - tgt) as int) <= 1100) by (nonlinear_arith)
                requires
                    0 <= steps as int <= 100,
                    -11 <= (cur - tgt) as int <= 11,
            ;
        }
        let num = steps * (cur - tgt) * 1000;
        let q = num.checked_div(NUM_TRANSITIONAL_STEPS as i64).unwrap();
        let progress = q + tgt * 1000;
        num_linear_conversion(
            progress,
            0,
            (MAX_DEVICES_SHOWN as i64 - 1) * 1000,
            ((FAVORITE_RESERVE_LIGHTS + SLOT_WIDTH / 2) * 1000) as i64,
            ((NUM_LIGHTS - SLOT_WIDTH / 2 - 1) * 1000) as i64,
        )
    }
}

/// Render this peer into the strip and advance its transition one step:
/// its continuous position lights the two nearest pixels in proportion to
/// closeness, plus two fading side pixels on either flank; then the step
/// count falls by one and, at zero, the current slot snaps to the target.
impl DeviceLightState {
    #[verifier::rlimit(100)]
    pub fn tick(&mut self, brightness: u32, strip: &mut Vec<AvgPixel>)
        requires
            old(self).wf(),
            brightness <= 1000,
            old(strip)@.len() == NUM_LIGHTS,
            forall|p: int| 0 <= p < old(strip)@.len() ==> (#[trigger] old(strip)@[p]).wf(),
        ensures
            final(strip)@.len() == NUM_LIGHTS,
            forall|p: int|
                0 <= p < final(strip)@.len() ==> (#[trigger] final(strip)@[p]).wf(),
            final(strip)@ == device_render_spec(
                old(strip)@,
                target_pixel_spec(
                    old(self).current_rank_slot as int,
                    old(self).target_rank_slot as int,
                    old(self).steps_remaining as int,
                ),
                old(self).color as int,
                brightness as int,
            ),
            final(self).address == old(self).address,
            final(self).rssi == old(self).rssi,
            final(self).color == old(self).color,
            final(self).target_rank_slot == old(self).target_rank_slot,
            final(self).steps_remaining == if old(self).steps_remaining > 0 {
                (old(self).steps_remaining - 1) as u64
            } else {
                0u64
            },
            final(self).current_rank_slot == if old(self).steps_remaining <= 1 {
                old(self).target_rank_slot
            } else {
                old(self).current_rank_slot
            },
            final(self).wf(),
    {
        let ghost s0 = strip@;
        let pos = self.get_target_pixel();
        let pos_u = pos as u64;
        let fl = (pos_u / 1000) as usize;
        let frac = (pos_u % 1000) as u32;
        proof {
            assert(pos_u as int == pos as int);
            assert(fl as int == pos as int / 1000);
            assert(frac as int == pos as int % 1000);
            assert(12 <= fl < 58);
            assert(frac < 1000);
        }
        let hue = self.color;
        let fall1 = FALL_OFF_PERMILLE;
        let fall2 = FALL_OFF_PERMILLE * FALL_OFF_PERMILLE / 1000;
        let w_own0 = aa_weight_exec(1000 - frac, brightness, 1000);
        let w_own1 = aa_weight_exec(1000 - frac, brightness, fall1);
        let w_own2 = aa_weight_exec(1000 - frac, brightness, fall2);
        let w_sp0 = aa_weight_exec(frac, brightness, 1000);
        let w_sp1 = aa_weight_exec(frac, brightness, fall1);
        let w_sp2 = aa_weight_exec(frac, brightness, fall2);
        // center pair
        strip_add(strip, fl, hue, w_own0);
        strip_add(strip, if frac > 0 { fl + 1 } else { fl }, hue, w_sp0);
        // first flank
        strip_add(strip, fl - 1, hue, w_own1);
        strip_add(strip, if frac > 0 { fl } else { fl - 1 }, hue, w_sp1);
        strip_add(strip, fl + 1, hue, w_own1);
        strip_add(strip, if frac > 0 { fl + 2 } else { fl + 1 }, hue, w_sp1);
        // second flank
        strip_add(strip, fl - 2, hue, w_own2);
        strip_add(strip, if frac > 0 { fl - 1 } else { fl - 2 }, hue, w_sp2);
        strip_add(strip, fl + 2, hue, w_own2);
        let spill_far = if frac > 0 { fl + 3 } else { fl + 2 };
        if spill_far < NUM_LIGHTS {
            strip_add(strip, spill_far, hue, w_sp2);
        }
        proof {
            let b = brightness as int;
            let h = hue as int;
            let fr = frac as int;
            let fi = fl as int;
            let rendered = device_render_spec(s0, pos as int, h, b);
            vstd::arithmetic::div_mod::lemma_div_of0(1000000);
            if frac == 0 {
                lemma_aa_weight_zero(b, 1000);
                lemma_aa_weight_zero(b, 500);
                lemma_aa_weight_zero(b, 250);
                assert forall|p: int| 0 <= p < strip@.len() implies strip@[p] == rendered[p]
                    && (#[trigger] strip@[p]).wf() by {
                    assert(rendered[p] == {
                        let c = contribs_at(p - fi, fr, b);
                        blend_spec(blend_spec(s0[p], h, c.0), h, c.1)
                    });
                    assert(s0[p].wf());
                    if p < fi - 2 || p > fi + 2 {
                        assert(contribs_at(p - fi, fr, b) == (0int, 0int));
                        assert(strip@[p] == s0[p]);
                        lemma_blend_zero(s0[p], h);
                        lemma_blend_zero(blend_spec(s0[p], h, 0), h);
                    } else if p == fi - 2 || p == fi + 2 {
                        lemma_blend_wf(s0[p], h, w_own2 as int);
                        lemma_blend_wf(blend_spec(s0[p], h, w_own2 as int), h, w_sp2 as int);
                        assert(strip@[p] == blend_spec(
                            blend_spec(s0[p], h, w_own2 as int),
                            h,
                            w_sp2 as int,
                        ));
                        if p == fi + 2 {
                            lemma_blend_zero(s0[p], h);
                            lemma_blend_zero(blend_spec(s0[p], h, w_own2 as int), h);
                        }
                    } else if p == fi - 1 || p == fi + 1 {
                        lemma_blend_wf(s0[p], h, w_own1 as int);
                        lemma_blend_wf(blend_spec(s0[p], h, w_own1 as int), h, w_sp1 as int);
                        assert(strip@[p] == blend_spec(
                            blend_spec(s0[p], h, w_own1 as int),
                            h,
                            w_sp1 as int,
                        ));
                        if p == fi + 1 {
                            lemma_blend_zero(s0[p], h);
                            lemma_blend_zero(blend_spec(s0[p], h, w_own1 as int), h);
                        }
                    } else {
                        assert(p == fi);
                        lemma_blend_wf(s0[p], h, w_own0 as int);
                        lemma_blend_wf(blend_spec(s0[p], h, w_own0 as int), h, w_sp0 as int);
                        assert(strip@[p] == blend_spec(
                            blend_spec(s0[p], h, w_own0 as int),
                            h,
                            w_sp0 as int,
                        ));
                    }
                    assert(strip@[p] == rendered[p]);
                    assert(strip@[p].wf());
                }
            } else {
                assert forall|p: int| 0 <= p < strip@.len() implies strip@[p] == rendered[p]
                    && (#[trigger] strip@[p]).wf() by {
                    assert(rendered[p] == {
                        let c = contribs_at(p - fi, fr, b);
                        blend_spec(blend_spec(s0[p], h, c.0), h, c.1)
                    });
                    assert(s0[p].wf());
                    if p < fi - 2 || p > fi + 3 {
                        assert(contribs_at(p - fi, fr, b) == (0int, 0int));
                        assert(strip@[p] == s0[p]);
                        lemma_blend_zero(s0[p], h);
                        lemma_blend_zero(blend_spec(s0[p], h, 0), h);
                    } else if p == fi - 2 {
                        assert(strip@[p] == blend_spec(s0[p], h, w_own2 as int));
                        lemma_blend_wf(s0[p], h, w_own2 as int);
                        lemma_blend_zero(blend_spec(s0[p], h, w_own2 as int), h);
                    } else if p == fi - 1 {
                        lemma_blend_wf(s0[p], h, w_own1 as int);
                        lemma_blend_wf(blend_spec(s0[p], h, w_own1 as int), h, w_sp2 as int);
                        assert(strip@[p] == blend_spec(
                            blend_spec(s0[p], h, w_own1 as int),
                            h,
                            w_sp2 as int,
                        ));
                    } else if p == fi {
                        lemma_blend_wf(s0[p], h, w_own0 as int);
                        lemma_blend_wf(blend_spec(s0[p], h, w_own0 as int), h, w_sp1 as int);
                        assert(strip@[p] == blend_spec(
                            blend_spec(s0[p], h, w_own0 as int),
                            h,
                            w_sp1 as int,
                        ));
                    } else if p == fi + 1 {
                        lemma_blend_wf(s0[p], h, w_sp0 as int);
                        lemma_blend_wf(blend_spec(s0[p], h, w_sp0 as int), h, w_own1 as int);
                        assert(strip@[p] == blend_spec(
                            blend_spec(s0[p], h, w_sp0 as int),
                            h,
                            w_own1 as int,
                        ));
                    } else if p == fi + 2 {
                        lemma_blend_wf(s0[p], h, w_sp1 as int);
                        lemma_blend_wf(blend_spec(s0[p], h, w_sp1 as int), h, w_own2 as int);
                        assert(strip@[p] == blend_spec(
                            blend_spec(s0[p], h, w_sp1 as int),
                            h,
                            w_own2 as int,
                        ));
                    } else {
                        assert(p == fi + 3);
                        assert(strip@[p] == blend_spec(s0[p], h, w_sp2 as int));
                        lemma_blend_wf(s0[p], h, w_sp2 as int);
                        lemma_blend_zero(blend_spec(s0[p], h, w_sp2 as int), h);
                    }
                    assert(strip@[p] == rendered[p]);
                    assert(strip@[p].wf());
                }
            }
            assert(strip@ =~= rendered);
        }
        if self.steps_remaining > 0 {
            self.steps_remaining = self.steps_remaining - 1;
        }
        if self.steps_remaining == 0 {
            self.current_rank_slot = self.target_rank_slot;
        }
    }
}

/// A peer that has settled in a ranked slot sits at that slot's center
/// pixel, and lower ranks sit strictly nearer the favorite-reserved zone:
/// the strongest peer (rank 0) is closest to it.
pub proof fn lemma_settled_slot_pixel(slot: int)
    requires
        0 <= slot < MAX_DEVICES_SHOWN,
    ensures
        target_pixel_spec(slot, slot, 0) == (FAVORITE_RESERVE_LIGHTS + SLOT_WIDTH / 2)
            * 1000 + slot * (SLOT_WIDTH * 1000),
        slot > 0 ==> target_pixel_spec(slot - 1, slot - 1, 0) < target_pixel_spec(
            slot,
            slot,
            0,
        ),
{
    lemma_settled_slot_pixel_value(slot);
    if slot > 0 {
        lemma_settled_slot_pixel_value(slot - 1);
        assert((slot - 1) * (SLOT_WIDTH * 1000) < slot * (SLOT_WIDTH * 1000))
            by (nonlinear_arith)
            requires
                SLOT_WIDTH == 5,
        ;
    }
}

/// The center pixel of a settled slot, computed.
proof fn lemma_settled_slot_pixel_value(slot: int)
    requires
        0 <= slot < MAX_DEVICES_SHOWN,
    ensures
        target_pixel_spec(slot, slot, 0) == (FAVORITE_RESERVE_LIGHTS + SLOT_WIDTH / 2)
            * 1000 + slot * (SLOT_WIDTH * 1000),
{
    let progress = div_toward_zero(0 * (slot - slot) * 1000, NUM_TRANSITIONAL_STEPS as int)
        + slot * 1000;
    vstd::arithmetic::div_mod::lemma_div_of0(NUM_TRANSITIONAL_STEPS as int);
    assert(progress == slot * 1000);
    assert(0 <= slot * 1000 <= 9000) by (nonlinear_arith)
        requires
            0 <= slot <= 9,
    ;
    assert((slot * 1000) * 45000 == (slot * 45000) * 1000) by (nonlinear_arith);
    assert((slot * 45000) * 1000 / 9000 == slot * 5000) by (nonlinear_arith)
        requires
            0 <= slot <= 9,
    ;
}

/// Display state of the favorite peer: its latest filtered signal and its
/// advertised color.
#[derive(Debug, Clone, Copy)]
pub struct FavoriteLightState {
    pub rssi: i32,
    pub color: u16,
}

/// Width, in pixels beyond the center, of the favorite's signal bar: the
/// filtered signal maps through a calibrated range (tight low bound, loose
/// high bound) onto the reserved zone, rounding to the nearest pixel.
pub open spec fn favorite_width_spec(rssi: int) -> int {
    ((FAVORITE_RESERVE_LIGHTS - 1) * linear_conversion_spec(rssi, -70, -55, 0, 1000)
        + 500) / 1000
}

/// The bar pixels after `k` side steps: the middle of the reserved zone,
/// then pixels alternating outward, the low side first.
pub open spec fn favorite_steps_lit(p: int, k: int) -> bool {
    let mid = FAVORITE_RESERVE_LIGHTS as int / 2;
    ||| p == mid
    ||| (p < mid && k >= 2 * (mid - p) - 1)
    ||| (p > mid && k >= 2 * (p - mid))
}

/// Whether pixel `p` is part of a favorite bar of width `w`.
pub open spec fn favorite_lit(p: int, w: int) -> bool {
    w >= 1 && favorite_steps_lit(p, w)
}

/// The strip after the favorite bar renders with hue `hue` and brightness
/// `b`.
pub open spec fn favorite_render_spec(
    strip: Seq<AvgPixel>,
    rssi: int,
    hue: int,
    b: int,
) -> Seq<AvgPixel> {
    Seq::new(
        strip.len(),
        |p: int|
            if favorite_lit(p, favorite_width_spec(rssi)) {
                blend_spec(strip[p], hue, b)
            } else {
                strip[p]
            },
    )
}

impl FavoriteLightState {
    /// Render the favorite's signal bar into the reserved zone: a bar of
    /// signal-proportional width, centered in the zone, growing by one
    /// pixel per step alternately below and above the center.
    pub fn tick(&self, brightness: u32, strip: &mut Vec<AvgPixel>)
        requires
            self.color < 360,
            brightness <= 1000,
            old(strip)@.len() == NUM_LIGHTS,
            forall|p: int| 0 <= p < old(strip)@.len() ==> (#[trigger] old(strip)@[p]).wf(),
        ensures
            final(strip)@.len() == NUM_LIGHTS,
            forall|p: int|
                0 <= p < final(strip)@.len() ==> (#[trigger] final(strip)@[p]).wf(),
            final(strip)@ == favorite_render_spec(
                old(strip)@,
                self.rssi as int,
                self.color as int,
                brightness as int,
            ),
    {
        let ghost s0 = strip@;
        let ghost h = self.color as int;
        let ghost b = brightness as int;
        let strength = num_linear_conversion(self.rssi as i64, -70, -55, 0, 1000);
        proof {
            assert(0 <= strength <= 1000);
        }
        let span = (FAVORITE_RESERVE_LIGHTS - 1) as u64;
        let s_u = strength as u64;
        proof {
            assert(span == 9);
            assert(s_u <= 1000);
        }
        let width = (span * s_u + 500) / 1000;
        proof {
            assert(width as int == favorite_width_spec(self.rssi as int));
            assert(width <= 9);
        }
        let mid = FAVORITE_RESERVE_LIGHTS / 2;
        if width == 0 {
            proof {
                assert(strip@ =~= favorite_render_spec(s0, self.rssi as int, h, b));
            }
            return;
        }
        strip_add(strip, mid, self.color, brightness);
        proof {
            lemma_blend_wf(s0[mid as int], h, b);
            assert(strip@ =~= Seq::new(
                s0.len(),
                |p: int|
                    if favorite_steps_lit(p, 0) {
                        blend_spec(s0[p], h, b)
                    } else {
                        s0[p]
                    },
            ));
        }
        let mut last_low_idx = mid;
        let mut last_high_idx = mid;
        let mut k: u64 = 0;
        while k < width
            invariant
                0 <= k <= width,
                width <= 9,
                self.color < 360,
                brightness <= 1000,
                h == self.color as int,
                b == brightness as int,
                s0.len() == NUM_LIGHTS,
                strip@.len() == NUM_LIGHTS,
                forall|p: int| 0 <= p < s0.len() ==> (#[trigger] s0[p]).wf(),
                mid == FAVORITE_RESERVE_LIGHTS / 2,
                last_low_idx as int == mid as int - ((k as int + 1) / 2),
                last_high_idx as int == mid as int + (k as int / 2),
                strip@ == Seq::new(
                    s0.len(),
                    |p: int|
                        if favorite_steps_lit(p, k as int) {
                            blend_spec(s0[p], h, b)
                        } else {
                            s0[p]
                        },
                ),
            decreases width - k,
        {
            let ghost prev = strip@;
            let idx: usize;
            if k % 2 == 0 {
                last_low_idx = last_low_idx - 1;
                idx = last_low_idx;
            } else {
                last_high_idx = last_high_idx + 1;
                idx = last_high_idx;
            }
            proof {
                assert(!favorite_steps_lit(idx as int, k as int));
                assert(prev[idx as int] == s0[idx as int]);
            }
            strip_add(strip, idx, self.color, brightness);
            proof {
                lemma_blend_wf(s0[idx as int], h, b);
                assert forall|p: int| 0 <= p < strip@.len() implies strip@[p] == (if
                    favorite_steps_lit(p, k as int + 1) {
                    blend_spec(s0[p], h, b)
                } else {
                    s0[p]
                }) by {
                    if p != idx as int {
                        assert(favorite_steps_lit(p, k as int + 1) == favorite_steps_lit(
                            p,
                            k as int,
                        ));
                    }
                }
                assert(strip@ =~= Seq::new(
                    s0.len(),
                    |p: int|
                        if favorite_steps_lit(p, k as int + 1) {
                            blend_spec(s0[p], h, b)
                        } else {
                            s0[p]
                        },
                ));
            }
            k = k + 1;
        }
        proof {
            assert forall|p: int| 0 <= p < strip@.len() implies (#[trigger] strip@[p]).wf()
                by {
                if favorite_steps_lit(p, width as int) {
                    lemma_blend_wf(s0[p], h, b);
                }
            }
            assert(strip@ =~= favorite_render_spec(s0, self.rssi as int, h, b));
        }
    }
}

/// Scaling a permille channel lands in the 8-bit range.
proof fn lemma_to_byte_range(c: int)
    requires
        0 <= c <= 1000,
    ensures
        0 <= to_byte_spec(c) <= 255,
{
    assert(0 <= c * 255 <= 1000 * 255) by (nonlinear_arith)
        requires
            0 <= c <= 1000,
    ;
    lemma_div_pos_is_pos(c * 255, 1000);
    lemma_div_is_ordered(c * 255, 255000int, 1000);
    lemma_div_multiples_vanish(255, 1000);
}

} // verus!
