//! The light manager: ranks the tracked peers each tick, assigns and
//! animates strip slots, manages per-peer color lifetime, and composites
//! every active visual contribution into one output pixel buffer.

use vstd::prelude::*;

verus! {

use crate::ble_device_mgr::SnapshotEntry;
use crate::color_alloc::{
    ColorAllocator,
    COLOR_POOL_SIZE,
    alloc_run_for,
    lemma_alloc_run_push,
    release_fold,
};
use crate::light_state::{
    AvgPixel,
    Color,
    DeviceLightState,
    FavoriteLightState,
    blend_spec,
    device_render_spec,
    favorite_render_spec,
    reduce_pixel,
    target_pixel_spec,
    to_byte_spec,
};
use crate::messages::DisplaySortMode;

/// Number of pixels on the physical strip.
pub const NUM_LIGHTS: usize = 60;

/// Maximum number of ranked peers displayed at once.
pub const MAX_DEVICES_SHOWN: usize = 10;

/// Pixels reserved for the favorite device at the low end of the strip.
pub const FAVORITE_RESERVE_LIGHTS: usize = 10;

/// Pixels shown per ranked peer; odd, so each slot has a center pixel.
pub const SLOT_WIDTH: usize = (NUM_LIGHTS - FAVORITE_RESERVE_LIGHTS) / MAX_DEVICES_SHOWN;

/// Each slot spans an odd number of pixels around its center.
pub proof fn slot_width_is_odd()
    ensures
        SLOT_WIDTH % 2 == 1,
{
}

/// Seconds one slot transition takes.
pub const TRANSITION_SECONDS: u64 = 3;

/// Render ticks per second.
pub const STEPS_PER_SECOND: u64 = 30;

/// Render ticks one slot transition takes.
pub const NUM_TRANSITIONAL_STEPS: u64 = TRANSITION_SECONDS * STEPS_PER_SECOND;

/// The slot value that stands for "not on the strip": peers animate from
/// and to it when they enter or leave the ranking.
pub const OFF_STRIP_SLOT: usize = MAX_DEVICES_SHOWN + 1;

/// Number of brightness levels offered to the wearer.
pub const BRIGHTNESS_LEVELS: u8 = 10;

/// Brightness level selected at startup.
pub const DEFAULT_BRIGHTNESS: u8 = 3;

/// The output brightness of a level, in permille: the top level is full
/// brightness, and each level below keeps 714 permille of the one above.
pub open spec fn brightness_permille(level: int) -> int
    decreases BRIGHTNESS_LEVELS as int - level,
{
    if level >= BRIGHTNESS_LEVELS as int {
        1000
    } else {
        brightness_permille(level + 1) * 714 / 1000
    }
}

/// Every level's brightness is a permille value.
pub proof fn lemma_brightness_range(level: int)
    ensures
        0 <= brightness_permille(level) <= 1000,
    decreases BRIGHTNESS_LEVELS as int - level,
{
    if level < BRIGHTNESS_LEVELS as int {
        lemma_brightness_range(level + 1);
        let up = brightness_permille(level + 1);
        assert(0 <= up * 714 <= 1000 * 714) by (nonlinear_arith)
            requires
                0 <= up <= 1000,
        ;
        vstd::arithmetic::div_mod::lemma_div_pos_is_pos(up * 714, 1000);
        vstd::arithmetic::div_mod::lemma_div_is_ordered(up * 714, 714000int, 1000);
        vstd::arithmetic::div_mod::lemma_div_multiples_vanish(714, 1000);
    }
}

/// Compute the permille brightness of a level.
fn get_brightness(level: u8) -> (r: u32)
    requires
        level <= BRIGHTNESS_LEVELS,
    ensures
        r == brightness_permille(level as int),
        r <= 1000,
{
    let mut l: u8 = BRIGHTNESS_LEVELS;
    let mut b: u32 = 1000;
    while l > level
        invariant
            level <= l <= BRIGHTNESS_LEVELS,
            b == brightness_permille(l as int),
            b <= 1000,
        decreases l,
    {
        proof {
            lemma_brightness_range(l as int - 1);
        }
        b = b * 714 / 1000;
        l = l - 1;
    }
    b
}

/// A ranking entry: filtered signal and address, sorted by signal.
pub open spec fn sorted_by_rssi(s: Seq<(i32, u64)>) -> bool {
    forall|i: int, j: int| 0 <= i < j < s.len() ==> (#[trigger] s[i]).0 <= (#[trigger] s[j]).0
}

/// Sort ranking entries by filtered signal, ascending: the strongest peer
/// ends up last.
fn sort_rankings(v: &mut Vec<(i32, u64)>)
    requires
        rankings_unique(old(v)@),
    ensures
        sorted_by_rssi(final(v)@),
        final(v)@.to_multiset() == old(v)@.to_multiset(),
        rankings_unique(final(v)@),
{
    broadcast use vstd::seq_lib::group_to_multiset_ensures;

    let mut out: Vec<(i32, u64)> = Vec::new();
    let ghost whole = v@;
    proof {
        assert(out@.to_multiset().add(v@.to_multiset()) =~= whole.to_multiset());
    }
    while v.len() > 0
        invariant
            out@.to_multiset().add(v@.to_multiset()) == whole.to_multiset(),
            sorted_by_rssi(out@),
            forall|i: int, j: int|
                0 <= i < out@.len() && 0 <= j < v@.len() ==> (#[trigger] out@[i]).0
                    <= (#[trigger] v@[j]).0,
            rankings_unique(out@),
            rankings_unique(v@),
            forall|i: int, j: int|
                0 <= i < out@.len() && 0 <= j < v@.len() ==> (#[trigger] out@[i]).1 != (
                #[trigger] v@[j]).1,
        decreases v.len(),
    {
        let mut mi: usize = 0;
        let mut j: usize = 1;
        while j < v.len()
            invariant
                0 <= mi < j <= v@.len(),
                forall|k: int| 0 <= k < j ==> (#[trigger] v@[k]).0 >= v@[mi as int].0,
            decreases v.len() - j,
        {
            if v[j].0 < v[mi].0 {
                mi = j;
            }
            j = j + 1;
        }
        let ghost before = v@;
        let ghost out_before = out@;
        let e = v.remove(mi);
        out.push(e);
        proof {
            before.to_multiset_ensures();
            out_before.to_multiset_ensures();
            assert(e == before[mi as int]);
            assert(v@ == before.remove(mi as int));
            assert(out@ == out_before.push(e));
            assert(v@.to_multiset() =~= before.to_multiset().remove(e));
            assert(out@.to_multiset() =~= out_before.to_multiset().insert(e));
            assert(out@.to_multiset().add(v@.to_multiset()) =~= whole.to_multiset());
            assert forall|i: int, j2: int|
                0 <= i < out@.len() && 0 <= j2 < v@.len() implies (#[trigger] out@[i]).0
                <= (#[trigger] v@[j2]).0 by {
                assert(v@[j2] == before.remove(mi as int)[j2]);
                if j2 < mi {
                    assert(v@[j2] == before[j2]);
                } else {
                    assert(v@[j2] == before[j2 + 1]);
                }
                if i < out_before.len() {
                    assert(out@[i] == out_before[i]);
                } else {
                    assert(out@[i] == e);
                }
            }
            assert forall|i: int, j2: int|
                0 <= i < out@.len() && 0 <= j2 < v@.len() implies (#[trigger] out@[i]).1
                != (#[trigger] v@[j2]).1 by {
                if j2 < mi {
                    assert(v@[j2] == before[j2]);
                } else {
                    assert(v@[j2] == before[j2 + 1]);
                }
                if i < out_before.len() {
                    assert(out@[i] == out_before[i]);
                } else {
                    assert(out@[i] == e);
                    assert(e == before[mi as int]);
                }
            }
            assert forall|i: int, j2: int|
                0 <= i < j2 < v@.len() implies (#[trigger] v@[i]).1 != (#[trigger] v@[j2]).1
                by {
                if i < mi {
                    assert(v@[i] == before[i]);
                } else {
                    assert(v@[i] == before[i + 1]);
                }
                if j2 < mi {
                    assert(v@[j2] == before[j2]);
                } else {
                    assert(v@[j2] == before[j2 + 1]);
                }
            }
            assert forall|i: int, j2: int|
                0 <= i < j2 < out@.len() implies (#[trigger] out@[i]).1 != (
                #[trigger] out@[j2]).1 by {
                assert(out@[i] == out_before[i]);
                if j2 < out_before.len() {
                    assert(out@[j2] == out_before[j2]);
                } else {
                    assert(out@[j2] == e);
                    assert(e == before[mi as int]);
                }
            }
        }
    }
    *v = out;
}

/// One step of the favorite-tracking scan over a snapshot: a favorite
/// entry refreshes the signal of the existing indicator state, or creates
/// one with the peer's advertised color (hue zero if it has none).
pub open spec fn favorite_step(
    prev: Option<FavoriteLightState>,
    e: SnapshotEntry,
) -> Option<FavoriteLightState> {
    if e.is_favorite {
        match prev {
            Some(f) => Some(FavoriteLightState { rssi: e.rssi, color: f.color }),
            None => Some(
                FavoriteLightState {
                    rssi: e.rssi,
                    color: match e.favorite_color {
                        Some(c) => c,
                        None => 0,
                    },
                },
            ),
        }
    } else {
        prev
    }
}

/// The favorite indicator after scanning a whole snapshot.
pub open spec fn favorite_fold(
    prev: Option<FavoriteLightState>,
    snap: Seq<SnapshotEntry>,
) -> Option<FavoriteLightState>
    decreases snap.len(),
{
    if snap.len() == 0 {
        prev
    } else {
        favorite_fold(favorite_step(prev, snap[0]), snap.skip(1))
    }
}

/// Whether a snapshot holds a favorite peer.
pub open spec fn has_favorite(snap: Seq<SnapshotEntry>) -> bool {
    exists|i: int| 0 <= i < snap.len() && (#[trigger] snap[i]).is_favorite
}

/// The favorite indicator a tick leaves behind: refreshed or created from
/// the snapshot's favorite entries, or cleared when none is present.
pub open spec fn favorite_outcome(
    prev: Option<FavoriteLightState>,
    snap: Seq<SnapshotEntry>,
) -> Option<FavoriteLightState> {
    if has_favorite(snap) {
        favorite_fold(prev, snap)
    } else {
        None
    }
}

/// A snapshot entry the ranking pipeline can accept: an advertised
/// favorite color is a color-wheel angle.
pub open spec fn snap_entry_wf(e: SnapshotEntry) -> bool {
    match e.favorite_color {
        Some(c) => c < 360,
        None => true,
    }
}

/// The non-favorite entries of a snapshot as ranking pairs.
pub open spec fn build_rankings_spec(snap: Seq<SnapshotEntry>) -> Seq<(i32, u64)> {
    snap.filter(|e: SnapshotEntry| !e.is_favorite).map_values(
        |e: SnapshotEntry| (e.rssi, e.address),
    )
}

/// Whether `addr` appears among the ranking entries.
pub open spec fn ranked(rankings: Seq<(i32, u64)>, addr: u64) -> bool {
    exists|i: int| 0 <= i < rankings.len() && (#[trigger] rankings[i]).1 == addr
}

/// The position of `addr` in rankings that hold it (at most once).
pub open spec fn rank_index_of(rankings: Seq<(i32, u64)>, addr: u64) -> int {
    choose|i: int| 0 <= i < rankings.len() && (#[trigger] rankings[i]).1 == addr
}

/// No address appears twice among the ranking entries.
pub open spec fn rankings_unique(r: Seq<(i32, u64)>) -> bool {
    forall|i: int, j: int| 0 <= i < j < r.len() ==> (#[trigger] r[i]).1 != (#[trigger] r[j]).1
}

/// A displayed peer forced to animate out: its target becomes the
/// off-strip sentinel with a full transition, unless it is already headed
/// there.
pub open spec fn exit_marked(d: DeviceLightState) -> DeviceLightState {
    if d.target_rank_slot != OFF_STRIP_SLOT {
        DeviceLightState {
            target_rank_slot: OFF_STRIP_SLOT,
            steps_remaining: NUM_TRANSITIONAL_STEPS,
            ..d
        }
    } else {
        d
    }
}

/// A displayed peer after one ranking pass over the ascending-sorted
/// rankings: rank 0 is the strongest (last) entry. A peer in the top
/// ranks takes its new rank as target, restarting the countdown when a
/// finished transition must move again; a peer out of the top ranks, or
/// out of the rankings entirely, is marked to animate out.
pub open spec fn reranked(d: DeviceLightState, rankings: Seq<(i32, u64)>) -> DeviceLightState {
    if ranked(rankings, d.address) {
        let idx = rank_index_of(rankings, d.address);
        let rank = rankings.len() - 1 - idx;
        if rank < MAX_DEVICES_SHOWN {
            DeviceLightState {
                rssi: rankings[idx].0,
                target_rank_slot: rank as usize,
                steps_remaining: if d.steps_remaining == 0 && d.current_rank_slot != rank {
                    NUM_TRANSITIONAL_STEPS
                } else {
                    d.steps_remaining
                },
                ..d
            }
        } else {
            exit_marked(d)
        }
    } else {
        exit_marked(d)
    }
}

/// Whether some displayed peer has the given address.
pub open spec fn displayed_has(s: Seq<DeviceLightState>, addr: u64) -> bool {
    exists|k: int| 0 <= k < s.len() && (#[trigger] s[k]).address == addr
}

/// A freshly created display entry: a top-ranked peer entering from off
/// strip with a full transition toward its rank and a color-wheel hue.
/// That each such hue comes from the pool's minimal-usage draw is stated
/// by the allocation run over the created entries' hues (`alloc_run_for`)
/// in `rank_and_update` and `tick_rel`.
pub open spec fn created_entry(e: DeviceLightState, rankings: Seq<(i32, u64)>) -> bool {
    exists|i: int|
        {
            &&& 0 <= i < rankings.len()
            &&& rankings.len() - 1 - i < MAX_DEVICES_SHOWN
            &&& e.address == (#[trigger] rankings[i]).1
            &&& e.rssi == rankings[i].0
            &&& e.target_rank_slot == rankings.len() - 1 - i
            &&& e.current_rank_slot == OFF_STRIP_SLOT
            &&& e.steps_remaining == NUM_TRANSITIONAL_STEPS
            &&& e.color < 360
        }
}

/// What one ranking pass does to the displayed set: every prior entry is
/// reranked in place, and one new entry appears for every top-ranked
/// address that was not displayed before.
pub open spec fn rank_outcome(
    pre: Seq<DeviceLightState>,
    sorted: Seq<(i32, u64)>,
    post: Seq<DeviceLightState>,
) -> bool {
    &&& post.len() >= pre.len()
    &&& forall|k: int| 0 <= k < pre.len() ==> post[k] == reranked(#[trigger] pre[k], sorted)
    &&& forall|k: int|
        pre.len() <= k < post.len() ==> created_entry(#[trigger] post[k], sorted)
            && !displayed_has(pre, post[k].address)
    &&& forall|i: int|
        0 <= i < sorted.len() && sorted.len() - 1 - i < MAX_DEVICES_SHOWN
            && !displayed_has(pre, (#[trigger] sorted[i]).1) ==> exists|k: int|
            pre.len() <= k < post.len() && (#[trigger] post[k]).address == sorted[i].1
}

/// One animation step of a display entry: the countdown falls by one and,
/// on reaching zero, the current slot snaps to the target.
pub open spec fn advance_state(d: DeviceLightState) -> DeviceLightState {
    let steps = if d.steps_remaining > 0 {
        (d.steps_remaining - 1) as u64
    } else {
        0u64
    };
    DeviceLightState {
        steps_remaining: steps,
        current_rank_slot: if steps == 0 {
            d.target_rank_slot
        } else {
            d.current_rank_slot
        },
        ..d
    }
}

/// A display entry after `n` animation steps.
pub open spec fn advance_n(d: DeviceLightState, n: nat) -> DeviceLightState
    decreases n,
{
    if n == 0 {
        d
    } else {
        advance_n(advance_state(d), (n - 1) as nat)
    }
}

/// Transitions converge within the step budget: once a display entry has
/// animated for at least its remaining step count (every render tick
/// advances every displayed entry once), its current slot has snapped to
/// its target slot and stays there, the target and identity untouched. In
/// particular, any entry converges within `NUM_TRANSITIONAL_STEPS` steps.
pub proof fn lemma_transition_converges(d: DeviceLightState, n: nat)
    requires
        n >= 1,
        n >= d.steps_remaining,
    ensures
        advance_n(d, n).steps_remaining == 0,
        advance_n(d, n).current_rank_slot == d.target_rank_slot,
        advance_n(d, n).target_rank_slot == d.target_rank_slot,
        advance_n(d, n).address == d.address,
        advance_n(d, n).color == d.color,
    decreases n,
{
    let d1 = advance_state(d);
    assert(advance_n(d, n) == advance_n(d1, (n - 1) as nat));
    if n > 1 {
        lemma_transition_converges(d1, (n - 1) as nat);
    } else {
        assert(advance_n(d1, 0) == d1);
    }
}

/// The displayed peers and the strip after every peer renders itself in
/// order at brightness `b`, each advancing its transition by one step.
pub open spec fn render_fold(
    devs: Seq<DeviceLightState>,
    b: int,
    strip: Seq<AvgPixel>,
) -> (Seq<DeviceLightState>, Seq<AvgPixel>)
    decreases devs.len(),
{
    if devs.len() == 0 {
        (devs, strip)
    } else {
        let d = devs[0];
        let strip1 = device_render_spec(
            strip,
            target_pixel_spec(
                d.current_rank_slot as int,
                d.target_rank_slot as int,
                d.steps_remaining as int,
            ),
            d.color as int,
            b,
        );
        let rec = render_fold(devs.skip(1), b, strip1);
        (seq![advance_state(d)] + rec.0, rec.1)
    }
}

/// A display entry that has fully animated out: both its slots sit beyond
/// the ranked range.
pub open spec fn exiting(d: DeviceLightState) -> bool {
    d.current_rank_slot > MAX_DEVICES_SHOWN && d.target_rank_slot > MAX_DEVICES_SHOWN
}

/// The hues of the display entries created during a tick: the entries
/// appended beyond position `from`, in creation order.
pub open spec fn created_colors_of(devs: Seq<DeviceLightState>, from: int) -> Seq<u16> {
    devs.skip(from).map_values(|d: DeviceLightState| d.color)
}

/// The hues of the fully exited display entries, in display order.
pub open spec fn exiting_colors_of(devs: Seq<DeviceLightState>) -> Seq<u16> {
    devs.filter(|d: DeviceLightState| exiting(d)).map_values(
        |d: DeviceLightState| d.color,
    )
}

/// Collect the ranking pairs of the non-favorite snapshot entries.
fn build_rankings(snapshot: &Vec<SnapshotEntry>) -> (r: Vec<(i32, u64)>)
    requires
        forall|i: int, j: int|
            0 <= i < j < snapshot@.len() ==> (#[trigger] snapshot@[i]).address != (
            #[trigger] snapshot@[j]).address,
    ensures
        r@ == build_rankings_spec(snapshot@),
        rankings_unique(r@),
{
    let ghost snap = snapshot@;
    let ghost keep_fn = |e: SnapshotEntry| !e.is_favorite;
    let ghost pair_fn = |e: SnapshotEntry| (e.rssi, e.address);
    let mut r: Vec<(i32, u64)> = Vec::new();
    let n = snapshot.len();
    let mut i: usize = 0;
    proof {
        assert(snap.take(0).filter(keep_fn) =~= Seq::<SnapshotEntry>::empty());
        assert(r@ =~= snap.take(0).filter(keep_fn).map_values(pair_fn));
    }
    while i < n
        invariant
            n == snap.len(),
            snap == snapshot@,
            0 <= i <= n,
            keep_fn == (|e: SnapshotEntry| !e.is_favorite),
            pair_fn == (|e: SnapshotEntry| (e.rssi, e.address)),
            forall|k: int, j: int|
                0 <= k < j < snap.len() ==> (#[trigger] snap[k]).address != (
                #[trigger] snap[j]).address,
            r@ == snap.take(i as int).filter(keep_fn).map_values(pair_fn),
            forall|k: int, j: int|
                0 <= k < r@.len() && i <= j < snap.len() ==> (#[trigger] r@[k]).1 != (
                #[trigger] snap[j]).address,
            rankings_unique(r@),
        decreases n - i,
    {
        let e = snapshot[i];
        let ghost r_before = r@;
        if !e.is_favorite {
            r.push((e.rssi, e.address));
        }
        proof {
            reveal(Seq::filter);
            assert(snap.take(i as int + 1).drop_last() =~= snap.take(i as int));
            assert(snap.take(i as int + 1).last() == snap[i as int]);
            if !e.is_favorite {
                assert(r@ =~= r_before.push((e.rssi, e.address)));
                assert(snap.take(i as int + 1).filter(keep_fn).map_values(pair_fn)
                    =~= r_before.push((e.rssi, e.address)));
            } else {
                assert(snap.take(i as int + 1).filter(keep_fn) =~= snap.take(
                    i as int,
                ).filter(keep_fn));
            }
        }
        i = i + 1;
    }
    proof {
        assert(snap.take(n as int) =~= snap);
    }
    r
}

/// The deterministic tail of one render tick, given the reranked display
/// set: every displayed peer renders into a fresh black accumulator, the
/// favorite bar renders over it, the accumulator reduces to output
/// pixels, and the fully exited entries are purged.
pub open spec fn tick_pipeline(
    pre: LightMgr,
    snap: Seq<SnapshotEntry>,
    ranked_devs: Seq<DeviceLightState>,
    post: LightMgr,
    out: Seq<Color>,
) -> bool {
    let fav = favorite_outcome(pre.favorite_device, snap);
    let blank = Seq::new(NUM_LIGHTS as nat, |p: int| AvgPixel::black_spec());
    let fold = render_fold(ranked_devs, pre.brightness as int, blank);
    let strip_out = match fav {
        Some(f) => favorite_render_spec(
            fold.1,
            f.rssi as int,
            f.color as int,
            pre.brightness as int,
        ),
        None => fold.1,
    };
    &&& out == strip_out.map_values(|p: AvgPixel| color_of_pixel(p))
    &&& post.displayed_devices@ == fold.0.filter(|d: DeviceLightState| !exiting(d))
    &&& post.favorite_device == fav
    &&& post.mode == pre.mode
    &&& post.brightness == pre.brightness
    &&& post.brightness_level == pre.brightness_level
    &&& post.color_allocator.hues() == pre.color_allocator.hues()
    &&& exists|u_mid: Seq<usize>|
        {
            &&& #[trigger] alloc_run_for(
                pre.color_allocator.hues(),
                pre.color_allocator.usage(),
                created_colors_of(ranked_devs, pre.displayed_devices@.len() as int),
                u_mid,
            )
            &&& post.color_allocator.usage() == release_fold(
                pre.color_allocator.hues(),
                u_mid,
                exiting_colors_of(fold.0),
            )
        }
}

/// The reduced output value of an accumulated pixel.
pub open spec fn color_of_pixel(p: AvgPixel) -> Color {
    Color {
        r: to_byte_spec(p.red as int) as u8,
        g: to_byte_spec(p.green as int) as u8,
        b: to_byte_spec(p.blue as int) as u8,
    }
}

/// What one render tick does: for some ascending ranking of the
/// snapshot's non-favorite peers (ties may order either way) and some
/// reranking outcome over it (hues are drawn at random), the deterministic
/// pipeline produces the new display state and the output pixels.
pub open spec fn tick_rel(
    pre: LightMgr,
    snap: Seq<SnapshotEntry>,
    post: LightMgr,
    out: Seq<Color>,
) -> bool {
    exists|sorted: Seq<(i32, u64)>, ranked_devs: Seq<DeviceLightState>|
        {
            &&& sorted_by_rssi(sorted)
            &&& sorted.to_multiset() == build_rankings_spec(snap).to_multiset()
            &&& rankings_unique(sorted)
            &&& #[trigger] rank_outcome(pre.displayed_devices@, sorted, ranked_devs)
            &&& tick_pipeline(pre, snap, ranked_devs, post, out)
        }
}

/// Orchestrates the per-tick pipeline and owns the display state: the
/// ranked peers' animated slots, the favorite indicator, the color pool,
/// and the brightness and sort-mode controls.
pub struct LightMgr {
    pub mode: DisplaySortMode,
    pub brightness: u32,
    pub brightness_level: u8,
    pub color_allocator: ColorAllocator,
    pub displayed_devices: Vec<DeviceLightState>,
    pub favorite_device: Option<FavoriteLightState>,
}

impl LightMgr {
    /// Brightness is a permille value derived from a valid level, every
    /// displayed peer is well formed with a unique address, a present
    /// favorite indicator has a color-wheel hue, and the pool is intact.
    pub open spec fn wf(self) -> bool {
        &&& 1 <= self.brightness_level <= BRIGHTNESS_LEVELS
        &&& self.brightness == brightness_permille(self.brightness_level as int)
        &&& self.color_allocator.wf()
        &&& forall|i: int|
            0 <= i < self.displayed_devices@.len() ==> (#[trigger] self.displayed_devices@[i]).wf()
        &&& forall|i: int, j: int|
            0 <= i < j < self.displayed_devices@.len()
                ==> #[trigger] self.displayed_devices@[i].address
                != #[trigger] self.displayed_devices@[j].address
        &&& match self.favorite_device {
            Some(f) => f.color < 360,
            None => true,
        }
    }

    pub fn new(initial_mode: DisplaySortMode) -> (r: Self)
        ensures
            r.wf(),
            r.mode == initial_mode,
            r.brightness_level == DEFAULT_BRIGHTNESS,
            r.displayed_devices@ == Seq::<DeviceLightState>::empty(),
            r.favorite_device is None,
            r.color_allocator.sum_usage() == 0,
    {
        let r = LightMgr {
            mode: initial_mode,
            brightness: get_brightness(DEFAULT_BRIGHTNESS),
            brightness_level: DEFAULT_BRIGHTNESS,
            color_allocator: ColorAllocator::new(),
            displayed_devices: Vec::new(),
            favorite_device: None,
        };
        proof {
            assert(r.displayed_devices@ =~= Seq::<DeviceLightState>::empty());
        }
        r
    }

    /// Milliseconds between render ticks.
    pub fn get_tick_interval(&self) -> (r: u64)
        ensures
            r == 1000 as int / STEPS_PER_SECOND as int,
    {
        1000 / STEPS_PER_SECOND
    }

    /// Step the brightness up one level, capped at the top level.
    pub fn increase_brightness(&mut self)
        requires
            old(self).wf(),
        ensures
            final(self).wf(),
            final(self).brightness_level == if old(self).brightness_level
                < BRIGHTNESS_LEVELS {
                (old(self).brightness_level + 1) as u8
            } else {
                BRIGHTNESS_LEVELS
            },
            final(self).mode == old(self).mode,
            final(self).displayed_devices == old(self).displayed_devices,
            final(self).favorite_device == old(self).favorite_device,
            final(self).color_allocator == old(self).color_allocator,
    {
        if self.brightness_level < BRIGHTNESS_LEVELS {
            self.brightness_level = self.brightness_level + 1;
        }
        self.brightness = get_brightness(self.brightness_level);
    }

    /// Step the brightness down one level, floored at the lowest level.
    pub fn decrease_brightness(&mut self)
        requires
            old(self).wf(),
        ensures
            final(self).wf(),
            final(self).brightness_level == if old(self).brightness_level > 1 {
                (old(self).brightness_level - 1) as u8
            } else {
                1u8
            },
            final(self).mode == old(self).mode,
            final(self).displayed_devices == old(self).displayed_devices,
            final(self).favorite_device == old(self).favorite_device,
            final(self).color_allocator == old(self).color_allocator,
    {
        if self.brightness_level > 1 {
            self.brightness_level = self.brightness_level - 1;
        }
        self.brightness = get_brightness(self.brightness_level);
    }

    /// Select how ranked peers are laid out.
    pub fn switch_mode(&mut self, new_mode: DisplaySortMode)
        requires
            old(self).wf(),
        ensures
            final(self).wf(),
            final(self).mode == new_mode,
            final(self).brightness_level == old(self).brightness_level,
            final(self).displayed_devices == old(self).displayed_devices,
            final(self).favorite_device == old(self).favorite_device,
            final(self).color_allocator == old(self).color_allocator,
    {
        self.mode = new_mode;
    }

    /// Rerank the displayed peers against a sorted ranking list: existing
    /// entries take their new target slots (or are marked to animate out),
    /// and every newly top-ranked peer gets a freshly allocated hue and a
    /// display entry entering from off strip.
    fn rank_and_update(&mut self, rankings: &Vec<(i32, u64)>)
        requires
            old(self).wf(),
            rankings_unique(rankings@),
        ensures
            final(self).wf(),
            rank_outcome(
                old(self).displayed_devices@,
                rankings@,
                final(self).displayed_devices@,
            ),
            final(self).mode == old(self).mode,
            final(self).brightness == old(self).brightness,
            final(self).brightness_level == old(self).brightness_level,
            final(self).favorite_device == old(self).favorite_device,
            final(self).color_allocator.hues() == old(self).color_allocator.hues(),
            alloc_run_for(
                old(self).color_allocator.hues(),
                old(self).color_allocator.usage(),
                final(self).displayed_devices@.skip(
                    old(self).displayed_devices@.len() as int,
                ).map_values(|d: DeviceLightState| d.color),
                final(self).color_allocator.usage(),
            ),
    {
        let ghost pre = self.displayed_devices@;
        let n = self.displayed_devices.len();
        let mut d: usize = 0;
        while d < n
            invariant
                rankings_unique(rankings@),
                n == self.displayed_devices@.len(),
                pre.len() == n,
                0 <= d <= n,
                forall|k: int| 0 <= k < pre.len() ==> (#[trigger] pre[k]).wf(),
                forall|k: int|
                    0 <= k < d ==> #[trigger] self.displayed_devices@[k] == reranked(
                        pre[k],
                        rankings@,
                    ),
                forall|k: int| d <= k < n ==> #[trigger] self.displayed_devices@[k] == pre[k],
                forall|k: int|
                    0 <= k < n ==> (#[trigger] self.displayed_devices@[k]).address
                        == pre[k].address && self.displayed_devices@[k].wf(),
                self.mode == old(self).mode,
                self.brightness == old(self).brightness,
                self.brightness_level == old(self).brightness_level,
                self.favorite_device == old(self).favorite_device,
                self.color_allocator == old(self).color_allocator,
            decreases n - d,
        {
            let dd = self.displayed_devices[d];
            let mut nd = dd;
            let mut idx: usize = 0;
            let m = rankings.len();
            let mut found = false;
            while idx < m
                invariant_except_break
                    0 <= idx <= m,
                    m == rankings@.len(),
                    !found,
                    forall|j: int| 0 <= j < idx ==> (#[trigger] rankings@[j]).1 != dd.address,
                ensures
                    0 <= idx <= m,
                    m == rankings@.len(),
                    found ==> idx < m && rankings@[idx as int].1 == dd.address,
                    !found ==> !ranked(rankings@, dd.address),
                decreases m - idx,
            {
                if rankings[idx].1 == dd.address {
                    found = true;
                    break;
                }
                idx = idx + 1;
            }
            if found {
                let rank = rankings.len() - 1 - idx;
                proof {
                    assert(ranked(rankings@, dd.address));
                    let ci = rank_index_of(rankings@, dd.address);
                    assert(0 <= ci < rankings@.len() && rankings@[ci].1 == dd.address);
                    assert(ci == idx as int);
                }
                if rank < MAX_DEVICES_SHOWN {
                    nd.rssi = rankings[idx].0;
                    nd.target_rank_slot = rank;
                    if nd.steps_remaining == 0 && nd.current_rank_slot != rank {
                        nd.steps_remaining = NUM_TRANSITIONAL_STEPS;
                    }
                } else {
                    if nd.target_rank_slot != OFF_STRIP_SLOT {
                        nd.target_rank_slot = OFF_STRIP_SLOT;
                        nd.steps_remaining = NUM_TRANSITIONAL_STEPS;
                    }
                }
            } else {
                if nd.target_rank_slot != OFF_STRIP_SLOT {
                    nd.target_rank_slot = OFF_STRIP_SLOT;
                    nd.steps_remaining = NUM_TRANSITIONAL_STEPS;
                }
            }
            proof {
                assert(nd == reranked(pre[d as int], rankings@));
            }
            self.displayed_devices[d] = nd;
            d = d + 1;
        }
        let m = rankings.len();
        let top = if m < MAX_DEVICES_SHOWN {
            m
        } else {
            MAX_DEVICES_SHOWN
        };
        let mut i: usize = 0;
        proof {
            assert(self.displayed_devices@.skip(n as int)
                =~= Seq::<DeviceLightState>::empty());
            assert(self.displayed_devices@.skip(n as int).map_values(
                |d: DeviceLightState| d.color,
            ) =~= Seq::<u16>::empty());
        }
        while i < top
            invariant
                rankings_unique(rankings@),
                m == rankings@.len(),
                top == if m < MAX_DEVICES_SHOWN {
                    m as int
                } else {
                    MAX_DEVICES_SHOWN as int
                },
                0 <= i <= top,
                pre.len() == n,
                self.displayed_devices@.len() >= n,
                forall|k: int| 0 <= k < pre.len() ==> (#[trigger] pre[k]).wf(),
                forall|k: int, j: int|
                    0 <= k < j < pre.len() ==> (#[trigger] pre[k]).address != (
                    #[trigger] pre[j]).address,
                forall|k: int|
                    0 <= k < n ==> #[trigger] self.displayed_devices@[k] == reranked(
                        pre[k],
                        rankings@,
                    ),
                forall|k: int|
                    0 <= k < n ==> (#[trigger] self.displayed_devices@[k]).address
                        == pre[k].address,
                forall|k: int|
                    n <= k < self.displayed_devices@.len() ==> created_entry(
                        #[trigger] self.displayed_devices@[k],
                        rankings@,
                    ) && !displayed_has(pre, self.displayed_devices@[k].address),
                forall|k: int|
                    0 <= k < self.displayed_devices@.len()
                        ==> (#[trigger] self.displayed_devices@[k]).wf(),
                forall|k: int, j: int|
                    0 <= k < j < self.displayed_devices@.len()
                        ==> (#[trigger] self.displayed_devices@[k]).address != (
                    #[trigger] self.displayed_devices@[j]).address,
                forall|pos: int|
                    0 <= pos < m && m - 1 - pos < i && !displayed_has(
                        pre,
                        (#[trigger] rankings@[pos]).1,
                    ) ==> exists|k: int|
                        n <= k < self.displayed_devices@.len()
                            && (#[trigger] self.displayed_devices@[k]).address
                            == rankings@[pos].1,
                self.mode == old(self).mode,
                self.brightness == old(self).brightness,
                self.brightness_level == old(self).brightness_level,
                self.favorite_device == old(self).favorite_device,
                self.color_allocator.wf(),
                self.color_allocator.hues() == old(self).color_allocator.hues(),
                alloc_run_for(
                    old(self).color_allocator.hues(),
                    old(self).color_allocator.usage(),
                    self.displayed_devices@.skip(n as int).map_values(
                        |d: DeviceLightState| d.color,
                    ),
                    self.color_allocator.usage(),
                ),
            decreases top - i,
        {
            let idx = m - 1 - i;
            let addr = rankings[idx].1;
            let mut k: usize = 0;
            let len_now = self.displayed_devices.len();
            let mut found = false;
            while k < len_now
                invariant_except_break
                    0 <= k <= len_now,
                    len_now == self.displayed_devices@.len(),
                    !found,
                    forall|j: int|
                        0 <= j < k ==> (#[trigger] self.displayed_devices@[j]).address
                            != addr,
                ensures
                    len_now == self.displayed_devices@.len(),
                    found ==> displayed_has(self.displayed_devices@, addr),
                    !found ==> !displayed_has(self.displayed_devices@, addr),
                decreases len_now - k,
            {
                if self.displayed_devices[k].address == addr {
                    found = true;
                    break;
                }
                k = k + 1;
            }
            let ghost devs_before = self.displayed_devices@;
            let ghost usage_before = self.color_allocator.usage();
            if !found {
                let hue = self.color_allocator.allocate_color();
                let nd = DeviceLightState {
                    address: addr,
                    rssi: rankings[idx].0,
                    color: hue,
                    current_rank_slot: OFF_STRIP_SLOT,
                    target_rank_slot: i,
                    steps_remaining: NUM_TRANSITIONAL_STEPS,
                };
                self.displayed_devices.push(nd);
                proof {
                    assert(created_entry(nd, rankings@)) by {
                        assert(0 <= idx < rankings@.len() && rankings@.len() - 1 - idx
                            < MAX_DEVICES_SHOWN && nd.address == rankings@[idx as int].1);
                    }
                    assert(!displayed_has(pre, addr)) by {
                        if displayed_has(pre, addr) {
                            let j = choose|j: int|
                                0 <= j < pre.len() && (#[trigger] pre[j]).address == addr;
                            assert(devs_before[j].address == addr);
                            assert(displayed_has(devs_before, addr));
                        }
                    }
                    let created_before = devs_before.skip(n as int).map_values(
                        |d: DeviceLightState| d.color,
                    );
                    lemma_alloc_run_push(
                        old(self).color_allocator.hues(),
                        old(self).color_allocator.usage(),
                        created_before,
                        hue,
                        usage_before,
                        self.color_allocator.usage(),
                    );
                    assert(self.displayed_devices@.skip(n as int)
                        =~= devs_before.skip(n as int).push(nd));
                    assert(self.displayed_devices@.skip(n as int).map_values(
                        |d: DeviceLightState| d.color,
                    ) =~= created_before.push(hue));
                }
            }
            proof {
                assert forall|pos: int|
                    0 <= pos < m && m - 1 - pos < i + 1 && !displayed_has(
                        pre,
                        (#[trigger] rankings@[pos]).1,
                    ) implies exists|k2: int|
                        n <= k2 < self.displayed_devices@.len()
                            && (#[trigger] self.displayed_devices@[k2]).address
                            == rankings@[pos].1 by {
                    if m - 1 - pos == i {
                        assert(pos == idx as int);
                        if found {
                            let j = choose|j: int|
                                0 <= j < devs_before.len() && (#[trigger] devs_before[j]).address
                                    == addr;
                            assert(j >= n);
                            assert(self.displayed_devices@[j].address == addr);
                        } else {
                            assert(self.displayed_devices@[self.displayed_devices@.len()
                                - 1].address == addr);
                        }
                    } else {
                        let k2 = choose|k2: int|
                            n <= k2 < devs_before.len() && (#[trigger] devs_before[k2]).address
                                == rankings@[pos].1;
                        assert(self.displayed_devices@[k2].address == rankings@[pos].1);
                    }
                }
            }
            i = i + 1;
        }
    }

    /// Purge every display entry that has fully animated out, releasing
    /// its hue back to the pool. Each purged entry releases its hue
    /// exactly once.
    fn purge(&mut self)
        requires
            old(self).wf(),
        ensures
            final(self).wf(),
            final(self).displayed_devices@ == old(self).displayed_devices@.filter(
                |d: DeviceLightState| !exiting(d),
            ),
            final(self).color_allocator.hues() == old(self).color_allocator.hues(),
            final(self).color_allocator.usage() == crate::color_alloc::release_fold(
                old(self).color_allocator.hues(),
                old(self).color_allocator.usage(),
                old(self).displayed_devices@.filter(|d: DeviceLightState| exiting(d))
                    .map_values(|d: DeviceLightState| d.color),
            ),
            final(self).mode == old(self).mode,
            final(self).brightness == old(self).brightness,
            final(self).brightness_level == old(self).brightness_level,
            final(self).favorite_device == old(self).favorite_device,
    {
        let ghost pre = self.displayed_devices@;
        let ghost hues = self.color_allocator.hues();
        let ghost usage0 = self.color_allocator.usage();
        let ghost keep_fn = |d: DeviceLightState| !exiting(d);
        let ghost drop_fn = |d: DeviceLightState| exiting(d);
        let ghost color_fn = |d: DeviceLightState| d.color;
        let mut kept: Vec<DeviceLightState> = Vec::new();
        let total = self.displayed_devices.len();
        let mut k: usize = 0;
        proof {
            assert(pre.take(0).filter(keep_fn) =~= Seq::<DeviceLightState>::empty());
            assert(pre.take(0).filter(drop_fn) =~= Seq::<DeviceLightState>::empty());
            assert(pre.take(0).filter(drop_fn).map_values(color_fn)
                =~= Seq::<u16>::empty());
            assert(kept@ =~= Seq::<DeviceLightState>::empty());
            assert(self.displayed_devices@ =~= pre.skip(0));
        }
        while k < total
            invariant
                total == pre.len(),
                0 <= k <= total,
                keep_fn == (|d: DeviceLightState| !exiting(d)),
                drop_fn == (|d: DeviceLightState| exiting(d)),
                color_fn == (|d: DeviceLightState| d.color),
                forall|j: int| 0 <= j < pre.len() ==> (#[trigger] pre[j]).wf(),
                forall|j: int, j2: int|
                    0 <= j < j2 < pre.len() ==> (#[trigger] pre[j]).address != (
                    #[trigger] pre[j2]).address,
                self.displayed_devices@ == pre.skip(k as int),
                kept@ == pre.take(k as int).filter(keep_fn),
                forall|j: int, j2: int|
                    0 <= j < kept@.len() && k <= j2 < pre.len() ==> (#[trigger] kept@[j]).address
                        != (#[trigger] pre[j2]).address,
                forall|j: int, j2: int|
                    0 <= j < j2 < kept@.len() ==> (#[trigger] kept@[j]).address != (
                    #[trigger] kept@[j2]).address,
                forall|j: int| 0 <= j < kept@.len() ==> (#[trigger] kept@[j]).wf(),
                self.color_allocator.wf(),
                self.color_allocator.hues() == hues,
                self.color_allocator.usage() == crate::color_alloc::release_fold(
                    hues,
                    usage0,
                    pre.take(k as int).filter(drop_fn).map_values(color_fn),
                ),
                self.mode == old(self).mode,
                self.brightness == old(self).brightness,
                self.brightness_level == old(self).brightness_level,
                self.favorite_device == old(self).favorite_device,
            decreases total - k,
        {
            proof {
                assert(pre.skip(k as int)[0] == pre[k as int]);
            }
            let d = self.displayed_devices.remove(0);
            proof {
                assert(d == pre[k as int]);
                assert(self.displayed_devices@ =~= pre.skip(k as int + 1));
                reveal(Seq::filter);
                assert(pre.take(k as int + 1).drop_last() =~= pre.take(k as int));
                assert(pre.take(k as int + 1).last() == pre[k as int]);
            }
            let ghost kept_before = kept@;
            let ghost dropped_before = pre.take(k as int).filter(drop_fn).map_values(
                color_fn,
            );
            if d.current_rank_slot > MAX_DEVICES_SHOWN && d.target_rank_slot
                > MAX_DEVICES_SHOWN {
                let ghost usage_before = self.color_allocator.usage();
                self.color_allocator.release_color(d.color);
                proof {
                    assert(pre.take(k as int + 1).filter(drop_fn) =~= pre.take(
                        k as int,
                    ).filter(drop_fn).push(d));
                    assert(pre.take(k as int + 1).filter(drop_fn).map_values(color_fn)
                        =~= dropped_before.push(d.color));
                    crate::color_alloc::lemma_release_fold_push(
                        hues,
                        usage0,
                        dropped_before,
                        d.color,
                    );
                    if exists|j: int| 0 <= j < hues.len() && #[trigger] hues[j] == d.color {
                        let j1 = choose|j: int|
                            0 <= j < hues.len() && #[trigger] hues[j] == d.color;
                        let j2 = choose|j: int|
                            0 <= j < COLOR_POOL_SIZE as int && #[trigger] hues[j] == d.color;
                        assert(j1 == j2);
                    }
                    assert(self.color_allocator.usage() == crate::color_alloc::release_one(
                        hues,
                        usage_before,
                        d.color,
                    ));
                }
            } else {
                kept.push(d);
                proof {
                    assert(pre.take(k as int + 1).filter(drop_fn) =~= pre.take(
                        k as int,
                    ).filter(drop_fn));
                    assert(pre.take(k as int + 1).filter(drop_fn).map_values(color_fn)
                        =~= dropped_before);
                    assert(kept@ =~= kept_before.push(d));
                    assert(kept@ == pre.take(k as int + 1).filter(keep_fn));
                }
            }
            proof {
                if !(exiting(pre[k as int])) {
                } else {
                    assert(kept@ == pre.take(k as int + 1).filter(keep_fn)) by {
                        assert(pre.take(k as int + 1).filter(keep_fn) =~= pre.take(
                            k as int,
                        ).filter(keep_fn));
                    }
                }
            }
            k = k + 1;
        }
        self.displayed_devices = kept;
        proof {
            assert(pre.take(total as int) =~= pre);
        }
    }

    /// Let every displayed peer render itself into the accumulator strip,
    /// in order, each advancing its transition by one step.
    fn render_all(&mut self, strip: &mut Vec<AvgPixel>)
        requires
            old(self).wf(),
            old(strip)@.len() == NUM_LIGHTS,
            forall|p: int| 0 <= p < old(strip)@.len() ==> (#[trigger] old(strip)@[p]).wf(),
        ensures
            final(self).wf(),
            final(self).displayed_devices@ == render_fold(
                old(self).displayed_devices@,
                old(self).brightness as int,
                old(strip)@,
            ).0,
            final(strip)@ == render_fold(
                old(self).displayed_devices@,
                old(self).brightness as int,
                old(strip)@,
            ).1,
            final(strip)@.len() == NUM_LIGHTS,
            forall|p: int|
                0 <= p < final(strip)@.len() ==> (#[trigger] final(strip)@[p]).wf(),
            final(self).mode == old(self).mode,
            final(self).brightness == old(self).brightness,
            final(self).brightness_level == old(self).brightness_level,
            final(self).favorite_device == old(self).favorite_device,
            final(self).color_allocator == old(self).color_allocator,
    {
        let ghost pre = self.displayed_devices@;
        let ghost s0 = strip@;
        let ghost b = self.brightness as int;
        proof {
            lemma_brightness_range(self.brightness_level as int);
        }
        let n = self.displayed_devices.len();
        let mut d: usize = 0;
        proof {
            assert(self.displayed_devices@.take(0) =~= Seq::<DeviceLightState>::empty());
            assert(pre.skip(0) =~= pre);
            assert(render_fold(pre, b, s0).0 == self.displayed_devices@.take(0)
                + render_fold(pre.skip(0), b, strip@).0);
        }
        while d < n
            invariant
                n == pre.len(),
                0 <= d <= n,
                self.displayed_devices@.len() == n,
                b == self.brightness as int,
                self.brightness <= 1000,
                strip@.len() == NUM_LIGHTS,
                forall|p: int| 0 <= p < strip@.len() ==> (#[trigger] strip@[p]).wf(),
                forall|k: int| d <= k < n ==> #[trigger] self.displayed_devices@[k] == pre[k],
                forall|k: int| 0 <= k < pre.len() ==> (#[trigger] pre[k]).wf(),
                forall|k: int, j: int|
                    0 <= k < j < pre.len() ==> (#[trigger] pre[k]).address != (
                    #[trigger] pre[j]).address,
                forall|k: int|
                    0 <= k < n ==> (#[trigger] self.displayed_devices@[k]).wf()
                        && self.displayed_devices@[k].address == pre[k].address,
                render_fold(pre, b, s0).0 == self.displayed_devices@.take(d as int)
                    + render_fold(pre.skip(d as int), b, strip@).0,
                render_fold(pre, b, s0).1 == render_fold(pre.skip(d as int), b, strip@).1,
                self.mode == old(self).mode,
                self.brightness == old(self).brightness,
                self.brightness_level == old(self).brightness_level,
                self.favorite_device == old(self).favorite_device,
                self.color_allocator == old(self).color_allocator,
            decreases n - d,
        {
            let ghost strip_before = strip@;
            let ghost devs_before = self.displayed_devices@;
            let mut dd = self.displayed_devices[d];
            proof {
                assert(dd == pre[d as int]);
                assert(pre.skip(d as int)[0] == pre[d as int]);
            }
            dd.tick(self.brightness, strip);
            self.displayed_devices[d] = dd;
            proof {
                assert(dd == advance_state(pre[d as int]));
                assert(pre.skip(d as int).skip(1) =~= pre.skip(d as int + 1));
                let stepped = device_render_spec(
                    strip_before,
                    target_pixel_spec(
                        pre[d as int].current_rank_slot as int,
                        pre[d as int].target_rank_slot as int,
                        pre[d as int].steps_remaining as int,
                    ),
                    pre[d as int].color as int,
                    b,
                );
                assert(strip@ == stepped);
                assert(render_fold(pre.skip(d as int), b, strip_before).0 == seq![
                    advance_state(pre[d as int]),
                ] + render_fold(pre.skip(d as int + 1), b, strip@).0);
                assert(render_fold(pre.skip(d as int), b, strip_before).1 == render_fold(
                    pre.skip(d as int + 1),
                    b,
                    strip@,
                ).1);
                assert(self.displayed_devices@.take(d as int + 1) =~= devs_before.take(
                    d as int,
                ).push(dd));
                assert(render_fold(pre, b, s0).0 == self.displayed_devices@.take(
                    d as int + 1,
                ) + render_fold(pre.skip(d as int + 1), b, strip@).0) by {
                    assert(devs_before.take(d as int) + (seq![advance_state(pre[d as int])]
                        + render_fold(pre.skip(d as int + 1), b, strip@).0)
                        =~= devs_before.take(d as int).push(dd) + render_fold(
                        pre.skip(d as int + 1),
                        b,
                        strip@,
                    ).0);
                }
            }
            d = d + 1;
        }
        proof {
            assert(pre.skip(n as int) =~= Seq::<DeviceLightState>::empty());
            assert(self.displayed_devices@.take(n as int) =~= self.displayed_devices@);
            assert(render_fold(pre.skip(n as int), b, strip@).0
                =~= Seq::<DeviceLightState>::empty());
            assert(render_fold(pre, b, s0).0 =~= self.displayed_devices@);
        }
    }

    /// Scan a snapshot for favorite entries: refresh or create the
    /// favorite indicator, or clear it when no favorite peer is present.
    fn update_favorite(&mut self, snapshot: &Vec<SnapshotEntry>)
        requires
            old(self).wf(),
            forall|i: int|
                0 <= i < snapshot@.len() ==> snap_entry_wf(#[trigger] snapshot@[i]),
        ensures
            final(self).wf(),
            final(self).favorite_device == favorite_outcome(
                old(self).favorite_device,
                snapshot@,
            ),
            final(self).mode == old(self).mode,
            final(self).brightness == old(self).brightness,
            final(self).brightness_level == old(self).brightness_level,
            final(self).displayed_devices == old(self).displayed_devices,
            final(self).color_allocator == old(self).color_allocator,
    {
        let ghost snap = snapshot@;
        let ghost fav0 = old(self).favorite_device;
        let n = snapshot.len();
        let mut found = false;
        let mut i: usize = 0;
        proof {
            assert(snap.skip(0) =~= snap);
        }
        while i < n
            invariant
                old(self).wf(),
                n == snap.len(),
                snap == snapshot@,
                0 <= i <= n,
                forall|k: int| 0 <= k < snap.len() ==> snap_entry_wf(#[trigger] snap[k]),
                favorite_fold(fav0, snap) == favorite_fold(
                    self.favorite_device,
                    snap.skip(i as int),
                ),
                found == has_favorite(snap.take(i as int)),
                !found ==> self.favorite_device == fav0,
                match self.favorite_device {
                    Some(f) => f.color < 360,
                    None => true,
                },
                self.mode == old(self).mode,
                self.brightness == old(self).brightness,
                self.brightness_level == old(self).brightness_level,
                self.displayed_devices == old(self).displayed_devices,
                self.color_allocator == old(self).color_allocator,
            decreases n - i,
        {
            let e = snapshot[i];
            let ghost fav_before = self.favorite_device;
            if e.is_favorite {
                found = true;
                let color = match &self.favorite_device {
                    Some(f) => f.color,
                    None => match e.favorite_color {
                        Some(c) => c,
                        None => 0,
                    },
                };
                self.favorite_device = Some(FavoriteLightState { rssi: e.rssi, color });
            }
            proof {
                assert(snap.skip(i as int)[0] == snap[i as int]);
                assert(snap.skip(i as int).skip(1) =~= snap.skip(i as int + 1));
                assert(self.favorite_device == favorite_step(fav_before, snap[i as int]));
                assert(favorite_fold(fav_before, snap.skip(i as int)) == favorite_fold(
                    self.favorite_device,
                    snap.skip(i as int + 1),
                ));
                if e.is_favorite {
                    assert(snap.take(i as int + 1)[i as int].is_favorite);
                    assert(has_favorite(snap.take(i as int + 1)));
                } else {
                    assert forall|k: int|
                        0 <= k < i + 1 && (#[trigger] snap.take(i as int + 1)[k]).is_favorite
                        implies has_favorite(snap.take(i as int)) by {
                        assert(snap.take(i as int)[k] == snap.take(i as int + 1)[k]);
                    }
                }
            }
            i = i + 1;
        }
        proof {
            assert(snap.take(n as int) =~= snap);
            assert(snap.skip(n as int) =~= Seq::<SnapshotEntry>::empty());
        }
        if !found {
            self.favorite_device = None;
        }
    }

    /// One render tick: snapshot in, pixel buffer out. Refreshes the
    /// favorite indicator, ranks the non-favorite peers by filtered
    /// signal, retargets and animates the displayed slots, composites
    /// every contribution into a fresh accumulator, reduces it to output
    /// pixels, and purges fully exited entries, releasing their hues.
    pub fn tick(&mut self, snapshot: &Vec<SnapshotEntry>) -> (out: Vec<Color>)
        requires
            old(self).wf(),
            forall|i: int|
                0 <= i < snapshot@.len() ==> snap_entry_wf(#[trigger] snapshot@[i]),
            forall|i: int, j: int|
                0 <= i < j < snapshot@.len() ==> (#[trigger] snapshot@[i]).address != (
                #[trigger] snapshot@[j]).address,
        ensures
            final(self).wf(),
            out@.len() == NUM_LIGHTS,
            final(self).favorite_device == favorite_outcome(
                old(self).favorite_device,
                snapshot@,
            ),
            final(self).mode == old(self).mode,
            final(self).brightness_level == old(self).brightness_level,
            final(self).brightness == old(self).brightness,
            tick_rel(*old(self), snapshot@, *final(self), out@),
    {
        let ghost pre_lm = *old(self);
        let ghost snap = snapshot@;
        self.update_favorite(snapshot);
        let ghost fav = self.favorite_device;
        let mut rankings = build_rankings(snapshot);
        sort_rankings(&mut rankings);
        let ghost sorted = rankings@;
        self.rank_and_update(&rankings);
        let ghost ranked_devs = self.displayed_devices@;
        let ghost u_mid = self.color_allocator.usage();
        let mut strip: Vec<AvgPixel> = Vec::new();
        let mut p: usize = 0;
        while p < NUM_LIGHTS
            invariant
                0 <= p <= NUM_LIGHTS,
                strip@.len() == p,
                forall|q: int| 0 <= q < p ==> #[trigger] strip@[q] == AvgPixel::black_spec(),
            decreases NUM_LIGHTS - p,
        {
            strip.push(AvgPixel::black());
            p = p + 1;
        }
        let ghost blank = Seq::new(NUM_LIGHTS as nat, |q: int| AvgPixel::black_spec());
        proof {
            assert(strip@ =~= blank);
        }
        self.render_all(&mut strip);
        let ghost fold = render_fold(ranked_devs, pre_lm.brightness as int, blank);
        proof {
            assert(self.displayed_devices@ == fold.0);
            assert(strip@ == fold.1);
        }
        proof {
            lemma_brightness_range(self.brightness_level as int);
        }
        match &self.favorite_device {
            Some(f) => {
                f.tick(self.brightness, &mut strip);
            },
            None => {},
        }
        let mut out: Vec<Color> = Vec::new();
        let ghost strip_out = strip@;
        let mut p: usize = 0;
        proof {
            assert(out@ =~= strip_out.take(0).map_values(|px: AvgPixel| color_of_pixel(px)));
        }
        while p < NUM_LIGHTS
            invariant
                0 <= p <= NUM_LIGHTS,
                strip@ == strip_out,
                strip@.len() == NUM_LIGHTS,
                forall|q: int| 0 <= q < strip@.len() ==> (#[trigger] strip@[q]).wf(),
                out@ == strip_out.take(p as int).map_values(
                    |px: AvgPixel| color_of_pixel(px),
                ),
            decreases NUM_LIGHTS - p,
        {
            let px = strip[p];
            let c = reduce_pixel(&px);
            out.push(c);
            proof {
                let all = strip_out.map_values(|px: AvgPixel| color_of_pixel(px));
                assert(strip_out.take(p as int + 1).map_values(
                    |px: AvgPixel| color_of_pixel(px),
                ) =~= strip_out.take(p as int).map_values(
                    |px: AvgPixel| color_of_pixel(px),
                ).push(color_of_pixel(strip_out[p as int])));
                assert(out@ =~= strip_out.take(p as int + 1).map_values(
                    |px: AvgPixel| color_of_pixel(px),
                ));
            }
            p = p + 1;
        }
        proof {
            assert(strip_out.take(NUM_LIGHTS as int) =~= strip_out);
        }
        self.purge();
        proof {
            assert(out@ =~= strip_out.map_values(|px: AvgPixel| color_of_pixel(px)));
            assert(alloc_run_for(
                pre_lm.color_allocator.hues(),
                pre_lm.color_allocator.usage(),
                created_colors_of(ranked_devs, pre_lm.displayed_devices@.len() as int),
                u_mid,
            ));
            assert(self.color_allocator.usage() == release_fold(
                pre_lm.color_allocator.hues(),
                u_mid,
                exiting_colors_of(fold.0),
            ));
            assert(tick_pipeline(pre_lm, snap, ranked_devs, *self, out@));
            assert(sorted_by_rssi(sorted) && sorted.to_multiset() == build_rankings_spec(
                snap,
            ).to_multiset() && rankings_unique(sorted) && rank_outcome(
                pre_lm.displayed_devices@,
                sorted,
                ranked_devs,
            ) && tick_pipeline(pre_lm, snap, ranked_devs, *self, out@));
            assert(tick_rel(pre_lm, snap, *self, out@));
        }
        out
    }

    /// Apply one control event drained from the control queue.
    pub fn apply_control(&mut self, msg: crate::messages::LightControls)
        requires
            old(self).wf(),
        ensures
            final(self).wf(),
            final(self).brightness_level == match msg {
                crate::messages::LightControls::BrightnessIncrease => if old(
                    self,
                ).brightness_level < BRIGHTNESS_LEVELS {
                    (old(self).brightness_level + 1) as u8
                } else {
                    BRIGHTNESS_LEVELS
                },
                crate::messages::LightControls::BrightnessDecrease => if old(
                    self,
                ).brightness_level > 1 {
                    (old(self).brightness_level - 1) as u8
                } else {
                    1u8
                },
                crate::messages::LightControls::ModeChange(_) => old(self).brightness_level,
            },
            final(self).mode == match msg {
                crate::messages::LightControls::ModeChange(m) => m,
                _ => old(self).mode,
            },
            final(self).displayed_devices == old(self).displayed_devices,
            final(self).favorite_device == old(self).favorite_device,
            final(self).color_allocator == old(self).color_allocator,
    {
        match msg {
            crate::messages::LightControls::BrightnessIncrease => self.increase_brightness(),
            crate::messages::LightControls::BrightnessDecrease => self.decrease_brightness(),
            crate::messages::LightControls::ModeChange(m) => self.switch_mode(m),
        }
    }
}

/// A snapshot taken from a well-formed tracker always satisfies `tick`'s
/// preconditions: entry colors are color-wheel angles and addresses are
/// unique. This is what entitles the render task to feed a tracker
/// snapshot straight into the per-tick pipeline.
pub proof fn lemma_snapshot_feeds_tick(
    t: crate::ble_device_mgr::DeviceTracker,
    s: Seq<SnapshotEntry>,
)
    requires
        t.wf(),
        s == t.models().map_values(|m: crate::ble_device_mgr::DeviceModel| crate::ble_device_mgr::snap_of(m)),
    ensures
        forall|i: int| 0 <= i < s.len() ==> snap_entry_wf(#[trigger] s[i]),
        forall|i: int, j: int|
            0 <= i < j < s.len() ==> (#[trigger] s[i]).address != (#[trigger] s[j]).address,
{
    assert forall|i: int| 0 <= i < s.len() implies snap_entry_wf(#[trigger] s[i]) by {
        assert(s[i] == crate::ble_device_mgr::snap_of(t.models()[i]));
    }
    assert forall|i: int, j: int|
        0 <= i < j < s.len() implies (#[trigger] s[i]).address != (
    #[trigger] s[j]).address by {
        assert(s[i] == crate::ble_device_mgr::snap_of(t.models()[i]));
        assert(s[j] == crate::ble_device_mgr::snap_of(t.models()[j]));
    }
}

} // verus!
