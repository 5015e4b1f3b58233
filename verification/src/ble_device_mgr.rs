//! Registry of observed peers: admission of raw signal observations, the
//! decay state machine, and eviction of peers whose filtered signal has
//! fallen below the low-signal threshold.

use vstd::prelude::*;

verus! {

use crate::utils::{
    MovingAvg,
    window_push,
    sum_of,
    div_toward_zero,
    div_i32_toward_zero,
    lemma_sum_push,
    lemma_sum_skip_first,
};

/// How many seconds until a device's signal strength begins to decay.
pub const DECAY_DELAY: u64 = 5;

/// Once decay has begun, a device loses one tenth of its last raw reading
/// per decay tick: the rate is the reading divided by this, toward zero.
pub const DECAY_RATE_DIVISOR: i32 = 10;

/// Cutoff signal strength for devices likely to be physically on us.
pub const SIGNAL_IGNORE_ABOVE_THRESHOLD: i32 = -45;

/// Cutoff signal strength for devices too far to be relevant.
pub const SIGNAL_IGNORE_BELOW_THRESHOLD: i32 = -80;

/// Number of raw readings smoothed per device.
pub const SIGNAL_MOVING_AVG_WINDOW: usize = 5;

/// The byte value of `:`, which separates a favorite name from its color
/// payload.
pub const COLOR_SEPARATOR: u8 = 58;

/// Index of the first separator in `s`, or `s.len()` if there is none.
pub open spec fn colon_index(s: Seq<u8>) -> int
    decreases s.len(),
{
    if s.len() == 0 {
        0
    } else if s[0] == COLOR_SEPARATOR {
        0
    } else {
        1 + colon_index(s.skip(1))
    }
}

/// No separator occurs before position `end`.
pub open spec fn colon_free(s: Seq<u8>, end: int) -> bool {
    forall|k: int| 0 <= k < end ==> s[k] != COLOR_SEPARATOR
}

/// `colon_index` points at the first separator: nothing before it is a
/// separator, and it is one itself unless the sequence has none.
pub proof fn lemma_colon_index(s: Seq<u8>)
    ensures
        0 <= colon_index(s) <= s.len(),
        colon_index(s) < s.len() ==> s[colon_index(s)] == COLOR_SEPARATOR,
        colon_free(s, colon_index(s)),
    decreases s.len(),
{
    if s.len() > 0 && s[0] != COLOR_SEPARATOR {
        lemma_colon_index(s.skip(1));
        assert forall|k: int| 0 <= k < colon_index(s) implies s[k] != COLOR_SEPARATOR by {
            if k > 0 {
                assert(s.skip(1)[k - 1] != COLOR_SEPARATOR);
            }
        }
    }
}

/// A position that is a separator, with none before it, is `colon_index`.
pub proof fn lemma_colon_index_unique(s: Seq<u8>, i: int)
    requires
        0 <= i < s.len(),
        s[i] == COLOR_SEPARATOR,
        colon_free(s, i),
    ensures
        colon_index(s) == i,
{
    lemma_colon_index(s);
}

/// A sequence without separators has `colon_index` equal to its length.
pub proof fn lemma_colon_index_none(s: Seq<u8>)
    requires
        colon_free(s, s.len() as int),
    ensures
        colon_index(s) == s.len(),
{
    lemma_colon_index(s);
}

/// One or more ASCII decimal digits.
pub open spec fn is_ascii_digits(s: Seq<u8>) -> bool {
    s.len() >= 1 && forall|i: int| 0 <= i < s.len() ==> 48 <= #[trigger] s[i] <= 57
}

/// The decimal value spelled by a digit sequence.
pub open spec fn digits_value(s: Seq<u8>) -> int
    decreases s.len(),
{
    if s.len() == 0 {
        0
    } else {
        digits_value(s.drop_last()) * 10 + (s.last() - 48)
    }
}

/// The color payload of an advertised name: the text between the first
/// separator and the next separator or the end of the name.
pub open spec fn color_payload(name: Seq<u8>) -> Seq<u8> {
    let rest = name.skip(colon_index(name) + 1);
    rest.take(colon_index(rest))
}

/// The hue a favorite name advertises: the payload read as a decimal hue
/// angle of at most three plain digits, reduced into degrees. A name
/// without a payload, or with a malformed one - empty, longer, signed,
/// fractional, or holding any non-digit - falls back to the default hue:
/// hues are integer degrees here, so only whole angles are accepted.
pub open spec fn favorite_hue(name: Seq<u8>, default_hue: u16) -> u16 {
    if colon_index(name) < name.len() {
        let payload = color_payload(name);
        if is_ascii_digits(payload) && payload.len() <= 3 {
            (digits_value(payload) % 360) as u16
        } else {
            default_hue
        }
    } else {
        default_hue
    }
}

/// Whether the configured favorite identifier occurs in an advertised name.
pub open spec fn contains_id(name: Seq<u8>, id: Seq<u8>) -> bool {
    exists|i: int|
        0 <= i <= name.len() - id.len() && #[trigger] name.subrange(i, i + id.len()) == id
}

/// Naive substring search for the favorite identifier in a peer name.
fn contains_bytes(haystack: &[u8], needle: &Vec<u8>) -> (r: bool)
    requires
        needle@.len() >= 1,
    ensures
        r == contains_id(haystack@, needle@),
{
    let n = haystack.len();
    let m = needle.len();
    if n < m {
        return false;
    }
    let mut i: usize = 0;
    while i <= n - m
        invariant
            n == haystack@.len(),
            m == needle@.len(),
            1 <= m <= n,
            0 <= i <= n - m + 1,
            forall|k: int|
                0 <= k < i ==> #[trigger] haystack@.subrange(k, k + m) != needle@,
        decreases n - i,
    {
        let mut j: usize = 0;
        while j < m
            invariant_except_break
                n == haystack@.len(),
                m == needle@.len(),
                1 <= m <= n,
                0 <= i <= n - m,
                0 <= j <= m,
                forall|k: int| 0 <= k < j ==> haystack@[i + k] == needle@[k],
            ensures
                n == haystack@.len(),
                m == needle@.len(),
                0 <= i <= n - m,
                0 <= j <= m,
                forall|k: int| 0 <= k < j ==> haystack@[i + k] == needle@[k],
                j < m ==> haystack@[i + j] != needle@[j as int],
            decreases m - j,
        {
            if haystack[i + j] != needle[j] {
                break;
            }
            j = j + 1;
        }
        if j == m {
            proof {
                assert(haystack@.subrange(i as int, i + m) =~= needle@);
            }
            return true;
        }
        proof {
            assert(haystack@.subrange(i as int, i + m)[j as int] != needle@[j as int]);
        }
        i = i + 1;
    }
    proof {
        assert forall|k: int|
            0 <= k <= haystack@.len() - needle@.len() implies #[trigger] haystack@.subrange(
            k,
            k + needle@.len(),
        ) != needle@ by {}
    }
    false
}

/// Parse the hue angle embedded in a favorite name, falling back to the
/// default hue on a missing or malformed payload.
fn parse_favorite_hue(name: &[u8], default_hue: u16) -> (r: u16)
    requires
        default_hue < 360,
    ensures
        r == favorite_hue(name@, default_hue),
        r < 360,
{
    let n = name.len();
    let mut ci: usize = 0;
    while ci < n && name[ci] != COLOR_SEPARATOR
        invariant
            0 <= ci <= n,
            n == name@.len(),
            colon_free(name@, ci as int),
        decreases n - ci,
    {
        ci = ci + 1;
    }
    proof {
        if ci < n {
            lemma_colon_index_unique(name@, ci as int);
        } else {
            lemma_colon_index_none(name@);
        }
    }
    if ci == n {
        return default_hue;
    }
    let mut ce: usize = ci + 1;
    while ce < n && name[ce] != COLOR_SEPARATOR
        invariant
            ci + 1 <= ce <= n,
            n == name@.len(),
            forall|k: int| ci + 1 <= k < ce ==> name@[k] != COLOR_SEPARATOR,
        decreases n - ce,
    {
        ce = ce + 1;
    }
    let ghost rest = name@.skip(ci as int + 1);
    proof {
        assert forall|k: int| 0 <= k < ce - ci - 1 implies rest[k] != COLOR_SEPARATOR by {
            assert(rest[k] == name@[k + ci + 1]);
        }
        if ce < n {
            assert(rest[ce - ci - 1] == name@[ce as int]);
            lemma_colon_index_unique(rest, ce - ci - 1);
        } else {
            lemma_colon_index_none(rest);
        }
    }
    let ghost payload = color_payload(name@);
    proof {
        assert(payload =~= name@.subrange(ci as int + 1, ce as int));
    }
    let plen = ce - ci - 1;
    if plen == 0 || plen > 3 {
        return default_hue;
    }
    let mut val: u32 = 0;
    let mut j: usize = 0;
    while j < plen
        invariant
            0 <= j <= plen,
            1 <= plen <= 3,
            n == name@.len(),
            0 <= ci < n,
            ci + 1 + plen == ce,
            ce <= n,
            default_hue < 360,
            colon_index(name@) == ci as int,
            payload == color_payload(name@),
            payload == name@.subrange(ci as int + 1, ce as int),
            forall|k: int| 0 <= k < j ==> 48 <= #[trigger] payload[k] <= 57,
            val == digits_value(payload.take(j as int)),
            j == 0 ==> val == 0,
            j == 1 ==> val <= 9,
            j == 2 ==> val <= 99,
            j == 3 ==> val <= 999,
        decreases plen - j,
    {
        let b = name[ci + 1 + j];
        proof {
            assert(payload[j as int] == name@[ci + 1 + j]);
        }
        if b < 48 || b > 57 {
            return default_hue;
        }
        proof {
            assert(payload.take(j as int + 1).drop_last() =~= payload.take(j as int));
            assert(payload.take(j as int + 1).last() == payload[j as int]);
        }
        val = val * 10 + (b - 48) as u32;
        j = j + 1;
    }
    proof {
        assert(payload.take(plen as int) =~= payload);
        assert(is_ascii_digits(payload));
    }
    let r = (val % 360) as u16;
    r
}

/// One tracked peer.
#[derive(Debug)]
pub struct Device {
    pub address: u64,
    pub is_favorite: bool,
    pub favorite_color: Option<u16>,
    pub signal_strength: MovingAvg<SIGNAL_MOVING_AVG_WINDOW>,
    pub last_seen: u64,
    pub last_decay_time: Option<u64>,
    pub decay_rate: i32,
    pub decaying: bool,
}

/// The ghost image of a `Device`: the filter abstracted to its sample
/// window, newest sample last.
pub struct DeviceModel {
    pub address: u64,
    pub is_favorite: bool,
    pub favorite_color: Option<u16>,
    pub samples: Seq<i32>,
    pub last_seen: u64,
    pub last_decay_time: Option<u64>,
    pub decay_rate: i32,
    pub decaying: bool,
}

impl View for Device {
    type V = DeviceModel;

    open spec fn view(&self) -> DeviceModel {
        DeviceModel {
            address: self.address,
            is_favorite: self.is_favorite,
            favorite_color: self.favorite_color,
            samples: self.signal_strength@,
            last_seen: self.last_seen,
            last_decay_time: self.last_decay_time,
            decay_rate: self.decay_rate,
            decaying: self.decaying,
        }
    }
}

impl DeviceModel {
    /// The filtered signal: the truncating mean of the sample window.
    pub open spec fn avg(self) -> int {
        div_toward_zero(sum_of(self.samples), self.samples.len() as int)
    }

    /// A tracked device always holds at least one sample and never more
    /// than the window capacity, and an advertised favorite color is a
    /// color-wheel angle.
    pub open spec fn wf(self) -> bool {
        &&& 1 <= self.samples.len() <= SIGNAL_MOVING_AVG_WINDOW
        &&& match self.favorite_color {
            Some(c) => c < 360,
            None => true,
        }
    }
}

/// The decay rate recomputed from a raw reading: one tenth of it, rounded
/// toward zero.
pub open spec fn rate_of(signal: i32) -> i32 {
    div_toward_zero(signal as int, DECAY_RATE_DIVISOR as int) as i32
}

/// A re-observed device: fresh last-seen time, the new sample pushed into
/// its filter, decay cleared, and the decay rate recomputed.
pub open spec fn refreshed_model(m: DeviceModel, signal: i32, now: u64) -> DeviceModel {
    DeviceModel {
        samples: window_push(m.samples, signal, SIGNAL_MOVING_AVG_WINDOW as int),
        last_seen: now,
        decaying: false,
        decay_rate: rate_of(signal),
        ..m
    }
}

/// A newly admitted device, its filter seeded with one sample.
pub open spec fn admitted_model(
    addr: u64,
    is_fav: bool,
    color: Option<u16>,
    signal: i32,
    now: u64,
) -> DeviceModel {
    DeviceModel {
        address: addr,
        is_favorite: is_fav,
        favorite_color: color,
        samples: seq![signal],
        last_seen: now,
        last_decay_time: None,
        decay_rate: rate_of(signal),
        decaying: false,
    }
}

/// Whether a raw reading lies in the admissible non-favorite range.
pub open spec fn in_admission_range(signal: i32) -> bool {
    SIGNAL_IGNORE_BELOW_THRESHOLD <= signal <= SIGNAL_IGNORE_ABOVE_THRESHOLD
}

/// Saturating `i32` addition, used when synthesising decay samples.
pub open spec fn sat_add_i32(a: int, b: int) -> int {
    if a + b > i32::MAX {
        i32::MAX as int
    } else if a + b < i32::MIN {
        i32::MIN as int
    } else {
        a + b
    }
}

/// One decay pass over one device at time `now`: a device unseen for longer
/// than the decay delay starts decaying, and a decaying device has a sample
/// one decay rate below its last reading pushed into its filter.
pub open spec fn decayed_model(m: DeviceModel, now: u64) -> DeviceModel {
    let dec = m.decaying || now > m.last_seen + DECAY_DELAY;
    if dec {
        DeviceModel {
            decaying: true,
            last_decay_time: Some(now),
            samples: window_push(
                m.samples,
                sat_add_i32(m.samples.last() as int, m.decay_rate as int) as i32,
                SIGNAL_MOVING_AVG_WINDOW as int,
            ),
            ..m
        }
    } else {
        m
    }
}

/// A device survives a decay pass while its filtered average stays above
/// the low-signal threshold.
pub open spec fn survives(m: DeviceModel) -> bool {
    m.avg() > SIGNAL_IGNORE_BELOW_THRESHOLD
}

/// One decay pass over a whole registry: every device steps, and the ones
/// whose filtered average has fallen to the threshold or below are evicted.
pub open spec fn decay_pass(models: Seq<DeviceModel>, now: u64) -> Seq<DeviceModel> {
    models.map_values(|m: DeviceModel| decayed_model(m, now)).filter(
        |m: DeviceModel| survives(m),
    )
}

/// The ranking-relevant fields copied out of one tracked peer while the
/// tracker lock is held.
#[derive(Debug, Clone, Copy)]
pub struct SnapshotEntry {
    pub address: u64,
    pub is_favorite: bool,
    pub favorite_color: Option<u16>,
    /// The filtered signal at snapshot time.
    pub rssi: i32,
}

/// The snapshot image of one tracked peer.
pub open spec fn snap_of(m: DeviceModel) -> SnapshotEntry {
    SnapshotEntry {
        address: m.address,
        is_favorite: m.is_favorite,
        favorite_color: m.favorite_color,
        rssi: m.avg() as i32,
    }
}

/// Registry of observed peers, keyed by address.
#[derive(Debug)]
pub struct DeviceTracker {
    pub devices: Vec<Device>,
    /// Identifier that marks a peer name as the favorite peer.
    pub favorite_id: Vec<u8>,
    /// Hue used for a favorite whose advertised color is malformed.
    pub default_favorite_color: u16,
}

impl DeviceTracker {
    /// The tracked peers, as ghost images.
    pub open spec fn models(self) -> Seq<DeviceModel> {
        self.devices@.map_values(|d: Device| d@)
    }

    /// Whether some tracked peer has the given address.
    pub open spec fn has_address(self, addr: u64) -> bool {
        exists|i: int|
            0 <= i < self.models().len() && #[trigger] self.models()[i].address == addr
    }

    /// Addresses are unique, every device is well formed, and the favorite
    /// configuration is usable.
    pub open spec fn wf(self) -> bool {
        &&& forall|i: int, j: int|
            0 <= i < j < self.models().len() ==> #[trigger] self.models()[i].address
                != #[trigger] self.models()[j].address
        &&& forall|i: int|
            0 <= i < self.models().len() ==> (#[trigger] self.models()[i]).wf()
        &&& self.favorite_id@.len() >= 1
        &&& self.default_favorite_color < 360
    }

    pub fn new(favorite_id: Vec<u8>, default_favorite_color: u16) -> (r: Self)
        requires
            favorite_id@.len() >= 1,
            default_favorite_color < 360,
        ensures
            r.wf(),
            r.models() == Seq::<DeviceModel>::empty(),
            r.favorite_id@ == favorite_id@,
            r.default_favorite_color == default_favorite_color,
    {
        let r = Self { devices: Vec::new(), favorite_id, default_favorite_color };
        proof {
            assert(r.models() =~= Seq::<DeviceModel>::empty());
        }
        r
    }

    /// Record one observation. A known peer is refreshed; an unknown one is
    /// admitted exactly when its name marks it as the favorite or its raw
    /// signal lies within the admission range.
    pub fn update(&mut self, addr: u64, name: &[u8], signal_strength: i32, now: u64)
        requires
            old(self).wf(),
        ensures
            final(self).wf(),
            final(self).favorite_id@ == old(self).favorite_id@,
            final(self).default_favorite_color == old(self).default_favorite_color,
            old(self).has_address(addr) ==> exists|i: int|
                0 <= i < old(self).models().len() && old(self).models()[i].address == addr
                    && final(self).models() == old(self).models().update(
                    i,
                    refreshed_model(old(self).models()[i], signal_strength, now),
                ),
            !old(self).has_address(addr) && (contains_id(name@, old(self).favorite_id@)
                || in_admission_range(signal_strength)) ==> final(self).models() == old(
                self,
            ).models().push(
                admitted_model(
                    addr,
                    contains_id(name@, old(self).favorite_id@),
                    if contains_id(name@, old(self).favorite_id@) {
                        Some(favorite_hue(name@, old(self).default_favorite_color))
                    } else {
                        Option::<u16>::None
                    },
                    signal_strength,
                    now,
                ),
            ),
            !old(self).has_address(addr) && !(contains_id(name@, old(self).favorite_id@)
                || in_admission_range(signal_strength)) ==> final(self).models() == old(
                self,
            ).models(),
    {
        let n = self.devices.len();
        let mut i: usize = 0;
        while i < n
            invariant
                old(self).wf(),
                self == old(self),
                n == self.devices.len(),
                0 <= i <= n,
                forall|j: int| 0 <= j < i ==> self.models()[j].address != addr,
            decreases n - i,
        {
            if self.devices[i].address == addr {
                let mut d = self.devices.remove(i);
                d.last_seen = now;
                d.signal_strength.push(signal_strength);
                d.decaying = false;
                d.decay_rate = div_i32_toward_zero(signal_strength, DECAY_RATE_DIVISOR);
                self.devices.insert(i, d);
                proof {
                    assert(self.devices@ =~= old(self).devices@.update(i as int, d));
                    assert(self.models() =~= old(self).models().update(
                        i as int,
                        refreshed_model(old(self).models()[i as int], signal_strength, now),
                    ));
                }
                return;
            }
            i = i + 1;
        }
        proof {
            assert(!old(self).has_address(addr));
        }
        let is_favorite = contains_bytes(name, &self.favorite_id);
        if !is_favorite && !(SIGNAL_IGNORE_BELOW_THRESHOLD <= signal_strength
            && signal_strength <= SIGNAL_IGNORE_ABOVE_THRESHOLD) {
            return;
        }
        let favorite_color = if is_favorite {
            Some(parse_favorite_hue(name, self.default_favorite_color))
        } else {
            None
        };
        let mut filter: MovingAvg<SIGNAL_MOVING_AVG_WINDOW> = MovingAvg::new();
        filter.push(signal_strength);
        let d = Device {
            address: addr,
            is_favorite,
            favorite_color,
            signal_strength: filter,
            last_seen: now,
            last_decay_time: None,
            decay_rate: div_i32_toward_zero(signal_strength, DECAY_RATE_DIVISOR),
            decaying: false,
        };
        self.devices.push(d);
        proof {
            assert(d@.samples =~= seq![signal_strength]);
            assert(self.models() =~= old(self).models().push(
                admitted_model(
                    addr,
                    is_favorite,
                    favorite_color,
                    signal_strength,
                    now,
                ),
            ));
        }
    }
    /// One decay pass: mark stale devices as decaying, push a synthetic
    /// sample into every decaying device, and evict devices whose filtered
    /// average has crossed the low-signal threshold. This is the only place
    /// devices leave the registry.
    pub fn decay_tick(&mut self, now: u64)
        requires
            old(self).wf(),
        ensures
            final(self).wf(),
            final(self).favorite_id@ == old(self).favorite_id@,
            final(self).default_favorite_color == old(self).default_favorite_color,
            final(self).models() == decay_pass(old(self).models(), now),
    {
        let ghost orig = self.models();
        let ghost stepped = orig.map_values(|m: DeviceModel| decayed_model(m, now));
        let ghost keep_fn = |m: DeviceModel| survives(m);
        let mut kept: Vec<Device> = Vec::new();
        let total = self.devices.len();
        let mut k: usize = 0;
        proof {
            assert(stepped.take(0).filter(keep_fn) =~= Seq::<DeviceModel>::empty());
            assert(kept@.map_values(|d: Device| d@) =~= Seq::<DeviceModel>::empty());
            assert(self.devices@ =~= self.devices@.skip(0));
        }
        while k < total
            invariant
                total == orig.len(),
                0 <= k <= total,
                self.favorite_id@ == old(self).favorite_id@,
                self.default_favorite_color == old(self).default_favorite_color,
                self.favorite_id@.len() >= 1,
                self.default_favorite_color < 360,
                stepped == orig.map_values(|m: DeviceModel| decayed_model(m, now)),
                keep_fn == (|m: DeviceModel| survives(m)),
                forall|i: int, j: int|
                    0 <= i < j < orig.len() ==> #[trigger] orig[i].address
                        != #[trigger] orig[j].address,
                forall|i: int| 0 <= i < orig.len() ==> (#[trigger] orig[i]).wf(),
                self.devices@.map_values(|d: Device| d@) == orig.skip(k as int),
                kept@.map_values(|d: Device| d@) == stepped.take(k as int).filter(keep_fn),
                forall|i: int, j: int|
                    0 <= i < j < kept@.len() ==> #[trigger] kept@[i]@.address
                        != #[trigger] kept@[j]@.address,
                forall|i: int| 0 <= i < kept@.len() ==> (#[trigger] kept@[i]@).wf(),
                forall|i: int, j: int|
                    0 <= i < kept@.len() && k <= j < orig.len() ==> #[trigger] kept@[i]@.address
                        != #[trigger] orig[j].address,
            decreases total - k,
        {
            proof {
                assert(self.devices@.map_values(|d: Device| d@).len() == orig.skip(
                    k as int,
                ).len());
                assert(self.devices@.len() == total - k);
                assert(orig.skip(k as int)[0] == orig[k as int]);
                assert(self.devices@.map_values(|d: Device| d@)[0] == orig[k as int]);
            }
            let ghost devs_before = self.devices@;
            let mut d = self.devices.remove(0);
            proof {
                assert(d@ == orig[k as int]);
                assert(self.devices@ == devs_before.remove(0));
                assert forall|i: int| 0 <= i < self.devices@.len() implies self
                    .devices@.map_values(|d: Device| d@)[i] == #[trigger] orig.skip(
                    k as int + 1,
                )[i] by {
                    assert(self.devices@[i] == devs_before[i + 1]);
                    assert(devs_before.map_values(|d: Device| d@)[i + 1] == orig.skip(
                        k as int,
                    )[i + 1]);
                }
                assert(self.devices@.map_values(|d: Device| d@) =~= orig.skip(k as int + 1));
            }
            if now.saturating_sub(d.last_seen) > DECAY_DELAY {
                d.decaying = true;
            }
            if d.decaying {
                d.last_decay_time = Some(now);
                let last = d.signal_strength.peek_last();
                let synth = match last.checked_add(d.decay_rate) {
                    Some(v) => v,
                    None => if d.decay_rate >= 0 {
                        i32::MAX
                    } else {
                        i32::MIN
                    },
                };
                d.signal_strength.push(synth);
            }
            proof {
                assert(d@ == stepped[k as int]);
            }
            let avg = d.signal_strength.get_avg();
            let ghost kept_before = kept@.map_values(|d: Device| d@);
            if avg > SIGNAL_IGNORE_BELOW_THRESHOLD {
                kept.push(d);
            }
            proof {
                reveal(Seq::filter);
                assert(stepped.take(k as int + 1).drop_last() =~= stepped.take(k as int));
                assert(stepped.take(k as int + 1).last() == stepped[k as int]);
                if survives(stepped[k as int]) {
                    assert(kept@.map_values(|d: Device| d@) =~= kept_before.push(
                        stepped[k as int],
                    ));
                }
                assert(kept@.map_values(|d: Device| d@) == stepped.take(k as int + 1).filter(
                    keep_fn,
                ));
            }
            k = k + 1;
        }
        self.devices = kept;
        proof {
            assert(stepped.take(total as int) =~= stepped);
            assert(self.models() == decay_pass(orig, now));
        }
    }
    /// Copy out the ranking-relevant fields of every tracked peer. The
    /// render task calls this under the tracker lock and works on the copy.
    pub fn snapshot(&self) -> (r: Vec<SnapshotEntry>)
        requires
            self.wf(),
        ensures
            r@ == self.models().map_values(|m: DeviceModel| snap_of(m)),
    {
        let mut r: Vec<SnapshotEntry> = Vec::new();
        let n = self.devices.len();
        let mut i: usize = 0;
        proof {
            assert(r@ =~= self.models().map_values(|m: DeviceModel| snap_of(m)).take(0));
        }
        while i < n
            invariant
                self.wf(),
                n == self.devices.len(),
                0 <= i <= n,
                r@ == self.models().map_values(|m: DeviceModel| snap_of(m)).take(i as int),
            decreases n - i,
        {
            let d = &self.devices[i];
            proof {
                assert(self.models()[i as int] == d@);
                assert(self.models()[i as int].wf());
            }
            let entry = SnapshotEntry {
                address: d.address,
                is_favorite: d.is_favorite,
                favorite_color: d.favorite_color,
                rssi: d.signal_strength.get_avg(),
            };
            r.push(entry);
            proof {
                let all = self.models().map_values(|m: DeviceModel| snap_of(m));
                assert(all.take(i as int + 1).drop_last() =~= all.take(i as int));
                assert(all.take(i as int + 1).last() == snap_of(self.models()[i as int]));
                assert(r@ =~= all.take(i as int + 1));
            }
            i = i + 1;
        }
        proof {
            assert(self.models().map_values(|m: DeviceModel| snap_of(m)).take(n as int)
                =~= self.models().map_values(|m: DeviceModel| snap_of(m)));
        }
        r
    }
}

/// After a device has decayed long enough that its whole window is made of
/// synthesised samples (an arithmetic progression stepping by its decay
/// rate, all readings nonpositive), each further decay pass moves its
/// filtered average by exactly the decay rate: strictly toward eviction
/// while the rate is negative. A zero rate, or a window still mixing real
/// readings, can leave the truncated average unchanged for a pass.
pub proof fn lemma_decay_progression(m: DeviceModel, now: u64)
    requires
        m.samples.len() == SIGNAL_MOVING_AVG_WINDOW,
        forall|i: int|
            0 <= i < m.samples.len() - 1 ==> m.samples[i + 1] == #[trigger] m.samples[i]
                + m.decay_rate,
        forall|i: int| 0 <= i < m.samples.len() ==> #[trigger] m.samples[i] <= 0,
        m.decay_rate < 0,
        m.samples.last() + m.decay_rate >= i32::MIN,
        m.decaying || now > m.last_seen + DECAY_DELAY,
    ensures
        decayed_model(m, now).avg() == m.avg() + m.decay_rate,
        decayed_model(m, now).avg() < m.avg(),
{
    let w = SIGNAL_MOVING_AVG_WINDOW as int;
    let r = m.decay_rate as int;
    let s = m.samples;
    let synth = sat_add_i32(s.last() as int, r) as i32;
    assert(s.last() + r <= 0);
    assert(synth == s.last() + r);
    let stepped = decayed_model(m, now);
    assert(stepped.samples == s.skip(1).push(synth));
    lemma_sum_push(s.skip(1), synth);
    lemma_sum_skip_first(s);
    assert(s[1] == s[0] + r);
    assert(s[2] == s[1] + r);
    assert(s[3] == s[2] + r);
    assert(s[4] == s[3] + r);
    assert(s.last() == s[4]);
    assert(sum_of(stepped.samples) == sum_of(s) + w * r);
    lemma_sum_nonpos(s);
    lemma_sum_nonpos(stepped.samples);
    let a = -sum_of(s);
    vstd::arithmetic::div_mod::lemma_hoist_over_denominator(a, -r, w as nat);
    assert((a + (-r) * w) == -(sum_of(s) + w * r));
    assert(div_toward_zero(sum_of(stepped.samples), w) == div_toward_zero(sum_of(s), w)
        + r);
}

/// Decay passes only mutate and evict: an address absent from the
/// registry stays absent, however many passes run. Together with
/// `update`'s contract - the only way a device is ever added - an evicted
/// peer never reappears without a fresh observation.
pub proof fn lemma_decay_adds_no_peer(models: Seq<DeviceModel>, now: u64, addr: u64)
    requires
        forall|j: int| 0 <= j < models.len() ==> (#[trigger] models[j]).address != addr,
    ensures
        forall|i: int|
            0 <= i < decay_pass(models, now).len() ==> (#[trigger] decay_pass(
                models,
                now,
            )[i]).address != addr,
{
    let stepped = models.map_values(|m: DeviceModel| decayed_model(m, now));
    assert forall|j: int|
        0 <= j < stepped.len() implies (#[trigger] stepped[j]).address != addr by {
        assert(stepped[j] == decayed_model(models[j], now));
    }
    lemma_filter_keeps_no_addr(stepped, addr);
    assert(decay_pass(models, now) == survivors_of(stepped));
}

/// The devices a decay pass keeps.
spec fn survivors_of(s: Seq<DeviceModel>) -> Seq<DeviceModel> {
    s.filter(|m: DeviceModel| survives(m))
}

/// Filtering cannot introduce an address the input lacks.
proof fn lemma_filter_keeps_no_addr(s: Seq<DeviceModel>, addr: u64)
    requires
        forall|j: int| 0 <= j < s.len() ==> (#[trigger] s[j]).address != addr,
    ensures
        forall|i: int|
            0 <= i < survivors_of(s).len() ==> (#[trigger] survivors_of(s)[i]).address
                != addr,
    decreases s.len(),
{
    reveal(Seq::filter);
    if s.len() > 0 {
        lemma_filter_keeps_no_addr(s.drop_last(), addr);
        let kept = survivors_of(s);
        let prev = survivors_of(s.drop_last());
        assert forall|i: int|
            0 <= i < kept.len() implies (#[trigger] kept[i]).address != addr by {
            if i < prev.len() {
                assert(kept[i] == prev[i]);
            } else {
                assert(kept[i] == s.last());
            }
        }
    }
}

/// A window of nonpositive samples has a nonpositive sum.
proof fn lemma_sum_nonpos(s: Seq<i32>)
    requires
        forall|i: int| 0 <= i < s.len() ==> s[i] <= 0,
    ensures
        sum_of(s) <= 0,
    decreases s.len(),
{
    if s.len() > 0 {
        lemma_sum_nonpos(s.drop_last());
    }
}

} // verus!
