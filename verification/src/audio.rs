//! The decisions of the audio pipeline, apart from the devices and the codec:
//! which rate and configuration to run a device at, which device to use, when
//! a stream is dead, when playback may drain, when the microphone is encoded,
//! how a microphone frame is folded to mono, and how several talkers are
//! mixed into one frame.

use vstd::prelude::*;

verus! {

/// Every rate Opus accepts, best first.
pub const OPUS_RATES: [u32; 5] = [48_000, 24_000, 16_000, 12_000, 8_000];
/// 20 ms at the highest rate — the largest frame any buffer has to hold.
pub const MAX_FRAME: usize = 960;
/// How many 20 ms frames a ring may hold — roughly 160 ms of slack.
pub const RING_FRAMES: usize = 8;
/// Consecutive one-second polls with no callback at all before a stream is
/// declared dead.
pub const DEAD_STREAM_POLLS: u32 = 3;
/// How many rebuilds a dead capture stream gets at the fast cadence before
/// the retry slows down.
pub const CAPTURE_REBUILDS: u32 = 2;
/// The slow cadence, in polls.
pub const CAPTURE_BACKOFF_POLLS: u32 = 60;
/// Frames banked before playback starts draining.
pub const PRIME_FRAMES: usize = 3;

/// Which devices to use, by name, or the system default when `None`.
#[derive(Clone, Debug, Default)]
pub struct Prefs {
    pub input: Option<String>,
    pub output: Option<String>,
}

/// One encoded 20 ms frame, carrying the sample count it represents: the
/// packet timestamp advances by the sender's frame size.
pub struct Frame {
    pub data: Vec<u8>,
    pub samples: u32,
}

pub open spec fn is_opus_rate(hz: u32) -> bool {
    hz == 48_000 || hz == 24_000 || hz == 16_000 || hz == 12_000 || hz == 8_000
}

/// The Opus rate at or below `hz`, so no bandwidth is invented that the
/// device never captured; the lowest when `hz` is below all of them.
pub open spec fn spec_nearest_opus(hz: u32) -> u32 {
    if hz >= 48_000 {
        48_000
    } else if hz >= 24_000 {
        24_000
    } else if hz >= 16_000 {
        16_000
    } else if hz >= 12_000 {
        12_000
    } else {
        8_000
    }
}

/// Whether Opus takes `hz` directly.
pub fn opus_accepts(hz: u32) -> (r: bool)
    ensures
        r == is_opus_rate(hz),
{
    let mut i: usize = 0;
    while i < 5
        invariant
            i <= 5,
            forall|j: int| 0 <= j < i ==> OPUS_RATES@[j] != hz,
        decreases 5 - i,
    {
        if OPUS_RATES[i] == hz {
            return true;
        }
        i = i + 1;
    }
    false
}

/// The Opus rate to run at for a device that does not offer one itself: the
/// first of `OPUS_RATES` at or below the device's rate, or the last of them.
pub fn nearest_opus(hz: u32) -> (r: u32)
    ensures
        r == spec_nearest_opus(hz),
        is_opus_rate(r),
{
    let mut i: usize = 0;
    while i < 5
        invariant
            i <= 5,
            forall|j: int| 0 <= j < i ==> OPUS_RATES@[j] > hz,
        decreases 5 - i,
    {
        if OPUS_RATES[i] <= hz {
            return OPUS_RATES[i];
        }
        i = i + 1;
    }
    OPUS_RATES[4]
}

/// The rate the codec runs at beside a device running at `hz`: the device's
/// own when Opus takes it, otherwise the nearest below.
pub open spec fn spec_codec_rate(hz: u32) -> u32 {
    if is_opus_rate(hz) {
        hz
    } else {
        spec_nearest_opus(hz)
    }
}

pub fn codec_rate(hz: u32) -> (r: u32)
    ensures
        r == spec_codec_rate(hz),
        is_opus_rate(r),
{
    if opus_accepts(hz) {
        hz
    } else {
        nearest_opus(hz)
    }
}

/// 20 ms at `hz`.
pub fn frame_len(hz: u32) -> (r: usize)
    ensures
        r == hz / 50,
{
    (hz / 50) as usize
}

/// The codec's rates.
#[derive(Clone, Copy, Debug, PartialEq, Eq, Structural)]
pub enum OpusRate {
    Hz48000,
    Hz24000,
    Hz16000,
    Hz12000,
    Hz8000,
}

/// Why the pipeline cannot use what it was given.
#[derive(Clone, Debug, PartialEq, Eq)]
pub enum AudioError {
    /// A rate Opus does not have; a bug in the caller, not something a
    /// device can cause.
    NotAnOpusRate(u32),
}

pub open spec fn spec_opus_rate(hz: u32) -> Option<OpusRate> {
    if hz == 48_000 {
        Some(OpusRate::Hz48000)
    } else if hz == 24_000 {
        Some(OpusRate::Hz24000)
    } else if hz == 16_000 {
        Some(OpusRate::Hz16000)
    } else if hz == 12_000 {
        Some(OpusRate::Hz12000)
    } else if hz == 8_000 {
        Some(OpusRate::Hz8000)
    } else {
        None
    }
}

/// Map a rate to the codec's enum.
pub fn opus_rate(hz: u32) -> (r: Result<OpusRate, AudioError>)
    ensures
        match spec_opus_rate(hz) {
            Some(o) => r == Ok::<OpusRate, AudioError>(o),
            None => r == Err::<OpusRate, AudioError>(AudioError::NotAnOpusRate(hz)),
        },
{
    if hz == 48_000 {
        Ok(OpusRate::Hz48000)
    } else if hz == 24_000 {
        Ok(OpusRate::Hz24000)
    } else if hz == 16_000 {
        Ok(OpusRate::Hz16000)
    } else if hz == 12_000 {
        Ok(OpusRate::Hz12000)
    } else if hz == 8_000 {
        Ok(OpusRate::Hz8000)
    } else {
        Err(AudioError::NotAnOpusRate(hz))
    }
}

/// A device's sample format, as far as the callbacks care.
#[derive(Clone, Copy, Debug, PartialEq, Eq, Structural)]
pub enum SampleFormat {
    F32,
    I16,
    /// Anything the callbacks do not implement.
    Other,
}

/// Formats the stream callbacks implement, best first.
pub open spec fn usable_format(f: SampleFormat) -> bool {
    f == SampleFormat::F32 || f == SampleFormat::I16
}

/// The `k`-th of the usable formats, best first.
pub open spec fn format_at(k: int) -> SampleFormat {
    if k == 0 {
        SampleFormat::F32
    } else {
        SampleFormat::I16
    }
}

/// One configuration a device offers.
#[derive(Clone, Copy, Debug, PartialEq, Eq, Structural)]
pub struct StreamConfig {
    pub rate: u32,
    pub format: SampleFormat,
    pub channels: u16,
}

/// A range of configurations a device offers.
#[derive(Clone, Copy, Debug, PartialEq, Eq, Structural)]
pub struct ConfigRange {
    pub format: SampleFormat,
    pub channels: u16,
    pub min_rate: u32,
    pub max_rate: u32,
}

/// Which configuration to run a device at.
#[derive(Clone, Copy, Debug, PartialEq, Eq, Structural)]
pub enum Choice {
    /// The device's own default configuration.
    Default,
    /// Range `index` of the offered ones, at `rate`.
    Range { index: usize, rate: u32 },
}

/// Why no configuration could be chosen.
#[derive(Clone, Debug, PartialEq, Eq)]
pub enum PickError {
    /// The device would not say what it offers.
    Unlisted(String),
    /// Nothing it offers is usable; what it offers is attached.
    NoUsable(Vec<ConfigRange>),
}

pub open spec fn range_fits(r: ConfigRange, hz: u32, f: SampleFormat) -> bool {
    r.format == f && r.min_rate <= hz && hz <= r.max_rate
}

/// Range `i` fits, has the fewest channels of those that fit, and no earlier
/// one that fits has as few.
pub open spec fn is_best(rs: Seq<ConfigRange>, hz: u32, f: SampleFormat, i: int) -> bool {
    &&& 0 <= i < rs.len()
    &&& range_fits(rs[i], hz, f)
    &&& forall|j: int|
        0 <= j < rs.len() && range_fits(#[trigger] rs[j], hz, f) ==> rs[i].channels <= rs[j].channels
    &&& forall|j: int| 0 <= j < i && range_fits(#[trigger] rs[j], hz, f) ==> rs[i].channels < rs[j].channels
}

/// The first of the fitting ranges with the fewest channels.
pub open spec fn best_fit(rs: Seq<ConfigRange>, hz: u32, f: SampleFormat) -> Option<int> {
    if exists|i: int| 0 <= i < rs.len() && range_fits(#[trigger] rs[i], hz, f) {
        Some(choose|i: int| is_best(rs, hz, f, i))
    } else {
        None
    }
}

/// The search through rates (best first), then formats, then fewest
/// channels, from combination `c` on (rate `c / 2`, format `c % 2`).
pub open spec fn search_from(rs: Seq<ConfigRange>, c: nat) -> Option<Choice>
    decreases 10 - c,
{
    if c >= 10 {
        None
    } else {
        let hz = OPUS_RATES@[(c / 2) as int];
        match best_fit(rs, hz, format_at((c % 2) as int)) {
            Some(i) => Some(Choice::Range { index: i as usize, rate: hz }),
            None => search_from(rs, c + 1),
        }
    }
}

/// Whether a default configuration can be used as it is.
pub open spec fn default_direct(d: Option<StreamConfig>) -> bool {
    d matches Some(c) && is_opus_rate(c.rate) && usable_format(c.format)
}

fn best_fit_exec(rs: &Vec<ConfigRange>, hz: u32, f: SampleFormat) -> (r: Option<usize>)
    ensures
        match best_fit(rs@, hz, f) {
            Some(i) => r == Some(i as usize),
            None => r is None,
        },
{
    let mut best: Option<usize> = None;
    let mut i: usize = 0;
    while i < rs.len()
        invariant
            i <= rs@.len(),
            match best {
                None => forall|j: int| 0 <= j < i ==> !range_fits(#[trigger] rs@[j], hz, f),
                Some(b) => {
                    &&& b < i
                    &&& range_fits(rs@[b as int], hz, f)
                    &&& forall|j: int|
                        0 <= j < i && range_fits(#[trigger] rs@[j], hz, f) ==> rs@[b as int].channels
                            <= rs@[j].channels
                    &&& forall|j: int|
                        0 <= j < b && range_fits(#[trigger] rs@[j], hz, f) ==> rs@[b as int].channels
                            < rs@[j].channels
                },
            },
        decreases rs@.len() - i,
    {
        let r = rs[i];
        if r.format == f && r.min_rate <= hz && hz <= r.max_rate {
            match best {
                None => {
                    best = Some(i);
                },
                Some(b) => {
                    if r.channels < rs[b].channels {
                        best = Some(i);
                    }
                },
            }
        }
        i = i + 1;
    }
    proof {
        match best {
            None => {},
            Some(b) => {
                assert(is_best(rs@, hz, f, b as int));
                let c = choose|k: int| is_best(rs@, hz, f, k);
                assert(is_best(rs@, hz, f, c));
                if c < b {
                    assert(rs@[b as int].channels <= rs@[c].channels);
                } else if c > b {
                    assert(rs@[c].channels <= rs@[b as int].channels);
                }
                assert(c == b);
            },
        }
    }
    best
}

/// The best range at an Opus rate: rates best first, then formats best
/// first, then the fewest channels.
fn search(rs: &Vec<ConfigRange>) -> (r: Option<Choice>)
    ensures
        r == search_from(rs@, 0),
{
    let mut c: usize = 0;
    while c < 10
        invariant
            c <= 10,
            search_from(rs@, 0) == search_from(rs@, c as nat),
        decreases 10 - c,
    {
        let hz = OPUS_RATES[c / 2];
        let f = if c % 2 == 0 {
            SampleFormat::F32
        } else {
            SampleFormat::I16
        };
        assert(f == format_at((c % 2) as int));
        match best_fit_exec(rs, hz, f) {
            Some(i) => {
                return Some(Choice::Range { index: i, rate: hz });
            },
            None => {},
        }
        c = c + 1;
    }
    None
}

/// The best configuration a device offers: its default when Opus takes it as
/// it is (a shared-mode device accepts nothing else); otherwise the best range
/// at an Opus rate; otherwise the default again, to be resampled around, when
/// its format is usable. `ranges` is what the device says it offers, or why it
/// would not say; it is looked at only when the default will not do.
pub fn pick(default: Option<StreamConfig>, ranges: Result<Vec<ConfigRange>, String>) -> (r: Result<
    Choice,
    PickError,
>)
    ensures
        default_direct(default) ==> r == Ok::<Choice, PickError>(Choice::Default),
        !default_direct(default) ==> match ranges {
            Err(e) => r matches Err(PickError::Unlisted(m)) && m@ == e@,
            Ok(rs) => match search_from(rs@, 0) {
                Some(c) => r == Ok::<Choice, PickError>(c),
                None => if default matches Some(d) && usable_format(d.format) {
                    r == Ok::<Choice, PickError>(Choice::Default)
                } else {
                    r matches Err(PickError::NoUsable(v)) && v@ == rs@
                },
            },
        },
{
    if let Some(d) = default {
        let ok_format = d.format == SampleFormat::F32 || d.format == SampleFormat::I16;
        if opus_accepts(d.rate) && ok_format {
            return Ok(Choice::Default);
        }
    }
    let rs = match ranges {
        Ok(rs) => rs,
        Err(e) => {
            return Err(PickError::Unlisted(e));
        },
    };
    if let Some(c) = search(&rs) {
        return Ok(c);
    }
    if let Some(d) = default {
        if d.format == SampleFormat::F32 || d.format == SampleFormat::I16 {
            return Ok(Choice::Default);
        }
    }
    Err(PickError::NoUsable(rs))
}

/// Where `hz` stands among `OPUS_RATES`.
pub open spec fn rate_index(hz: u32) -> int {
    if hz == 48_000 {
        0
    } else if hz == 24_000 {
        1
    } else if hz == 16_000 {
        2
    } else if hz == 12_000 {
        3
    } else {
        4
    }
}

/// Where `f` stands among the usable formats.
pub open spec fn format_index(f: SampleFormat) -> int {
    if f == SampleFormat::F32 {
        0
    } else {
        1
    }
}

/// No range fits combination `m` of the search (rate `m / 2`, format
/// `m % 2`).
pub open spec fn nothing_fits(rs: Seq<ConfigRange>, m: int) -> bool {
    forall|j: int| 0 <= j < rs.len() ==> !range_fits(#[trigger] rs[j], OPUS_RATES@[m / 2], format_at(m % 2))
}

proof fn lemma_rates()
    ensures
        forall|i: int| 0 <= i < 5 ==> is_opus_rate(#[trigger] OPUS_RATES@[i]) && rate_index(OPUS_RATES@[i]) == i,
        forall|hz: u32| #[trigger] is_opus_rate(hz) ==> 0 <= rate_index(hz) < 5 && OPUS_RATES@[rate_index(hz)] == hz,
{
    assert(OPUS_RATES@[0] == 48_000);
    assert(OPUS_RATES@[1] == 24_000);
    assert(OPUS_RATES@[2] == 16_000);
    assert(OPUS_RATES@[3] == 12_000);
    assert(OPUS_RATES@[4] == 8_000);
}

/// When one of the first `n` ranges fits, the first of the fitting ones with
/// the fewest channels is at `b`.
proof fn lemma_best_in_prefix(rs: Seq<ConfigRange>, hz: u32, f: SampleFormat, n: int) -> (b: int)
    requires
        0 <= n <= rs.len(),
        exists|j: int| 0 <= j < n && range_fits(#[trigger] rs[j], hz, f),
    ensures
        0 <= b < n,
        range_fits(rs[b], hz, f),
        forall|j: int| 0 <= j < n && range_fits(#[trigger] rs[j], hz, f) ==> rs[b].channels <= rs[j].channels,
        forall|j: int| 0 <= j < b && range_fits(#[trigger] rs[j], hz, f) ==> rs[b].channels < rs[j].channels,
    decreases n,
{
    let t = n - 1;
    if range_fits(rs[t], hz, f) {
        if exists|j: int| 0 <= j < t && range_fits(#[trigger] rs[j], hz, f) {
            let b0 = lemma_best_in_prefix(rs, hz, f, t);
            if rs[t].channels < rs[b0].channels {
                t
            } else {
                b0
            }
        } else {
            t
        }
    } else {
        let w = choose|j: int| 0 <= j < n && range_fits(#[trigger] rs[j], hz, f);
        assert(w < t);
        lemma_best_in_prefix(rs, hz, f, t)
    }
}

proof fn lemma_best_fit(rs: Seq<ConfigRange>, hz: u32, f: SampleFormat)
    ensures
        best_fit(rs, hz, f) is None <==> forall|j: int| 0 <= j < rs.len() ==> !range_fits(#[trigger] rs[j], hz, f),
        best_fit(rs, hz, f) matches Some(i) ==> is_best(rs, hz, f, i),
{
    if exists|j: int| 0 <= j < rs.len() && range_fits(#[trigger] rs[j], hz, f) {
        let b = lemma_best_in_prefix(rs, hz, f, rs.len() as int);
        assert(is_best(rs, hz, f, b));
    }
}

/// The search from combination `c` on stops at combination `k`, the first
/// from `c` at which something fits, or runs out at the end.
proof fn lemma_search_stops(rs: Seq<ConfigRange>, c: nat) -> (k: int)
    requires
        c <= 10,
    ensures
        c <= k <= 10,
        forall|m: int| c <= m < k ==> #[trigger] nothing_fits(rs, m),
        k < 10 ==> (best_fit(rs, OPUS_RATES@[k / 2], format_at(k % 2)) matches Some(i) && search_from(rs, c)
            == Some(Choice::Range { index: i as usize, rate: OPUS_RATES@[k / 2] }) && is_best(
            rs,
            OPUS_RATES@[k / 2],
            format_at(k % 2),
            i,
        )),
        k == 10 ==> search_from(rs, c) is None,
    decreases 10 - c,
{
    if c >= 10 {
        10
    } else {
        let hz = OPUS_RATES@[(c / 2) as int];
        let f = format_at((c % 2) as int);
        lemma_best_fit(rs, hz, f);
        match best_fit(rs, hz, f) {
            Some(i) => c as int,
            None => {
                let k = lemma_search_stops(rs, c + 1);
                assert(nothing_fits(rs, c as int));
                k
            },
        }
    }
}

/// How a configuration is chosen from the ranges a device offers: the best
/// rate wins first, the format only decides between ranges at that rate, and
/// the channel count only between ranges of that rate and format. The range
/// chosen is usable and runs at an Opus rate it covers; no usable range
/// covers a higher Opus rate; I16 is taken only when no F32 range covers the
/// rate; nothing of that format at that rate has fewer channels. Nothing is
/// chosen exactly when no usable range covers any Opus rate.
pub proof fn lemma_search_prefers_rate_then_format(rs: Seq<ConfigRange>)
    requires
        rs.len() <= usize::MAX,
    ensures
        search_from(rs, 0) matches Some(Choice::Range { index, rate }) ==> {
            &&& index < rs.len()
            &&& is_opus_rate(rate)
            &&& usable_format(rs[index as int].format)
            &&& rs[index as int].min_rate <= rate <= rs[index as int].max_rate
            &&& forall|j: int, hz: u32|
                #![trigger rs[j], is_opus_rate(hz)]
                0 <= j < rs.len() && is_opus_rate(hz) && rate < hz && usable_format(rs[j].format) ==> !(
                rs[j].min_rate <= hz <= rs[j].max_rate)
            &&& rs[index as int].format == SampleFormat::I16 ==> forall|j: int|
                0 <= j < rs.len() && (#[trigger] rs[j]).format == SampleFormat::F32 ==> !(rs[j].min_rate
                    <= rate <= rs[j].max_rate)
            &&& forall|j: int|
                0 <= j < rs.len() && (#[trigger] rs[j]).format == rs[index as int].format && rs[j].min_rate
                    <= rate <= rs[j].max_rate ==> rs[index as int].channels <= rs[j].channels
        },
        !(search_from(rs, 0) matches Some(Choice::Default)),
        search_from(rs, 0) is None <==> forall|j: int, hz: u32|
            #![trigger rs[j], is_opus_rate(hz)]
            0 <= j < rs.len() && is_opus_rate(hz) && usable_format(rs[j].format) ==> !(rs[j].min_rate <= hz
                <= rs[j].max_rate),
{
    lemma_rates();
    let k = lemma_search_stops(rs, 0);
    if k < 10 {
        let rate = OPUS_RATES@[k / 2];
        let f = format_at(k % 2);
        let i = best_fit(rs, rate, f)->0;
        assert(is_opus_rate(rate));
        assert forall|j: int, hz: u32|
            #![trigger rs[j], is_opus_rate(hz)]
            0 <= j < rs.len() && is_opus_rate(hz) && rate < hz && usable_format(rs[j].format) implies !(
            rs[j].min_rate <= hz <= rs[j].max_rate) by {
            let m = 2 * rate_index(hz) + format_index(rs[j].format);
            assert(rate_index(hz) < k / 2);
            assert(m / 2 == rate_index(hz));
            assert(nothing_fits(rs, m));
        }
        if rs[i].format == SampleFormat::I16 {
            assert(k % 2 == 1);
            assert forall|j: int|
                0 <= j < rs.len() && (#[trigger] rs[j]).format == SampleFormat::F32 implies !(rs[j].min_rate
                    <= rate <= rs[j].max_rate) by {
                assert((k - 1) / 2 == k / 2);
                assert(nothing_fits(rs, k - 1));
            }
        }
    } else {
        assert forall|j: int, hz: u32|
            #![trigger rs[j], is_opus_rate(hz)]
            0 <= j < rs.len() && is_opus_rate(hz) && usable_format(rs[j].format) implies !(rs[j].min_rate
                <= hz <= rs[j].max_rate) by {
            let m = 2 * rate_index(hz) + format_index(rs[j].format);
            assert(m / 2 == rate_index(hz));
            assert(nothing_fits(rs, m));
        }
    }
}

/// Which device to use for one direction.
#[derive(Clone, Copy, Debug, PartialEq, Eq, Structural)]
pub enum DeviceChoice {
    /// The device at this position in the list offered.
    Named(usize),
    /// The system default; `missing` when a device was asked for by name and
    /// is not here, which is worth saying.
    Default { missing: bool },
}

/// The device asked for by name, when it is in the list the host offers;
/// otherwise the default. A chosen device that is no longer present falls
/// back to the default rather than refusing to start. `names` is `None` when
/// the host would not list its devices.
pub fn choose_device(want: Option<&String>, names: Option<&Vec<String>>) -> (r: DeviceChoice)
    ensures
        (want is None) ==> r == (DeviceChoice::Default { missing: false }),
        (want is Some && names is None) ==> r == (DeviceChoice::Default { missing: true }),
        (want is Some && names is Some) ==> (match r {
            DeviceChoice::Named(i) => {
                &&& i < names->0@.len()
                &&& names->0@[i as int]@ == want->0@
                &&& forall|j: int| 0 <= j < i ==> (#[trigger] names->0@[j])@ != want->0@
            },
            DeviceChoice::Default { missing } => {
                &&& missing
                &&& forall|j: int| 0 <= j < names->0@.len() ==> (#[trigger] names->0@[j])@ != want->0@
            },
        }),
{
    let w = match want {
        None => {
            return DeviceChoice::Default { missing: false };
        },
        Some(w) => w,
    };
    let ns = match names {
        None => {
            return DeviceChoice::Default { missing: true };
        },
        Some(ns) => ns,
    };
    let mut i: usize = 0;
    while i < ns.len()
        invariant
            want == Some(w),
            names == Some(ns),
            i <= ns@.len(),
            forall|j: int| 0 <= j < i ==> (#[trigger] ns@[j])@ != w@,
        decreases ns@.len() - i,
    {
        if ns[i] == *w {
            assert(ns@[i as int]@ == w@);
            return DeviceChoice::Named(i);
        }
        i = i + 1;
    }
    DeviceChoice::Default { missing: true }
}

/// The name of the device in use for one direction, for noticing a change:
/// the preference when one is pinned (the default changing underneath is
/// then none of our business), otherwise the current default.
pub fn watched_device(want: &Option<String>, default: Option<String>) -> (r: Option<String>)
    ensures
        match want {
            Some(w) => r matches Some(n) && n@ == w@,
            None => r == default,
        },
{
    match want {
        Some(w) => Some(w.clone()),
        None => default,
    }
}

/// Why a generation of the pipeline is being torn down.
#[derive(Clone, Copy, Debug, PartialEq, Eq, Structural)]
pub enum Rebuild {
    /// The devices in use are no longer the ones it was built on.
    DevicesChanged,
    /// The playback callback has stopped being called.
    PlaybackDead,
    /// The capture callback has stopped being called.
    CaptureDead,
}

/// Watching one generation of streams for signs of life.
///
/// A stream can be open, report no error, and never be called again — which
/// is what an app started at login before the audio endpoint was ready looks
/// like. Each callback counts its calls; a count that stops moving for long
/// enough is a dead stream.
pub struct Watch {
    pub has_output: bool,
    pub last_out: u64,
    pub quiet: u32,
    pub has_input: bool,
    pub last_in: u64,
    pub in_quiet: u32,
}

/// How many silent polls a capture stream is allowed, given how many rebuilds
/// in a row have already failed to bring it back.
pub open spec fn patience(attempts: u32) -> u32 {
    if attempts < CAPTURE_REBUILDS {
        DEAD_STREAM_POLLS
    } else {
        CAPTURE_BACKOFF_POLLS
    }
}

impl Watch {
    pub open spec fn wf(&self) -> bool {
        &&& self.quiet < DEAD_STREAM_POLLS
        &&& self.in_quiet < CAPTURE_BACKOFF_POLLS
        &&& !self.has_output ==> self.quiet == 0
        &&& !self.has_input ==> self.in_quiet == 0
    }

    /// Watching streams whose callbacks have been called `out_pulse` and
    /// `in_pulse` times so far.
    pub fn new(has_output: bool, out_pulse: u64, has_input: bool, in_pulse: u64) -> (r: Self)
        ensures
            r.wf(),
            r.quiet == 0,
            r.in_quiet == 0,
            r.has_output == has_output && r.last_out == out_pulse,
            r.has_input == has_input && r.last_in == in_pulse,
    {
        Watch { has_output, last_out: out_pulse, quiet: 0, has_input, last_in: in_pulse, in_quiet: 0 }
    }

    /// One poll. `devices_changed` says whether the devices in use differ
    /// from those the streams were built on; the pulses are the callbacks'
    /// call counts now; `attempts` counts capture rebuilds in a row that did
    /// not bring the microphone back, across generations.
    ///
    /// A change of devices rebuilds at once. Playback that has not been
    /// called for `DEAD_STREAM_POLLS` polls in a row rebuilds. Capture that
    /// has not been called for `patience(attempts)` polls in a row rebuilds
    /// and counts an attempt; capture that is heard from clears the attempts,
    /// so the next failure gets the fast cadence again.
    pub fn poll(&mut self, devices_changed: bool, out_pulse: u64, in_pulse: u64, attempts: &mut u32) -> (r:
        Option<Rebuild>)
        requires
            old(self).wf(),
            *old(attempts) < u32::MAX,
        ensures
            final(self).wf(),
            devices_changed ==> r == Some(Rebuild::DevicesChanged) && *final(attempts) == *old(attempts),
            !devices_changed ==> {
                let out_dead = old(self).has_output && out_pulse == old(self).last_out
                    && old(self).quiet + 1 >= DEAD_STREAM_POLLS;
                let in_silent = old(self).has_input && in_pulse == old(self).last_in;
                let in_dead = in_silent && old(self).in_quiet + 1 >= patience(*old(attempts));
                if out_dead {
                    r == Some(Rebuild::PlaybackDead) && *final(attempts) == *old(attempts)
                } else if in_dead {
                    r == Some(Rebuild::CaptureDead) && *final(attempts) == *old(attempts) + 1
                } else {
                    &&& r is None
                    &&& final(self).quiet == (if old(self).has_output && out_pulse
                        == old(self).last_out {
                        old(self).quiet + 1
                    } else {
                        0
                    })
                    &&& final(self).in_quiet == (if in_silent {
                        old(self).in_quiet + 1
                    } else {
                        0
                    })
                    &&& *final(attempts) == (if old(self).has_input && !in_silent {
                        0
                    } else {
                        *old(attempts)
                    })
                }
            },
    {
        if devices_changed {
            return Some(Rebuild::DevicesChanged);
        }
        if self.has_output {
            if out_pulse == self.last_out {
                if self.quiet + 1 >= DEAD_STREAM_POLLS {
                    return Some(Rebuild::PlaybackDead);
                }
                self.quiet = self.quiet + 1;
            } else {
                self.quiet = 0;
                self.last_out = out_pulse;
            }
        }
        if self.has_input {
            let patience = if *attempts < CAPTURE_REBUILDS {
                DEAD_STREAM_POLLS
            } else {
                CAPTURE_BACKOFF_POLLS
            };
            if in_pulse == self.last_in {
                if self.in_quiet + 1 >= patience {
                    *attempts = *attempts + 1;
                    return Some(Rebuild::CaptureDead);
                }
                self.in_quiet = self.in_quiet + 1;
            } else {
                self.in_quiet = 0;
                self.last_in = in_pulse;
                *attempts = 0;
            }
        }
        None
    }
}

/// What the playback callback does with one buffer.
#[derive(Clone, Copy, Debug, PartialEq, Eq, Structural)]
pub struct Step {
    /// Drain the ring into the buffer; otherwise fill it with silence.
    pub play: bool,
    /// The buffer went out silent because the ring was short.
    pub underrun: bool,
    /// Playback had banked enough to start draining again.
    pub reprimed: bool,
}

/// Playback priming. The decoder delivers a whole frame at once while the
/// callback asks on its own schedule, so the ring is routinely a few samples
/// short; filling that shortfall with zeros puts a gap inside a frame, heard
/// as a screech. So: stay quiet until a few frames have banked, then drain
/// whole callbacks only; if it ever runs dry, go quiet and bank again.
pub struct Playback {
    pub primed: bool,
}

impl Playback {
    pub fn new() -> (r: Self)
        ensures
            !r.primed,
    {
        Playback { primed: false }
    }

    /// One callback: `have` samples are in the ring, `need` are asked for, and
    /// `prime` must bank before draining starts. While transmitting the
    /// speakers stay silent — the echo path never exists — and nothing else
    /// changes.
    pub fn step(&mut self, transmitting: bool, have: usize, need: usize, prime: usize) -> (r: Step)
        ensures
            transmitting ==> r == (Step { play: false, underrun: false, reprimed: false })
                && final(self).primed == old(self).primed,
            !transmitting && !old(self).primed && have < prime ==> r == (Step {
                play: false,
                underrun: true,
                reprimed: false,
            }) && !final(self).primed,
            !transmitting && (old(self).primed || have >= prime) ==> {
                &&& r.reprimed == !old(self).primed
                &&& r.play == (have >= need)
                &&& r.underrun == (have < need)
                &&& final(self).primed == (have >= need)
            },
    {
        if transmitting {
            return Step { play: false, underrun: false, reprimed: false };
        }
        let mut reprimed = false;
        if !self.primed {
            if have < prime {
                return Step { play: false, underrun: true, reprimed: false };
            }
            self.primed = true;
            reprimed = true;
        }
        if have < need {
            self.primed = false;
            return Step { play: false, underrun: true, reprimed };
        }
        Step { play: true, underrun: false, reprimed }
    }
}

/// What the encoder does with what capture has banked.
#[derive(Clone, Copy, Debug, PartialEq, Eq, Structural)]
pub enum Capture {
    /// Less than a frame banked: wait for more.
    Wait,
    /// Take a frame off the ring and throw it away: the talk key is up.
    Discard,
    /// Take a frame off the ring and encode it.
    Encode,
}

/// One turn of the encoder: `have` samples are banked and a frame is `frame`
/// samples. A frame is taken whenever one is there, key or no key — left in
/// the ring while the key is up, the first thing heard after pressing it
/// would be stale room noise — and encoded only while transmitting, so
/// nothing goes out unless the key is held.
pub fn capture_step(have: usize, frame: usize, transmitting: bool) -> (r: Capture)
    ensures
        have < frame ==> r == Capture::Wait,
        have >= frame && !transmitting ==> r == Capture::Discard,
        have >= frame && transmitting ==> r == Capture::Encode,
{
    if have < frame {
        Capture::Wait
    } else if transmitting {
        Capture::Encode
    } else {
        Capture::Discard
    }
}

/// A frame made up to exactly `len` samples: the first `n` of `got`, then
/// silence. Opus takes only whole frames, so a short resample is padded
/// rather than encoded at the wrong length.
pub fn padded(got: &[i16], n: usize, len: usize) -> (r: Vec<i16>)
    requires
        n <= got@.len(),
        n <= len,
    ensures
        r@ == got@.take(n as int) + Seq::new((len - n) as nat, |i: int| 0i16),
{
    let mut v: Vec<i16> = Vec::with_capacity(len);
    let mut i: usize = 0;
    while i < n
        invariant
            i <= n <= got@.len(),
            v@ == got@.take(i as int),
        decreases n - i,
    {
        v.push(got[i]);
        i = i + 1;
        assert(v@ =~= got@.take(i as int));
    }
    while i < len
        invariant
            n <= i <= len,
            v@ == got@.take(n as int) + Seq::new((i - n) as nat, |k: int| 0i16),
        decreases len - i,
    {
        v.push(0);
        i = i + 1;
        assert(v@ =~= got@.take(n as int) + Seq::new((i - n) as nat, |k: int| 0i16));
    }
    v
}

/// The sum of a run of samples.
pub open spec fn sum16(s: Seq<i16>) -> int
    decreases s.len(),
{
    if s.len() == 0 {
        0
    } else {
        sum16(s.drop_last()) + s.last()
    }
}

/// Integer division rounding toward zero, as Rust's `/` does.
pub open spec fn tdiv(a: int, b: int) -> int {
    if a >= 0 {
        a / b
    } else {
        -((-a) / b)
    }
}

/// Interleaved 16-bit samples of `ch` channels folded to mono: each whole
/// group of `ch` samples becomes their average, rounded toward zero; a
/// trailing partial group is ignored.
pub open spec fn spec_downmix(data: Seq<i16>, ch: nat) -> Seq<i16> {
    Seq::new(
        data.len() / ch,
        |i: int| tdiv(sum16(data.subrange(i * ch, i * ch + ch)), ch as int) as i16,
    )
}

proof fn lemma_sum16_bounds(s: Seq<i16>)
    ensures
        -32768 * s.len() <= sum16(s) <= 32767 * s.len(),
    decreases s.len(),
{
    if s.len() > 0 {
        lemma_sum16_bounds(s.drop_last());
    }
}

proof fn lemma_tdiv_bounds(a: int, b: int)
    requires
        b > 0,
        -32768 * b <= a <= 32767 * b,
    ensures
        -32768 <= tdiv(a, b) <= 32767,
{
    if a >= 0 {
        vstd::arithmetic::div_mod::lemma_div_is_ordered(a, 32767 * b, b);
        vstd::arithmetic::div_mod::lemma_div_multiples_vanish(32767, b);
        assert(a / b >= 0) by {
            vstd::arithmetic::div_mod::lemma_div_pos_is_pos(a, b);
        }
    } else {
        vstd::arithmetic::div_mod::lemma_div_is_ordered(-a, 32768 * b, b);
        vstd::arithmetic::div_mod::lemma_div_multiples_vanish(32768, b);
        vstd::arithmetic::div_mod::lemma_div_pos_is_pos(-a, b);
    }
}

/// One group of `ch` interleaved samples, averaged, rounded toward zero.
fn average(data: &[i16], start: usize, ch: usize) -> (r: i16)
    requires
        1 <= ch <= 0xffff,
        start + ch <= data@.len(),
    ensures
        r == tdiv(sum16(data@.subrange(start as int, start + ch)), ch as int),
{
    let mut sum: i32 = 0;
    let mut c: usize = 0;
    let len = data.len();
    while c < ch
        invariant
            len == data@.len(),
            c <= ch <= 0xffff,
            start + ch <= data@.len(),
            sum == sum16(data@.subrange(start as int, start + c)),
            -32768 * c <= sum <= 32767 * c,
        decreases ch - c,
    {
        let ghost prev = data@.subrange(start as int, start + c);
        assert(data@.subrange(start as int, start + c + 1).drop_last() =~= prev);
        proof {
            assert(-32768 * (c + 1) <= sum + data@[start + c] <= 32767 * (c + 1)) by (nonlinear_arith)
                requires
                    -32768 * c <= sum <= 32767 * c,
                    -32768 <= data@[start + c] <= 32767,
            ;
            assert(32767 * (c + 1) <= 32767 * 0x1_0000) by (nonlinear_arith)
                requires
                    c + 1 <= 0xffff,
            ;
            assert(-32768 * 0x1_0000 <= -32768 * (c + 1)) by (nonlinear_arith)
                requires
                    c + 1 <= 0xffff,
            ;
        }
        sum = sum + data[start + c] as i32;
        c = c + 1;
    }
    let n = ch as i32;
    proof {
        lemma_tdiv_bounds(sum as int, ch as int);
    }
    let q = if sum >= 0 {
        sum / n
    } else {
        -((-sum) / n)
    };
    q as i16
}

/// The microphone's interleaved 16-bit samples folded to mono, one sample
/// per whole group of `ch` channels.
pub fn downmix_i16(data: &[i16], ch: usize) -> (r: Vec<i16>)
    requires
        1 <= ch <= 0xffff,
    ensures
        r@ == spec_downmix(data@, ch as nat),
{
    let len = data.len();
    let n = len / ch;
    let mut out: Vec<i16> = Vec::with_capacity(n);
    let mut i: usize = 0;
    while i < n
        invariant
            len == data@.len(),
            n == data@.len() / (ch as nat),
            1 <= ch <= 0xffff,
            i <= n,
            out@ =~= spec_downmix(data@, ch as nat).take(i as int),
        decreases n - i,
    {
        proof {
            assert(i * ch + ch <= data@.len()) by (nonlinear_arith)
                requires
                    i < n,
                    n == data@.len() / (ch as nat),
                    ch >= 1,
            {
                vstd::arithmetic::div_mod::lemma_fundamental_div_mod(data@.len() as int, ch as int);
                assert(i + 1 <= n);
                assert((i + 1) * ch <= n * ch) by (nonlinear_arith)
                    requires
                        i + 1 <= n,
                        ch >= 1,
                ;
            }
        }
        let v = average(data, i * ch, ch);
        out.push(v);
        i = i + 1;
    }
    out
}

/// The queues of decoded samples waiting to be mixed, by their contents.
pub open spec fn queue_views(qs: Seq<Vec<i16>>) -> Seq<Seq<i16>> {
    qs.map_values(|v: Vec<i16>| v@)
}

/// How many whole frames of `f` samples a queue holds.
pub open spec fn rounds(q: Seq<i16>, f: nat) -> nat {
    q.len() / f
}

/// The most whole frames any queue holds.
pub open spec fn max_rounds(qs: Seq<Seq<i16>>, f: nat) -> nat
    decreases qs.len(),
{
    if qs.len() == 0 {
        0
    } else {
        let m = max_rounds(qs.drop_last(), f);
        let l = rounds(qs.last(), f);
        if m >= l {
            m
        } else {
            l
        }
    }
}

/// Sample `j` of frame `r`, summed over every queue that holds a frame `r`.
pub open spec fn mix_sum(qs: Seq<Seq<i16>>, f: nat, r: nat, j: int) -> int
    decreases qs.len(),
{
    if qs.len() == 0 {
        0
    } else {
        mix_sum(qs.drop_last(), f, r, j) + (if rounds(qs.last(), f) > r {
            qs.last()[r * f + j] as int
        } else {
            0
        })
    }
}

/// A sum clipped to the 16-bit range: summing in 16 bits would wrap, and a
/// wrap is heard as a crack far louder than the clipping it replaces.
pub open spec fn clamp16(x: int) -> i16 {
    if x < -32768 {
        -32768i16
    } else if x > 32767 {
        32767i16
    } else {
        x as i16
    }
}

/// Frame `r` of the mix: each sample the clipped sum over every talker that
/// has a frame `r` queued.
pub open spec fn mixed_frame(qs: Seq<Seq<i16>>, f: nat, r: nat) -> Seq<i16> {
    Seq::new(f, |j: int| clamp16(mix_sum(qs, f, r, j)))
}

proof fn lemma_max_rounds(qs: Seq<Seq<i16>>, f: nat, r: nat)
    ensures
        max_rounds(qs, f) > r <==> exists|k: int| 0 <= k < qs.len() && rounds(#[trigger] qs[k], f) > r,
        forall|k: int| 0 <= k < qs.len() ==> rounds(#[trigger] qs[k], f) <= max_rounds(qs, f),
    decreases qs.len(),
{
    if qs.len() > 0 {
        lemma_max_rounds(qs.drop_last(), f, r);
        assert forall|k: int| 0 <= k < qs.len() - 1 implies qs[k] == #[trigger] qs.drop_last()[k] by {}
        if max_rounds(qs, f) > r {
            if max_rounds(qs.drop_last(), f) > r {
                let k = choose|k: int| 0 <= k < qs.drop_last().len() && rounds(#[trigger] qs.drop_last()[k], f) > r;
                assert(qs[k] == qs.drop_last()[k]);
            } else {
                assert(rounds(qs[qs.len() - 1], f) > r);
            }
        }
        if exists|k: int| 0 <= k < qs.len() && rounds(#[trigger] qs[k], f) > r {
            let k = choose|k: int| 0 <= k < qs.len() && rounds(#[trigger] qs[k], f) > r;
            if k < qs.len() - 1 {
                assert(qs.drop_last()[k] == qs[k]);
            }
        }
        assert forall|k: int| 0 <= k < qs.len() implies rounds(#[trigger] qs[k], f) <= max_rounds(qs, f) by {
            if k < qs.len() - 1 {
                assert(qs.drop_last()[k] == qs[k]);
            }
        }
    }
}

proof fn lemma_mix_sum_bound(qs: Seq<Seq<i16>>, f: nat, r: nat, j: int)
    ensures
        -32768 * qs.len() <= mix_sum(qs, f, r, j) <= 32767 * qs.len(),
    decreases qs.len(),
{
    if qs.len() > 0 {
        lemma_mix_sum_bound(qs.drop_last(), f, r, j);
    }
}

proof fn lemma_frame_in_queue(len: nat, f: nat, r: nat, j: nat)
    requires
        f >= 1,
        len / f > r,
        j < f,
    ensures
        r * f + j < len,
        r * f + f <= len,
{
    vstd::arithmetic::div_mod::lemma_fundamental_div_mod(len as int, f as int);
    assert((r + 1) * f <= (len / f) * f) by (nonlinear_arith)
        requires
            r + 1 <= len / f,
            f >= 1,
    ;
    assert(r * f + f == (r + 1) * f) by (nonlinear_arith);
    assert(len % f >= 0) by {
        vstd::arithmetic::div_mod::lemma_mod_pos_bound(len as int, f as int);
    }
}

fn copy_tail(q: &Vec<i16>, from: usize) -> (r: Vec<i16>)
    requires
        from <= q@.len(),
    ensures
        r@ == q@.skip(from as int),
{
    let mut v: Vec<i16> = Vec::new();
    let mut i = from;
    while i < q.len()
        invariant
            from <= i <= q@.len(),
            v@ == q@.subrange(from as int, i as int),
        decreases q@.len() - i,
    {
        v.push(q[i]);
        i = i + 1;
        assert(v@ =~= q@.subrange(from as int, i as int));
    }
    assert(q@.subrange(from as int, q@.len() as int) =~= q@.skip(from as int));
    v
}

/// Mix whatever every talker has ready, frame by frame, for as long as any
/// talker has a whole frame of `f` samples queued. Frame `r` sums sample by
/// sample the `r`-th frame of every queue holding one, clipped to 16 bits;
/// each queue keeps what is left after its whole frames. Two people
/// overlapping sound like two people rather than like corruption.
pub fn mix_ready(queues: &mut Vec<Vec<i16>>, f: usize) -> (out: Vec<Vec<i16>>)
    requires
        f >= 1,
        old(queues)@.len() <= 0xffff,
    ensures
        out@.len() == max_rounds(queue_views(old(queues)@), f as nat),
        forall|r: int|
            0 <= r < out@.len() ==> (#[trigger] out@[r])@ == mixed_frame(
                queue_views(old(queues)@),
                f as nat,
                r as nat,
            ),
        final(queues)@.len() == old(queues)@.len(),
        forall|k: int|
            0 <= k < final(queues)@.len() ==> (#[trigger] final(queues)@[k])@ == old(queues)@[k]@.skip(
                (rounds(old(queues)@[k]@, f as nat) * f) as int,
            ),
{
    let ghost qs = queue_views(queues@);
    let n = queues.len();
    let mut out: Vec<Vec<i16>> = Vec::new();
    let mut r: usize = 0;
    proof {
        lemma_max_rounds(qs, f as nat, 0);
    }
    loop
        invariant
            n == queues@.len(),
            n <= 0xffff,
            f >= 1,
            qs == queue_views(queues@),
            queues@ == old(queues)@,
            r <= max_rounds(qs, f as nat),
            out@.len() == r,
            forall|i: int| 0 <= i < r ==> (#[trigger] out@[i])@ == mixed_frame(qs, f as nat, i as nat),
        ensures
            r == max_rounds(qs, f as nat),
            queues@ == old(queues)@,
            out@.len() == r,
            forall|i: int| 0 <= i < r ==> (#[trigger] out@[i])@ == mixed_frame(qs, f as nat, i as nat),
        decreases max_rounds(qs, f as nat) - r,
    {
        proof {
            lemma_max_rounds(qs, f as nat, r as nat);
        }
        let mut any = false;
        let mut witness: usize = 0;
        let mut k: usize = 0;
        while k < n
            invariant
                n == queues@.len(),
                qs == queue_views(queues@),
                f >= 1,
                k <= n,
                any == exists|i: int| 0 <= i < k && rounds(#[trigger] qs[i], f as nat) > r,
                any ==> witness > r,
            decreases n - k,
        {
            if queues[k].len() / f > r {
                any = true;
                witness = queues[k].len() / f;
            }
            assert(qs[k as int] == queues@[k as int]@);
            k = k + 1;
        }
        if !any {
            break;
        }
        let mut sums: Vec<i32> = Vec::new();
        let mut j: usize = 0;
        while j < f
            invariant
                j <= f,
                sums@.len() == j,
                forall|i: int| 0 <= i < j ==> sums@[i] == 0,
            decreases f - j,
        {
            sums.push(0);
            j = j + 1;
        }
        let mut k: usize = 0;
        while k < n
            invariant
                n == queues@.len(),
                n <= 0xffff,
                qs == queue_views(queues@),
                f >= 1,
                k <= n,
                witness > r,
                sums@.len() == f,
                forall|i: int| 0 <= i < f ==> #[trigger] sums@[i] == mix_sum(qs.take(k as int), f as nat, r as nat, i),
            decreases n - k,
        {
            let ghost before = sums@;
            assert(qs[k as int] == queues@[k as int]@);
            assert(qs.take(k + 1).drop_last() =~= qs.take(k as int));
            assert(qs.take(k + 1).last() == qs[k as int]);
            let qlen = queues[k].len();
            if qlen / f > r {
                let mut j: usize = 0;
                while j < f
                    invariant
                        qlen == queues@[k as int]@.len(),
                        n == queues@.len(),
                        n <= 0xffff,
                        qs == queue_views(queues@),
                        f >= 1,
                        k < n,
                        j <= f,
                        sums@.len() == f,
                        queues@[k as int]@.len() / (f as nat) > r,
                        forall|i: int| 0 <= i < j ==> #[trigger] sums@[i] == mix_sum(qs.take(k + 1), f as nat, r as nat, i),
                        forall|i: int| j <= i < f ==> #[trigger] sums@[i] == before[i],
                        forall|i: int| 0 <= i < f ==> before[i] == mix_sum(qs.take(k as int), f as nat, r as nat, i),
                        qs.take(k + 1).drop_last() == qs.take(k as int),
                        qs.take(k + 1).last() == qs[k as int],
                    decreases f - j,
                {
                    proof {
                        lemma_frame_in_queue(queues@[k as int]@.len(), f as nat, r as nat, j as nat);
                        lemma_mix_sum_bound(qs.take(k as int), f as nat, r as nat, j as int);
                        assert(r * f + j < queues@[k as int]@.len());
                        assert(-32768 * k >= -32768 * 0xffff && 32767 * k <= 32767 * 0xffff) by (nonlinear_arith)
                            requires
                                k <= 0xffff,
                        ;
                    }
                    let idx = r * f + j;
                    let v = queues[k][idx];
                    sums.set(j, sums[j] + v as i32);
                    j = j + 1;
                }
            } else {
                assert forall|i: int| 0 <= i < f implies #[trigger] sums@[i] == mix_sum(qs.take(k + 1), f as nat, r as nat, i) by {
                    assert(before[i] == sums@[i]);
                }
            }
            k = k + 1;
        }
        assert(qs.take(n as int) =~= qs);
        let mut frame: Vec<i16> = Vec::new();
        let mut j: usize = 0;
        while j < f
            invariant
                j <= f,
                sums@.len() == f,
                frame@.len() == j,
                forall|i: int| 0 <= i < f ==> #[trigger] sums@[i] == mix_sum(qs, f as nat, r as nat, i),
                forall|i: int| 0 <= i < j ==> #[trigger] frame@[i] == clamp16(mix_sum(qs, f as nat, r as nat, i)),
                witness > r,
            decreases f - j,
        {
            let m = sums[j];
            let c: i16 = if m < -32768 {
                -32768
            } else if m > 32767 {
                32767
            } else {
                m as i16
            };
            frame.push(c);
            j = j + 1;
        }
        assert(frame@ =~= mixed_frame(qs, f as nat, r as nat));
        out.push(frame);
        r = r + 1;
    }
    proof {
        lemma_max_rounds(qs, f as nat, 0);
    }
    let mut rest: Vec<Vec<i16>> = Vec::new();
    let mut k: usize = 0;
    while k < n
        invariant
            n == queues@.len(),
            queues@ == old(queues)@,
            f >= 1,
            k <= n,
            rest@.len() == k,
            forall|i: int|
                0 <= i < k ==> (#[trigger] rest@[i])@ == old(queues)@[i]@.skip(
                    (rounds(old(queues)@[i]@, f as nat) * f) as int,
                ),
        decreases n - k,
    {
        let whole = queues[k].len() / f;
        proof {
            vstd::arithmetic::div_mod::lemma_fundamental_div_mod(queues@[k as int]@.len() as int, f as int);
            vstd::arithmetic::div_mod::lemma_mod_pos_bound(queues@[k as int]@.len() as int, f as int);
            let len: int = queues@[k as int]@.len() as int;
            assert(whole * f <= len) by (nonlinear_arith)
                requires
                    len == f * whole + len % (f as int),
                    len % (f as int) >= 0,
            ;
        }
        let t = copy_tail(&queues[k], whole * f);
        rest.push(t);
        k = k + 1;
    }
    *queues = rest;
    out
}

/// One person talking is heard as they were: with a single queue, every mixed
/// frame is that talker's frame, sample for sample.
pub proof fn lemma_single_talker(q: Seq<i16>, f: nat, r: nat)
    requires
        f >= 1,
        r < rounds(q, f),
    ensures
        mixed_frame(seq![q], f, r) == q.subrange((r * f) as int, (r * f + f) as int),
{
    let qs = seq![q];
    lemma_frame_in_queue(q.len(), f, r, 0);
    assert(qs.drop_last() =~= Seq::<Seq<i16>>::empty());
    assert(qs.last() == q);
    assert forall|j: int| 0 <= j < f implies #[trigger] mixed_frame(qs, f, r)[j] == q.subrange(
        (r * f) as int,
        (r * f + f) as int,
    )[j] by {
        lemma_frame_in_queue(q.len(), f, r, j as nat);
        assert(mix_sum(qs.drop_last(), f, r, j) == 0);
        assert(mix_sum(qs, f, r, j) == q[r * f + j] as int);
        assert(clamp16(q[r * f + j] as int) == q[r * f + j]);
    }
    assert(mixed_frame(qs, f, r) =~= q.subrange((r * f) as int, (r * f + f) as int));
}

} // verus!
