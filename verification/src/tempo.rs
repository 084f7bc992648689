//! Tempo and meter: absolute ticks, the tempo map, tick-to-millisecond conversion,
//! the time-signature map and the bar grid.

use vstd::prelude::*;

use crate::smf::{event_in_range, file_in_range, file_tracks, Fps, MetaEvent, MidiEvent, MidiFile, Timing};
use crate::sorting::{
    dedup_sorted_u32, dedup_sorted_u64, lemma_same_elements, lemma_same_elements_u32, sort_u32, sort_u64,
    strictly_increasing_u32, strictly_increasing_u64,
};

verus! {

/// Microseconds per quarter note when a file has no tempo (120 BPM).
pub const DEFAULT_US_PER_QUARTER: u32 = 500_000;

/// Absolute-tick tempo change: this tempo holds from `tick` until the next point.
#[derive(Debug, Clone, Copy, PartialEq, Eq, Structural)]
pub struct TempoPoint {
    pub tick: u32,
    pub us_per_quarter: u32,
}

/// Absolute-tick time signature: `numerator / 2^denominator_pow`.
#[derive(Debug, Clone, Copy, PartialEq, Eq, Structural)]
pub struct TimeSignaturePoint {
    pub tick: u32,
    pub numerator: u8,
    pub denominator_pow: u8,
}

pub open spec fn sat_add(a: u32, b: u32) -> u32 {
    if a + b > u32::MAX {
        u32::MAX
    } else {
        (a + b) as u32
    }
}

/// Absolute tick (saturating) after the first `n` events of a track.
pub open spec fn ticks_through(track: Seq<MidiEvent>, n: int) -> u32
    decreases n,
{
    if n <= 0 {
        0
    } else {
        sat_add(ticks_through(track, n - 1), track[n - 1].delta)
    }
}

/// Absolute tick of the end of a track.
pub open spec fn track_end_tick(track: Seq<MidiEvent>) -> u32 {
    ticks_through(track, track.len() as int)
}

pub proof fn lemma_ticks_monotone(track: Seq<MidiEvent>, a: int, b: int)
    requires
        0 <= a <= b,
    ensures
        ticks_through(track, a) <= ticks_through(track, b),
    decreases b - a,
{
    if a < b {
        lemma_ticks_monotone(track, a, b - 1);
    }
}

/// Ticks per quarter note implied by the file timing.
pub open spec fn spec_ticks_per_beat(t: Timing) -> u32 {
    match t {
        Timing::Metrical(n) => n as u32,
        Timing::Timecode(Fps::Fps24, s) => (24 * s) as u32,
        Timing::Timecode(Fps::Fps25, s) => (25 * s) as u32,
        Timing::Timecode(Fps::Fps29, s) => ((30000 * s) / 1001) as u32,
        Timing::Timecode(Fps::Fps30, s) => (30 * s) as u32,
    }
}

/// Ticks per quarter note; SMPTE timing yields frames-per-second times subframes
/// (29.97 fps rounded down).
pub fn ticks_per_beat(timing: Timing) -> (r: u32)
    ensures
        r == spec_ticks_per_beat(timing),
{
    match timing {
        Timing::Metrical(n) => n as u32,
        Timing::Timecode(Fps::Fps24, s) => 24 * s as u32,
        Timing::Timecode(Fps::Fps25, s) => 25 * s as u32,
        Timing::Timecode(Fps::Fps29, s) => (30000 * s as u32) / 1001,
        Timing::Timecode(Fps::Fps30, s) => 30 * s as u32,
    }
}

// ----- sorted point lists keyed by tick -----

pub open spec fn strictly_sorted<V>(s: Seq<(u32, V)>) -> bool {
    forall|i: int, j: int| 0 <= i < j < s.len() ==> s[i].0 < s[j].0
}

/// Value of the last entry with key `k`.
pub open spec fn find_key<V>(s: Seq<(u32, V)>, k: u32) -> Option<V>
    decreases s.len(),
{
    if s.len() == 0 {
        None
    } else if s.last().0 == k {
        Some(s.last().1)
    } else {
        find_key(s.drop_last(), k)
    }
}

pub proof fn lemma_find_absent<V>(s: Seq<(u32, V)>, k: u32)
    requires
        forall|i: int| 0 <= i < s.len() ==> s[i].0 != k,
    ensures
        find_key(s, k) is None,
    decreases s.len(),
{
    if s.len() > 0 {
        assert(s.last() == s[s.len() - 1]);
        lemma_find_absent(s.drop_last(), k);
    }
}

pub proof fn lemma_find_sorted<V>(s: Seq<(u32, V)>, i: int)
    requires
        strictly_sorted(s),
        0 <= i < s.len(),
    ensures
        find_key(s, s[i].0) == Some(s[i].1),
    decreases s.len(),
{
    if i < s.len() - 1 {
        assert(s.last() == s[s.len() - 1]);
        assert(s.drop_last()[i] == s[i]);
        lemma_find_sorted(s.drop_last(), i);
    }
}

/// Overwrite or insert the entry for `tick`, keeping the list strictly sorted.
fn upsert<V: Copy>(points: &mut Vec<(u32, V)>, tick: u32, value: V)
    requires
        strictly_sorted(old(points)@),
    ensures
        strictly_sorted(final(points)@),
        forall|k: u32|
            #[trigger] find_key(final(points)@, k) == if k == tick {
                Some(value)
            } else {
                find_key(old(points)@, k)
            },
{
    let ghost s = points@;
    let mut pos: usize = 0;
    while pos < points.len() && points[pos].0 < tick
        invariant
            points@ == s,
            0 <= pos <= s.len(),
            forall|j: int| 0 <= j < pos ==> s[j].0 < tick,
        decreases s.len() - pos,
    {
        pos = pos + 1;
    }
    if pos < points.len() && points[pos].0 == tick {
        points.set(pos, (tick, value));
    } else {
        points.insert(pos, (tick, value));
    }
    let ghost f = points@;
    assert(strictly_sorted(f)) by {
        assert forall|i: int, j: int| 0 <= i < j < f.len() implies f[i].0 < f[j].0 by {
            if f.len() == s.len() {
                assert(i == pos || s[i].0 == f[i].0);
            }
        }
    }
    assert forall|k: u32|
        #[trigger] find_key(f, k) == if k == tick {
            Some(value)
        } else {
            find_key(s, k)
        } by {
        if k == tick {
            assert(f[pos as int] == (tick, value));
            lemma_find_sorted(f, pos as int);
        } else if exists|i: int| 0 <= i < s.len() && s[i].0 == k {
            let i = choose|i: int| 0 <= i < s.len() && s[i].0 == k;
            lemma_find_sorted(s, i);
            if f.len() == s.len() {
                assert(f[i] == s[i]);
                lemma_find_sorted(f, i);
            } else if i < pos {
                assert(f[i] == s[i]);
                lemma_find_sorted(f, i);
            } else {
                assert(f[i + 1] == s[i]);
                lemma_find_sorted(f, i + 1);
            }
        } else {
            lemma_find_absent(s, k);
            assert forall|j: int| 0 <= j < f.len() implies f[j].0 != k by {
                if j != pos {
                    if f.len() == s.len() || j < pos {
                        assert(f[j] == s[j]);
                    } else {
                        assert(f[j] == s[j - 1]);
                    }
                }
            }
            lemma_find_absent(f, k);
        }
    }
}

// ----- tempo map -----

/// Tempo changes of one track among its first `n` events, as (absolute tick, µs per quarter).
pub open spec fn track_tempos(track: Seq<MidiEvent>, n: int) -> Seq<(u32, u32)>
    decreases n,
{
    if n <= 0 {
        Seq::empty()
    } else {
        let prev = track_tempos(track, n - 1);
        match track[n - 1].meta {
            Some(MetaEvent::Tempo(us)) => prev.push((ticks_through(track, n), us)),
            _ => prev,
        }
    }
}

/// Tempo changes of the first `k` tracks, track after track.
pub open spec fn file_tempos(tracks: Seq<Seq<MidiEvent>>, k: int) -> Seq<(u32, u32)>
    decreases k,
{
    if k <= 0 {
        Seq::empty()
    } else {
        file_tempos(tracks, k - 1) + track_tempos(tracks[k - 1], tracks[k - 1].len() as int)
    }
}

pub open spec fn all_tempos(tracks: Seq<Seq<MidiEvent>>) -> Seq<(u32, u32)> {
    file_tempos(tracks, tracks.len() as int)
}

/// Tempo at a tick of the map: the last change written at that tick; 120 BPM at tick 0
/// when the file sets none there; nothing at other ticks.
pub open spec fn tempo_lookup(events: Seq<(u32, u32)>, k: u32) -> Option<u32> {
    match find_key(events, k) {
        Some(v) => Some(v),
        None => if k == 0 {
            Some(DEFAULT_US_PER_QUARTER)
        } else {
            None
        },
    }
}

pub open spec fn tempo_pairs(m: Seq<TempoPoint>) -> Seq<(u32, u32)> {
    m.map_values(|p: TempoPoint| (p.tick, p.us_per_quarter))
}

/// A tempo map: strictly increasing ticks starting at tick 0.
pub open spec fn tempo_map_wf(m: Seq<TempoPoint>) -> bool {
    &&& m.len() > 0
    &&& m[0].tick == 0
    &&& forall|i: int, j: int| 0 <= i < j < m.len() ==> m[i].tick < m[j].tick
}

/// Absolute ticks of each event while walking a track.
fn advance(tick: u32, delta: u32) -> (r: u32)
    ensures
        r == sat_add(tick, delta),
{
    tick.saturating_add(delta)
}

/// Append the tempo changes of one track to a sorted map.
fn collect_track_tempos(track: &Vec<MidiEvent>, map: &mut Vec<(u32, u32)>, Ghost(before): Ghost<
    Seq<(u32, u32)>,
>)
    requires
        strictly_sorted(old(map)@),
        forall|k: u32| #[trigger] find_key(old(map)@, k) == find_key(before, k),
    ensures
        strictly_sorted(final(map)@),
        forall|k: u32|
            #[trigger] find_key(final(map)@, k) == find_key(
                before + track_tempos(track@, track@.len() as int),
                k,
            ),
{
    let mut abs_tick: u32 = 0;
    let mut i: usize = 0;
    while i < track.len()
        invariant
            0 <= i <= track@.len(),
            abs_tick == ticks_through(track@, i as int),
            strictly_sorted(map@),
            forall|k: u32| #[trigger] find_key(map@, k) == find_key(before + track_tempos(track@, i as int), k),
        decreases track@.len() - i,
    {
        abs_tick = advance(abs_tick, track[i].delta);
        let ghost prev = map@;
        match &track[i].meta {
            Some(MetaEvent::Tempo(us)) => {
                upsert(map, abs_tick, *us);
                proof {
                    let e = before + track_tempos(track@, i as int);
                    assert(before + track_tempos(track@, i + 1) =~= e.push((abs_tick, *us)));
                    assert forall|k: u32| #[trigger] find_key(map@, k) == find_key(e.push((abs_tick, *us)), k) by {
                        assert(e.push((abs_tick, *us)).drop_last() =~= e);
                        assert(find_key(prev, k) == find_key(e, k));
                    }
                }
            },
            _ => {
                assert(before + track_tempos(track@, i + 1) =~= before + track_tempos(track@, i as int));
            },
        }
        i = i + 1;
    }
}

/// Tempo map of a file: every tempo change at its absolute tick (the last one wins on a
/// shared tick), sorted by tick, with 120 BPM at tick 0 when the file sets no tempo there.
pub fn build_tempo_map(file: &MidiFile) -> (r: Vec<TempoPoint>)
    ensures
        tempo_map_wf(r@),
        forall|k: u32| #[trigger] find_key(tempo_pairs(r@), k) == tempo_lookup(all_tempos(file_tracks(file)), k),
        r@ == spec_tempo_map(file_tracks(file)),
{
    let ghost tracks = file_tracks(file);
    let mut map: Vec<(u32, u32)> = Vec::new();
    let mut t: usize = 0;
    while t < file.tracks.len()
        invariant
            tracks == file_tracks(file),
            0 <= t <= tracks.len(),
            strictly_sorted(map@),
            forall|k: u32| #[trigger] find_key(map@, k) == find_key(file_tempos(tracks, t as int), k),
        decreases tracks.len() - t,
    {
        collect_track_tempos(&file.tracks[t], &mut map, Ghost(file_tempos(tracks, t as int)));
        assert(file.tracks@[t as int]@ == tracks[t as int]);
        t = t + 1;
    }
    let ghost events = file_tempos(tracks, tracks.len() as int);
    assert(events == all_tempos(tracks));
    if map.len() == 0 || map[0].0 != 0 {
        proof {
            if map@.len() > 0 {
                lemma_find_absent_if_below(map@, 0);
            } else {
                lemma_find_absent(map@, 0);
            }
        }
        upsert(&mut map, 0, DEFAULT_US_PER_QUARTER);
    }
    proof {
        if map@.len() > 0 && map@[0].0 == 0 {
            lemma_find_sorted(map@, 0);
        }
        assert(find_key(map@, 0) is Some);
        lemma_find_some_index(map@, 0);
        let j = choose|j: int| 0 <= j < map@.len() && map@[j].0 == 0;
        if j > 0 {
            assert(map@[0].0 < map@[j].0);
        }
        assert forall|k: u32| #[trigger] find_key(map@, k) == tempo_lookup(events, k) by {}
    }
    let mut out: Vec<TempoPoint> = Vec::new();
    let mut i: usize = 0;
    while i < map.len()
        invariant
            0 <= i <= map@.len(),
            out@ == map@.take(i as int).map_values(|p: (u32, u32)| TempoPoint { tick: p.0, us_per_quarter: p.1 }),
        decreases map@.len() - i,
    {
        out.push(TempoPoint { tick: map[i].0, us_per_quarter: map[i].1 });
        assert(map@.take(i + 1).map_values(|p: (u32, u32)| TempoPoint { tick: p.0, us_per_quarter: p.1 }) =~= out@);
        i = i + 1;
    }
    assert(map@.take(map@.len() as int) =~= map@);
    assert(tempo_pairs(out@) =~= map@);
    proof {
        assert forall|a: int, b: int| 0 <= a < b < out@.len() implies out@[a].tick < out@[b].tick by {
            assert(out@[a].tick == map@[a].0);
            assert(out@[b].tick == map@[b].0);
        }
        assert(out@[0].tick == map@[0].0);
        lemma_tempo_map_is_spec(out@, file_tracks(file));
    }
    out
}

/// A key that is found occurs at some index.
pub proof fn lemma_find_some_index<V>(s: Seq<(u32, V)>, k: u32)
    requires
        find_key(s, k) is Some,
    ensures
        exists|j: int| 0 <= j < s.len() && s[j].0 == k,
{
    if forall|j: int| 0 <= j < s.len() ==> s[j].0 != k {
        lemma_find_absent(s, k);
    }
}

/// In a sorted list, a key smaller than the first key is absent.
proof fn lemma_find_absent_if_below<V>(s: Seq<(u32, V)>, k: u32)
    requires
        strictly_sorted(s),
        s.len() > 0,
        k < s[0].0,
    ensures
        find_key(s, k) is None,
{
    assert forall|j: int| 0 <= j < s.len() implies s[j].0 != k by {
        if j > 0 {
            assert(s[0].0 < s[j].0);
        }
    }
    lemma_find_absent(s, k);
}

// ----- tick to milliseconds -----

pub open spec fn min_int(a: int, b: int) -> int {
    if a < b {
        a
    } else {
        b
    }
}

/// Tick-microseconds accumulated by walking the map from point `k`, at `cursor` with tempo `us`
/// (ticks times µs-per-quarter, summed over the segments that end at or before `tick`).
pub open spec fn walk_us_ticks(m: Seq<TempoPoint>, k: int, tick: int, cursor: int, us: int) -> int
    decreases m.len() - k,
{
    if k < 0 || k >= m.len() {
        if tick > cursor {
            (tick - cursor) * us
        } else {
            0
        }
    } else {
        let p = m[k];
        let seg_end = min_int(p.tick as int, tick);
        let gain = if seg_end > cursor {
            (seg_end - cursor) * us
        } else {
            0
        };
        let cursor1 = if seg_end > cursor {
            seg_end
        } else {
            cursor
        };
        if p.tick >= tick {
            gain + if tick > cursor1 {
                (tick - cursor1) * us
            } else {
                0
            }
        } else {
            gain + walk_us_ticks(m, k + 1, tick, p.tick as int, p.us_per_quarter as int)
        }
    }
}

/// Starting tempo of a map (120 BPM for an empty map).
pub open spec fn first_tempo(m: Seq<TempoPoint>) -> u32 {
    if m.len() > 0 {
        m[0].us_per_quarter
    } else {
        DEFAULT_US_PER_QUARTER
    }
}

/// Total tick-microseconds from tick 0 to `tick`.
pub open spec fn us_ticks(m: Seq<TempoPoint>, tick: u32) -> int {
    walk_us_ticks(m, 0, tick as int, 0, first_tempo(m) as int)
}

/// Milliseconds at `tick`: `us_ticks / (ticks_per_beat * 1000)` rounded half up (saturating).
pub open spec fn spec_tick_to_ms(tick: u32, ticks_per_beat: u32, m: Seq<TempoPoint>) -> u64 {
    if ticks_per_beat == 0 || tick == 0 {
        0
    } else {
        let d = ticks_per_beat as int * 1000;
        let n = us_ticks(m, tick);
        let q = n / d + if 2 * (n % d) >= d {
            1int
        } else {
            0int
        };
        if q > u64::MAX {
            u64::MAX
        } else {
            q as u64
        }
    }
}

proof fn lemma_walk_nonneg(m: Seq<TempoPoint>, k: int, tick: int, cursor: int, us: int)
    requires
        us >= 0,
    ensures
        walk_us_ticks(m, k, tick, cursor, us) >= 0,
    decreases m.len() - k,
{
    let seg_end = if k >= 0 && k < m.len() { min_int(m[k].tick as int, tick) } else { 0 };
    if seg_end > cursor {
        assert((seg_end - cursor) * us >= 0) by (nonlinear_arith)
            requires seg_end > cursor, us >= 0;
    }
    if tick > cursor {
        assert((tick - cursor) * us >= 0) by (nonlinear_arith)
            requires tick > cursor, us >= 0;
    }
    if 0 <= k < m.len() {
        let cursor1 = if seg_end > cursor { seg_end } else { cursor };
        if tick > cursor1 {
            assert((tick - cursor1) * us >= 0) by (nonlinear_arith)
                requires tick > cursor1, us >= 0;
        }
        if m[k].tick < tick {
            lemma_walk_nonneg(m, k + 1, tick, m[k].tick as int, m[k].us_per_quarter as int);
        }
    }
}

proof fn lemma_walk_monotone(m: Seq<TempoPoint>, k: int, t1: int, t2: int, cursor: int, us: int)
    requires
        us >= 0,
        t1 <= t2,
    ensures
        walk_us_ticks(m, k, t1, cursor, us) <= walk_us_ticks(m, k, t2, cursor, us),
    decreases m.len() - k,
{
    if t1 > cursor {
        assert((t1 - cursor) * us <= (t2 - cursor) * us) by (nonlinear_arith)
            requires t1 > cursor, t1 <= t2, us >= 0;
    }
    if t2 > cursor {
        assert((t2 - cursor) * us >= 0) by (nonlinear_arith)
            requires t2 > cursor, us >= 0;
    }
    if 0 <= k < m.len() {
        let p = m[k];
        let pt = p.tick as int;
        if pt < t1 {
            lemma_walk_monotone(m, k + 1, t1, t2, pt, p.us_per_quarter as int);
        } else if pt < t2 {
            lemma_walk_nonneg(m, k + 1, t2, pt, p.us_per_quarter as int);
            if t1 > cursor {
                assert((t1 - cursor) * us <= (pt - cursor) * us) by (nonlinear_arith)
                    requires t1 > cursor, t1 <= pt, us >= 0;
            }
        }
    }
}

/// Milliseconds never decrease as the tick grows, whatever the tempo map; tick 0, and
/// any tick at 0 ticks per quarter, is at 0 ms.
pub proof fn lemma_tick_to_ms_monotone(t1: u32, t2: u32, ticks_per_beat: u32, m: Seq<TempoPoint>)
    requires
        t1 <= t2,
    ensures
        spec_tick_to_ms(t1, ticks_per_beat, m) <= spec_tick_to_ms(t2, ticks_per_beat, m),
        spec_tick_to_ms(0, ticks_per_beat, m) == 0,
        spec_tick_to_ms(t2, 0, m) == 0,
{
    if ticks_per_beat != 0 && t1 != 0 {
        let d = ticks_per_beat as int * 1000;
        let n1 = us_ticks(m, t1);
        let n2 = us_ticks(m, t2);
        lemma_walk_monotone(m, 0, t1 as int, t2 as int, 0, first_tempo(m) as int);
        lemma_walk_nonneg(m, 0, t1 as int, 0, first_tempo(m) as int);
        assert(n1 <= n2);
        vstd::arithmetic::div_mod::lemma_div_is_ordered(n1, n2, d);
        vstd::arithmetic::div_mod::lemma_fundamental_div_mod(n1, d);
        vstd::arithmetic::div_mod::lemma_fundamental_div_mod(n2, d);
        vstd::arithmetic::div_mod::lemma_mod_pos_bound(n1, d);
        vstd::arithmetic::div_mod::lemma_mod_pos_bound(n2, d);
        let a = n1 / d;
        let b = n2 / d;
        if a < b {
            assert(a + 1 <= b);
        } else {
            assert(a == b);
            assert(n1 % d <= n2 % d) by (nonlinear_arith)
                requires
                    n1 == d * a + n1 % d,
                    n2 == d * b + n2 % d,
                    a == b,
                    n1 <= n2;
        }
    }
}

/// Under a single tempo of `us` microseconds per quarter from tick 0, tick `t` lies at
/// `t * us / (ticks_per_beat * 1000)` ms, rounded half up.
pub proof fn lemma_tick_to_ms_single_tempo(t: u32, ticks_per_beat: u32, us: u32)
    requires
        t > 0,
        ticks_per_beat > 0,
        (t as int * us as int) / (ticks_per_beat as int * 1000) < u64::MAX,
    ensures
        ({
            let ms = spec_tick_to_ms(t, ticks_per_beat, seq![TempoPoint { tick: 0, us_per_quarter: us }]);
            let d = ticks_per_beat as int * 1000;
            2 * d * ms <= 2 * (t as int * us as int) + d < 2 * d * (ms + 1)
        }),
{
    let m = seq![TempoPoint { tick: 0, us_per_quarter: us }];
    let n = t as int * us as int;
    let d = ticks_per_beat as int * 1000;
    assert(walk_us_ticks(m, 1, t as int, 0, us as int) == n);
    assert(us_ticks(m, t) == n);
    let q = n / d + if 2 * (n % d) >= d {
        1int
    } else {
        0int
    };
    vstd::arithmetic::div_mod::lemma_fundamental_div_mod(n, d);
    vstd::arithmetic::div_mod::lemma_mod_pos_bound(n, d);
    assert(2 * d * q <= 2 * n + d < 2 * d * (q + 1)) by (nonlinear_arith)
        requires
            n == d * (n / d) + n % d,
            0 <= n % d < d,
            q == n / d + if 2 * (n % d) >= d {
                1int
            } else {
                0int
            };
}

/// Session milliseconds at an absolute tick under a tempo map (exact rational arithmetic,
/// rounded half up).
pub fn tick_to_ms(tick: u32, ticks_per_beat: u32, tempo_map: &[TempoPoint]) -> (r: u64)
    ensures
        r == spec_tick_to_ms(tick, ticks_per_beat, tempo_map@),
{
    if ticks_per_beat == 0 || tick == 0 {
        return 0;
    }
    let ghost m = tempo_map@;
    let mut acc: u128 = 0;
    let mut cursor: u32 = 0;
    let mut us: u32 = if tempo_map.len() > 0 {
        tempo_map[0].us_per_quarter
    } else {
        DEFAULT_US_PER_QUARTER
    };
    let mut k: usize = 0;
    let mut broke = false;
    while k < tempo_map.len()
        invariant_except_break
            0 <= k <= m.len(),
            m == tempo_map@,
            !broke,
            acc as int + walk_us_ticks(m, k as int, tick as int, cursor as int, us as int) == us_ticks(m, tick),
            acc <= (k + 1) * 0xFFFF_FFFE_0000_0001,
        ensures
            broke ==> acc as int == us_ticks(m, tick),
            !broke ==> k == m.len() && acc as int + walk_us_ticks(m, k as int, tick as int, cursor as int, us as int) == us_ticks(m, tick),
            broke ==> acc <= (k + 2) * 0xFFFF_FFFE_0000_0001,
            !broke ==> acc <= (k + 1) * 0xFFFF_FFFE_0000_0001,
            k <= m.len(),
        decreases m.len() - k,
    {
        let point = tempo_map[k];
        let segment_end = if point.tick < tick {
            point.tick
        } else {
            tick
        };
        if segment_end > cursor {
            let dt = (segment_end - cursor) as u128;
            assert(dt * (us as u128) <= 0xFFFF_FFFE_0000_0001) by (nonlinear_arith)
                requires dt <= 0xFFFF_FFFF, us <= 0xFFFF_FFFF;
            assert((k + 2) * 0xFFFF_FFFE_0000_0001 <= u128::MAX) by (nonlinear_arith)
                requires k <= 0xFFFF_FFFF_FFFF_FFFFu64;
            acc = acc + dt * us as u128;
            cursor = segment_end;
        }
        if point.tick >= tick {
            broke = true;
            assert(!(tick > cursor));
            break;
        }
        us = point.us_per_quarter;
        cursor = point.tick;
        k = k + 1;
    }
    if !broke && tick > cursor {
        let dt = (tick - cursor) as u128;
        assert(dt * (us as u128) <= 0xFFFF_FFFE_0000_0001) by (nonlinear_arith)
            requires dt <= 0xFFFF_FFFF, us <= 0xFFFF_FFFF;
        assert((k + 2) * 0xFFFF_FFFE_0000_0001 <= u128::MAX) by (nonlinear_arith)
            requires k <= 0xFFFF_FFFF_FFFF_FFFFu64;
        acc = acc + dt * us as u128;
    }
    let d: u128 = ticks_per_beat as u128 * 1000;
    let q = acc / d + if 2 * (acc % d) >= d {
        1
    } else {
        0
    };
    if q > u64::MAX as u128 {
        u64::MAX
    } else {
        q as u64
    }
}

// ----- time signatures -----

/// Time signatures of one track among its first `n` events, as
/// (absolute tick, (numerator at least 1, denominator power)).
pub open spec fn track_signatures(track: Seq<MidiEvent>, n: int) -> Seq<(u32, (u8, u8))>
    decreases n,
{
    if n <= 0 {
        Seq::empty()
    } else {
        let prev = track_signatures(track, n - 1);
        match track[n - 1].meta {
            Some(MetaEvent::TimeSignature(num, den)) => prev.push(
                (ticks_through(track, n), (if num < 1 { 1u8 } else { num }, den)),
            ),
            _ => prev,
        }
    }
}

pub open spec fn file_signatures(tracks: Seq<Seq<MidiEvent>>, k: int) -> Seq<(u32, (u8, u8))>
    decreases k,
{
    if k <= 0 {
        Seq::empty()
    } else {
        file_signatures(tracks, k - 1) + track_signatures(tracks[k - 1], tracks[k - 1].len() as int)
    }
}

pub open spec fn all_signatures(tracks: Seq<Seq<MidiEvent>>) -> Seq<(u32, (u8, u8))> {
    file_signatures(tracks, tracks.len() as int)
}

/// Signature at a tick of the map: the last one written at that tick; 4/4 at tick 0 when
/// the file sets none there; nothing at other ticks.
pub open spec fn signature_lookup(events: Seq<(u32, (u8, u8))>, k: u32) -> Option<(u8, u8)> {
    match find_key(events, k) {
        Some(v) => Some(v),
        None => if k == 0 {
            Some((4u8, 2u8))
        } else {
            None
        },
    }
}

pub open spec fn signature_pairs(m: Seq<TimeSignaturePoint>) -> Seq<(u32, (u8, u8))> {
    m.map_values(|p: TimeSignaturePoint| (p.tick, (p.numerator, p.denominator_pow)))
}

fn collect_track_signatures(
    track: &Vec<MidiEvent>,
    map: &mut Vec<(u32, (u8, u8))>,
    Ghost(before): Ghost<Seq<(u32, (u8, u8))>>,
)
    requires
        strictly_sorted(old(map)@),
        forall|k: u32| #[trigger] find_key(old(map)@, k) == find_key(before, k),
    ensures
        strictly_sorted(final(map)@),
        forall|k: u32|
            #[trigger] find_key(final(map)@, k) == find_key(
                before + track_signatures(track@, track@.len() as int),
                k,
            ),
{
    let mut abs_tick: u32 = 0;
    let mut i: usize = 0;
    while i < track.len()
        invariant
            0 <= i <= track@.len(),
            abs_tick == ticks_through(track@, i as int),
            strictly_sorted(map@),
            forall|k: u32| #[trigger] find_key(map@, k) == find_key(before + track_signatures(track@, i as int), k),
        decreases track@.len() - i,
    {
        abs_tick = advance(abs_tick, track[i].delta);
        let ghost prev = map@;
        match &track[i].meta {
            Some(MetaEvent::TimeSignature(num, den)) => {
                let n = if *num < 1 { 1u8 } else { *num };
                upsert(map, abs_tick, (n, *den));
                proof {
                    let e = before + track_signatures(track@, i as int);
                    assert(before + track_signatures(track@, i + 1) =~= e.push((abs_tick, (n, *den))));
                    assert forall|k: u32| #[trigger] find_key(map@, k) == find_key(e.push((abs_tick, (n, *den))), k) by {
                        assert(e.push((abs_tick, (n, *den))).drop_last() =~= e);
                        assert(find_key(prev, k) == find_key(e, k));
                    }
                }
            },
            _ => {
                assert(before + track_signatures(track@, i + 1) =~= before + track_signatures(track@, i as int));
            },
        }
        i = i + 1;
    }
}

/// Time-signature map: every signature at its absolute tick (the last wins on a shared tick,
/// numerator at least 1), sorted by tick, with 4/4 at tick 0 when the file sets none there.
pub fn build_time_signature_map(file: &MidiFile) -> (r: Vec<TimeSignaturePoint>)
    ensures
        r@.len() > 0,
        r@[0].tick == 0,
        forall|i: int, j: int| 0 <= i < j < r@.len() ==> r@[i].tick < r@[j].tick,
        forall|k: u32| #[trigger] find_key(signature_pairs(r@), k) == signature_lookup(all_signatures(file_tracks(file)), k),
        r@ == spec_signature_map(file_tracks(file)),
{
    let ghost tracks = file_tracks(file);
    let mut map: Vec<(u32, (u8, u8))> = Vec::new();
    let mut t: usize = 0;
    while t < file.tracks.len()
        invariant
            tracks == file_tracks(file),
            0 <= t <= tracks.len(),
            strictly_sorted(map@),
            forall|k: u32| #[trigger] find_key(map@, k) == find_key(file_signatures(tracks, t as int), k),
        decreases tracks.len() - t,
    {
        collect_track_signatures(&file.tracks[t], &mut map, Ghost(file_signatures(tracks, t as int)));
        assert(file.tracks@[t as int]@ == tracks[t as int]);
        t = t + 1;
    }
    let ghost events = file_signatures(tracks, tracks.len() as int);
    assert(events == all_signatures(tracks));
    if map.len() == 0 || map[0].0 != 0 {
        proof {
            if map@.len() > 0 {
                lemma_find_absent_if_below(map@, 0);
            } else {
                lemma_find_absent(map@, 0);
            }
        }
        upsert(&mut map, 0, (4u8, 2u8));
    }
    proof {
        if map@.len() > 0 && map@[0].0 == 0 {
            lemma_find_sorted(map@, 0);
        }
        assert(find_key(map@, 0) is Some);
        lemma_find_some_index(map@, 0);
        let j = choose|j: int| 0 <= j < map@.len() && map@[j].0 == 0;
        if j > 0 {
            assert(map@[0].0 < map@[j].0);
        }
        assert forall|k: u32| #[trigger] find_key(map@, k) == signature_lookup(events, k) by {}
    }
    let mut out: Vec<TimeSignaturePoint> = Vec::new();
    let mut i: usize = 0;
    while i < map.len()
        invariant
            0 <= i <= map@.len(),
            out@ == map@.take(i as int).map_values(|p: (u32, (u8, u8))| TimeSignaturePoint { tick: p.0, numerator: p.1.0, denominator_pow: p.1.1 }),
        decreases map@.len() - i,
    {
        out.push(TimeSignaturePoint { tick: map[i].0, numerator: map[i].1.0, denominator_pow: map[i].1.1 });
        assert(map@.take(i + 1).map_values(|p: (u32, (u8, u8))| TimeSignaturePoint { tick: p.0, numerator: p.1.0, denominator_pow: p.1.1 }) =~= out@);
        i = i + 1;
    }
    assert(map@.take(map@.len() as int) =~= map@);
    assert(signature_pairs(out@) =~= map@);
    proof {
        assert forall|a: int, b: int| 0 <= a < b < out@.len() implies out@[a].tick < out@[b].tick by {
            assert(out@[a].tick == map@[a].0);
            assert(out@[b].tick == map@[b].0);
        }
        assert(out@[0].tick == map@[0].0);
        lemma_signature_map_is_spec(out@, file_tracks(file));
    }
    out
}

// ----- bar grid -----

pub open spec fn pow2(n: nat) -> int
    decreases n,
{
    if n == 0 {
        1
    } else {
        2 * pow2((n - 1) as nat)
    }
}

pub proof fn lemma_pow2_pos(n: nat)
    ensures
        1 <= pow2(n),
    decreases n,
{
    if n > 0 {
        lemma_pow2_pos((n - 1) as nat);
    }
}

proof fn lemma_pow2_mono(a: nat, b: nat)
    requires
        a <= b,
    ensures
        pow2(a) <= pow2(b),
    decreases b - a,
{
    if a < b {
        lemma_pow2_mono(a, (b - 1) as nat);
        lemma_pow2_pos((b - 1) as nat);
    }
}

proof fn lemma_pow2_is_power(n: nat)
    ensures
        pow2(n) == vstd::arithmetic::power2::pow2(n),
    decreases n,
{
    if n == 0 {
        vstd::arithmetic::power2::lemma2_to64();
    } else {
        lemma_pow2_is_power((n - 1) as nat);
        vstd::arithmetic::power2::lemma_pow2_unfold(n);
    }
}

proof fn lemma_pow2_bounds(n: nat)
    ensures
        1 <= pow2(n),
        n <= 63 ==> pow2(n) <= 0x8000_0000_0000_0000,
{
    lemma_pow2_pos(n);
    if n <= 63 {
        lemma_pow2_mono(n, 63);
        lemma_pow2_is_power(63);
        vstd::arithmetic::power2::lemma2_to64_rest();
    }
}

/// Ticks per bar of a signature: `ticks_per_quarter * numerator * 4 / 2^denominator_pow`
/// (at least 1), kept to 32 bits.
pub open spec fn bar_length(tpq: u32, sig: TimeSignaturePoint) -> int {
    let den: int = if sig.denominator_pow < 64 {
        pow2(sig.denominator_pow as nat)
    } else {
        u64::MAX as int
    };
    let raw = (tpq * sig.numerator * 4) / den;
    let l = if raw < 1 {
        1
    } else {
        raw
    };
    l % 0x1_0000_0000
}

/// A bar holds `numerator` notes of length 1/2^denominator_pow: an n/4 bar is n quarter
/// notes, and each step up in the denominator halves the bar (rounding down, never below
/// one tick), e.g. 6/8 at 96 ticks per quarter is 288 ticks where 6/4 is 576.
pub proof fn lemma_bar_length_halves(tpq: u32, sig: TimeSignaturePoint)
    requires
        sig.denominator_pow < 63,
        tpq * sig.numerator * 4 < 0x1_0000_0000,
    ensures
        ({
            let quarter = TimeSignaturePoint { denominator_pow: 2, ..sig };
            let finer = TimeSignaturePoint { denominator_pow: (sig.denominator_pow + 1) as u8, ..sig };
            &&& bar_length(tpq, quarter) == if tpq * sig.numerator >= 1 {
                tpq * sig.numerator
            } else {
                1
            }
            &&& bar_length(tpq, finer) >= 2 ==> (bar_length(tpq, sig) == 2 * bar_length(tpq, finer)
                || bar_length(tpq, sig) == 2 * bar_length(tpq, finer) + 1)
            &&& bar_length(tpq, sig) <= 1 ==> bar_length(tpq, finer) == 1
        }),
{
    let x = tpq * sig.numerator * 4;
    let p = sig.denominator_pow as nat;
    lemma_pow2_pos(p);
    lemma_pow2_pos(p + 1);
    assert(pow2(p + 1) == 2 * pow2(p));
    assert(pow2(2) == 4) by {
        assert(pow2(0) == 1);
        assert(pow2(1) == 2 * pow2(0));
        assert(pow2(2) == 2 * pow2(1));
    }
    assert(x / 4 == tpq * sig.numerator);
    vstd::arithmetic::div_mod::lemma_div_denominator(x, pow2(p), 2);
    assert(x / pow2(p + 1) == (x / pow2(p)) / 2);
    vstd::arithmetic::div_mod::lemma_div_is_ordered_by_denominator(x, 1, pow2(p));
    assert(x / pow2(p) <= x);
    vstd::arithmetic::div_mod::lemma_div_pos_is_pos(x, pow2(p));
    vstd::arithmetic::div_mod::lemma_fundamental_div_mod(x / pow2(p), 2);
    vstd::arithmetic::div_mod::lemma_mod_pos_bound(x / pow2(p), 2);
}

/// Where the signature at index `i` stops ruling: the next signature or the end tick.
pub open spec fn segment_end(sigs: Seq<TimeSignaturePoint>, i: int, max_tick: u32) -> int {
    if i + 1 < sigs.len() {
        min_int(sigs[i + 1].tick as int, max_tick as int)
    } else {
        max_tick as int
    }
}

/// Signature `i` is reached: it and all before it start no later than the end tick.
pub open spec fn reached(sigs: Seq<TimeSignaturePoint>, i: int, max_tick: u32) -> bool {
    forall|j: int| 0 <= j <= i ==> #[trigger] sigs[j].tick <= max_tick
}

/// Bar lines that signature `i` contributes: its own tick and every whole bar after it
/// before its segment ends.
pub open spec fn signature_bar(sigs: Seq<TimeSignaturePoint>, tpq: u32, max_tick: u32, i: int, x: int) -> bool {
    let t = sigs[i].tick as int;
    let len = bar_length(tpq, sigs[i]);
    ||| x == t
    ||| t < x < segment_end(sigs, i, max_tick) && (x - t) % len == 0
}

/// The bar-line ticks up to the end tick.
pub open spec fn in_bar_grid(sigs: Seq<TimeSignaturePoint>, tpq: u32, max_tick: u32, x: int) -> bool {
    ||| x == max_tick
    ||| exists|i: int|
        0 <= i < sigs.len() && reached(sigs, i, max_tick) && #[trigger] signature_bar(sigs, tpq, max_tick, i, x)
}

/// Bar-line ticks for the bar grid: a distinct ascending list of every signature tick and
/// every whole bar after it up to the next signature, plus the end tick. Without a
/// ticks-per-quarter value it is `[0, max_tick]`.
pub fn bar_ticks(signatures: &[TimeSignaturePoint], ticks_per_quarter: u32, max_tick: u32) -> (r: Vec<u32>)
    requires
        forall|i: int| 0 <= i < signatures@.len() ==> bar_length(ticks_per_quarter, #[trigger] signatures@[i]) != 0,
    ensures
        ticks_per_quarter == 0 ==> r@ == seq![0u32, max_tick],
        ticks_per_quarter != 0 ==> strictly_increasing_u32(r@),
        ticks_per_quarter != 0 ==> forall|x: u32| r@.contains(x) <==> in_bar_grid(signatures@, ticks_per_quarter, max_tick, x as int),
{
    if ticks_per_quarter == 0 {
        return vec![0, max_tick];
    }
    let ghost sigs = signatures@;
    let ghost tpq = ticks_per_quarter;
    let mut out: Vec<u32> = Vec::new();
    let mut index: usize = 0;
    while index < signatures.len()
        invariant
            sigs == signatures@,
            tpq == ticks_per_quarter,
            ticks_per_quarter != 0,
            0 <= index <= sigs.len(),
            forall|i: int| 0 <= i < sigs.len() ==> bar_length(tpq, #[trigger] sigs[i]) != 0,
            reached(sigs, index - 1, max_tick),
            forall|x: u32| out@.contains(x) <==> exists|i: int| 0 <= i < index && #[trigger] signature_bar(sigs, tpq, max_tick, i, x as int),
        decreases sigs.len() - index,
    {
        let signature = signatures[index];
        if signature.tick > max_tick {
            proof {
                assert forall|x: u32| out@.contains(x) <==> exists|i: int|
                    0 <= i < sigs.len() && reached(sigs, i, max_tick) && #[trigger] signature_bar(sigs, tpq, max_tick, i, x as int) by {
                    if exists|i: int| 0 <= i < sigs.len() && reached(sigs, i, max_tick) && #[trigger] signature_bar(sigs, tpq, max_tick, i, x as int) {
                        let i = choose|i: int| 0 <= i < sigs.len() && reached(sigs, i, max_tick) && #[trigger] signature_bar(sigs, tpq, max_tick, i, x as int);
                        if i >= index {
                            assert(sigs[index as int].tick <= max_tick);
                        }
                    }
                    if out@.contains(x) {
                        let i = choose|i: int| 0 <= i < index && #[trigger] signature_bar(sigs, tpq, max_tick, i, x as int);
                        assert(reached(sigs, i, max_tick));
                    }
                }
            }
            return finish_bar_ticks(out, max_tick, Ghost(sigs), ticks_per_quarter);
        }
        let segment_end_tick: u32 = if index + 1 < signatures.len() {
            let next_tick = signatures[index + 1].tick;
            if next_tick < max_tick {
                next_tick
            } else {
                max_tick
            }
        } else {
            max_tick
        };
        let ghost before_sig = out@;
        out.push(signature.tick);
        let length = bar_length_of(ticks_per_quarter, signature);
        let ghost t = signature.tick as int;
        let ghost len = length as int;
        let mut tick = signature.tick;
        let ghost mut m: int = 0;
        proof {
            assert forall|x: u32| out@.contains(x) <==> (
                (exists|i: int| 0 <= i < index && #[trigger] signature_bar(sigs, tpq, max_tick, i, x as int))
                || x == t
                || (t < x <= tick && (x - t) % len == 0)) by {
                if x == t {
                    assert(out@[out@.len() - 1] == x);
                } else {
                    if before_sig.contains(x) {
                        let k = choose|k: int| 0 <= k < before_sig.len() && #[trigger] before_sig[k] == x;
                        assert(out@[k] == x);
                    }
                    if out@.contains(x) {
                        let k = choose|k: int| 0 <= k < out@.len() && #[trigger] out@[k] == x;
                        assert(before_sig[k] == x);
                    }
                }
            }
        }
        loop
            invariant_except_break
                tick as int == t + m * len,
                m >= 0,
                len >= 1,
                m > 0 ==> tick < segment_end_tick,
            invariant
                length as int == len,
                ticks_per_quarter != 0,
                tpq == ticks_per_quarter,
                sigs == signatures@,
                index < sigs.len(),
                t == sigs[index as int].tick,
                len == bar_length(tpq, sigs[index as int]),
                segment_end_tick == segment_end(sigs, index as int, max_tick),
                forall|x: u32| out@.contains(x) <==> (
                    (exists|i: int| 0 <= i < index && #[trigger] signature_bar(sigs, tpq, max_tick, i, x as int))
                    || x == t
                    || (t < x <= tick && (x - t) % len == 0)),
            ensures
                forall|x: u32| out@.contains(x) <==> exists|i: int| 0 <= i <= index && #[trigger] signature_bar(sigs, tpq, max_tick, i, x as int),
            decreases u32::MAX - tick,
        {
            let next = match tick.checked_add(length) {
                Some(n) => n,
                None => {
                    proof { lemma_bar_step_done(t, len, m, segment_end_tick as int, out@, sigs, tpq, max_tick, index as int, tick as int); }
                    break;
                },
            };
            if next >= segment_end_tick {
                proof { lemma_bar_step_done(t, len, m, segment_end_tick as int, out@, sigs, tpq, max_tick, index as int, tick as int); }
                break;
            }
            let ghost before = out@;
            out.push(next);
            proof {
                lemma_bar_step_push(t, len, m, 0);
                assert forall|x: u32| out@.contains(x) <==> (
                    (exists|i: int| 0 <= i < index && #[trigger] signature_bar(sigs, tpq, max_tick, i, x as int))
                    || x == t
                    || (t < x <= next && (x - t) % len == 0)) by {
                    lemma_bar_step_push(t, len, m, x as int);
                    if x == next {
                        assert(out@.last() == next);
                    } else {
                        if before.contains(x) {
                            let k = choose|k: int| 0 <= k < before.len() && #[trigger] before[k] == x;
                            assert(out@[k] == x);
                        }
                        if out@.contains(x) {
                            let k = choose|k: int| 0 <= k < out@.len() && #[trigger] out@[k] == x;
                            assert(before[k] == x);
                        }
                    }
                }
                m = m + 1;
            }
            tick = next;
        }
        index = index + 1;
    }
    proof {
        assert forall|x: u32| out@.contains(x) <==> exists|i: int|
            0 <= i < sigs.len() && reached(sigs, i, max_tick) && #[trigger] signature_bar(sigs, tpq, max_tick, i, x as int) by {
            if out@.contains(x) {
                let i = choose|i: int| 0 <= i < index && #[trigger] signature_bar(sigs, tpq, max_tick, i, x as int);
                assert(reached(sigs, i, max_tick));
            }
        }
    }
    finish_bar_ticks(out, max_tick, Ghost(sigs), ticks_per_quarter)
}

fn finish_bar_ticks(out: Vec<u32>, max_tick: u32, Ghost(sigs): Ghost<Seq<TimeSignaturePoint>>, tpq: u32) -> (r: Vec<u32>)
    requires
        forall|x: u32| out@.contains(x) <==> exists|i: int|
            0 <= i < sigs.len() && reached(sigs, i, max_tick) && #[trigger] signature_bar(sigs, tpq, max_tick, i, x as int),
    ensures
        strictly_increasing_u32(r@),
        forall|x: u32| r@.contains(x) <==> in_bar_grid(sigs, tpq, max_tick, x as int),
{
    let mut all = out;
    let ghost before = all@;
    all.push(max_tick);
    let ghost pushed = all@;
    sort_u32(&mut all);
    proof {
        lemma_same_elements_u32(all@, pushed);
    }
    let r = dedup_sorted_u32(&all);
    proof {
        assert forall|x: u32| r@.contains(x) <==> in_bar_grid(sigs, tpq, max_tick, x as int) by {
            if x == max_tick {
                assert(pushed[pushed.len() - 1] == x);
            } else {
                if before.contains(x) {
                    let k = choose|k: int| 0 <= k < before.len() && #[trigger] before[k] == x;
                    assert(pushed[k] == x);
                }
                if pushed.contains(x) {
                    let k = choose|k: int| 0 <= k < pushed.len() && #[trigger] pushed[k] == x;
                    assert(before[k] == x);
                }
            }
        }
    }
    r
}

fn bar_length_of(tpq: u32, sig: TimeSignaturePoint) -> (r: u32)
    requires
        bar_length(tpq, sig) != 0,
    ensures
        r == bar_length(tpq, sig),
        r >= 1,
{
    let denominator: u64 = if sig.denominator_pow < 64 {
        let mut d: u64 = 1;
        let mut k: u8 = 0;
        while k < sig.denominator_pow
            invariant
                0 <= k <= sig.denominator_pow < 64,
                d as int == pow2(k as nat),
            decreases sig.denominator_pow - k,
        {
            proof {
                lemma_pow2_bounds((k + 1) as nat);
                assert(pow2((k + 1) as nat) == 2 * pow2(k as nat));
            }
            d = d * 2;
            k = k + 1;
        }
        d
    } else {
        u64::MAX
    };
    proof {
        if sig.denominator_pow < 64 {
            lemma_pow2_bounds(sig.denominator_pow as nat);
        }
    }
    assert(tpq as u64 * sig.numerator as u64 * 4 <= 0xFFFF_FFFF * 255 * 4) by (nonlinear_arith)
        requires tpq <= 0xFFFF_FFFF, sig.numerator <= 255;
    let raw: u64 = (tpq as u64 * sig.numerator as u64 * 4) / denominator;
    let l: u64 = if raw < 1 { 1 } else { raw };
    (l % 0x1_0000_0000) as u32
}

proof fn lemma_bar_step_push(t: int, len: int, m: int, x: int)
    requires
        len >= 1,
        m >= 0,
    ensures
        ((t + (m + 1) * len) - t) % len == 0,
        t + m * len < x < t + (m + 1) * len ==> (x - t) % len != 0,
        t + (m + 1) * len == t + m * len + len,
{
    assert((m + 1) * len == m * len + len) by (nonlinear_arith);
    vstd::arithmetic::div_mod::lemma_mod_multiples_basic(m + 1, len);
    assert((t + (m + 1) * len) - t == (m + 1) * len);
    if t + m * len < x < t + (m + 1) * len && (x - t) % len == 0 {
        vstd::arithmetic::div_mod::lemma_fundamental_div_mod(x - t, len);
        let q = (x - t) / len;
        assert(x - t == len * q);
        assert(m < q < m + 1) by (nonlinear_arith)
            requires len * q > m * len, len * q < (m + 1) * len, len >= 1;
    }
}

proof fn lemma_bar_step_done(
    t: int,
    len: int,
    m: int,
    seg_end: int,
    out: Seq<u32>,
    sigs: Seq<TimeSignaturePoint>,
    tpq: u32,
    max_tick: u32,
    index: int,
    tick: int,
)
    requires
        len >= 1,
        m >= 0,
        tick == t + m * len,
        m > 0 ==> tick < seg_end,
        tick + len >= seg_end || tick + len > u32::MAX,
        seg_end <= u32::MAX,
        0 <= index < sigs.len(),
        t == sigs[index].tick,
        len == bar_length(tpq, sigs[index]),
        seg_end == segment_end(sigs, index, max_tick),
        forall|x: u32| out.contains(x) <==> (
            (exists|i: int| 0 <= i < index && #[trigger] signature_bar(sigs, tpq, max_tick, i, x as int))
            || x == t
            || (t < x <= tick && (x - t) % len == 0)),
    ensures
        forall|x: u32| out.contains(x) <==> exists|i: int| 0 <= i <= index && #[trigger] signature_bar(sigs, tpq, max_tick, i, x as int),
{
    assert forall|x: u32| out.contains(x) <==> exists|i: int| 0 <= i <= index && #[trigger] signature_bar(sigs, tpq, max_tick, i, x as int) by {
        let xi = x as int;
        if t < xi < seg_end && (xi - t) % len == 0 && xi > tick {
            vstd::arithmetic::div_mod::lemma_fundamental_div_mod(xi - t, len);
            let q = (xi - t) / len;
            assert(xi - t == len * q);
            assert(q >= m + 1) by (nonlinear_arith)
                requires len * q > m * len, len >= 1;
            assert(len * q >= len * (m + 1)) by (nonlinear_arith)
                requires q >= m + 1, len >= 1;
            assert((m + 1) * len == m * len + len) by (nonlinear_arith);
        }
        if t < xi <= tick && (xi - t) % len == 0 {
            if m == 0 {
                assert(tick == t);
            }
            assert(signature_bar(sigs, tpq, max_tick, index, xi));
        }
        if xi == t {
            assert(signature_bar(sigs, tpq, max_tick, index, xi));
        }
    }
}

/// Bar-line times in ms: the distinct ascending times of the bar-grid ticks.
pub fn bar_boundaries(
    signatures: &[TimeSignaturePoint],
    ticks_per_quarter: u32,
    tempo_map: &[TempoPoint],
    max_tick: u32,
) -> (r: Vec<u64>)
    requires
        forall|i: int| 0 <= i < signatures@.len() ==> bar_length(ticks_per_quarter, #[trigger] signatures@[i]) != 0,
    ensures
        strictly_increasing_u64(r@),
        forall|y: u64| r@.contains(y) <==> exists|x: u32|
            (if ticks_per_quarter == 0 { x == 0 || x == max_tick } else { in_bar_grid(signatures@, ticks_per_quarter, max_tick, x as int) })
            && #[trigger] spec_tick_to_ms(x, ticks_per_quarter, tempo_map@) == y,
{
    let ticks = bar_ticks(signatures, ticks_per_quarter, max_tick);
    let mut times: Vec<u64> = Vec::new();
    let mut i: usize = 0;
    while i < ticks.len()
        invariant
            0 <= i <= ticks@.len(),
            times@.len() == i,
            forall|k: int| 0 <= k < i ==> times@[k] == spec_tick_to_ms(#[trigger] ticks@[k], ticks_per_quarter, tempo_map@),
        decreases ticks@.len() - i,
    {
        times.push(tick_to_ms(ticks[i], ticks_per_quarter, tempo_map));
        i = i + 1;
    }
    let ghost unsorted = times@;
    sort_u64(&mut times);
    proof {
        lemma_same_elements(times@, unsorted);
    }
    let r = dedup_sorted_u64(&times);
    proof {
        assert forall|y: u64| r@.contains(y) <==> exists|x: u32|
            (if ticks_per_quarter == 0 { x == 0 || x == max_tick } else { in_bar_grid(signatures@, ticks_per_quarter, max_tick, x as int) })
            && #[trigger] spec_tick_to_ms(x, ticks_per_quarter, tempo_map@) == y by {
            if unsorted.contains(y) {
                let k = choose|k: int| 0 <= k < unsorted.len() && #[trigger] unsorted[k] == y;
                let x = ticks@[k];
                assert(ticks@.contains(x));
                assert(spec_tick_to_ms(x, ticks_per_quarter, tempo_map@) == y);
            }
            if exists|x: u32|
                (if ticks_per_quarter == 0 { x == 0 || x == max_tick } else { in_bar_grid(signatures@, ticks_per_quarter, max_tick, x as int) })
                && #[trigger] spec_tick_to_ms(x, ticks_per_quarter, tempo_map@) == y {
                let x = choose|x: u32|
                    (if ticks_per_quarter == 0 { x == 0 || x == max_tick } else { in_bar_grid(signatures@, ticks_per_quarter, max_tick, x as int) })
                    && #[trigger] spec_tick_to_ms(x, ticks_per_quarter, tempo_map@) == y;
                if ticks_per_quarter == 0 {
                    if x == 0 {
                        assert(ticks@[0] == x);
                    } else {
                        assert(ticks@[1] == x);
                    }
                }
                assert(ticks@.contains(x));
                let k = choose|k: int| 0 <= k < ticks@.len() && #[trigger] ticks@[k] == x;
                assert(unsorted[k] == y);
            }
        }
    }
    r
}

// ----- uniqueness of sorted maps -----

/// Two strictly sorted lists that agree on every key are the same list.
pub proof fn lemma_sorted_map_unique<V>(a: Seq<(u32, V)>, b: Seq<(u32, V)>)
    requires
        strictly_sorted(a),
        strictly_sorted(b),
        forall|k: u32| #[trigger] find_key(a, k) == find_key(b, k),
    ensures
        a == b,
    decreases a.len() + b.len(),
{
    if a.len() == 0 {
        if b.len() > 0 {
            lemma_find_sorted(b, 0);
            assert(find_key(a, b[0].0) == find_key(b, b[0].0));
        }
        assert(a =~= b);
    } else if b.len() == 0 {
        lemma_find_sorted(a, 0);
        assert(find_key(a, a[0].0) == find_key(b, a[0].0));
    } else {
        let la = a.len() - 1;
        let lb = b.len() - 1;
        lemma_find_sorted(a, la);
        lemma_find_sorted(b, lb);
        assert(find_key(b, a[la].0) is Some);
        lemma_find_some_index(b, a[la].0);
        let jb = choose|j: int| 0 <= j < b.len() && b[j].0 == a[la].0;
        assert(find_key(a, b[lb].0) is Some);
        lemma_find_some_index(a, b[lb].0);
        let ja = choose|j: int| 0 <= j < a.len() && a[j].0 == b[lb].0;
        if jb < lb {
            assert(b[jb].0 < b[lb].0);
        }
        if ja < la {
            assert(a[ja].0 < a[la].0);
        }
        assert(a[la].0 == b[lb].0);
        assert(a.last() == a[la]);
        assert(b.last() == b[lb]);
        assert(a[la] == b[lb]);
        let a2 = a.drop_last();
        let b2 = b.drop_last();
        assert forall|k: u32| #[trigger] find_key(a2, k) == find_key(b2, k) by {
            if k == a[la].0 {
                assert forall|j: int| 0 <= j < a2.len() implies a2[j].0 != k by {
                    assert(a[j].0 < a[la].0);
                }
                assert forall|j: int| 0 <= j < b2.len() implies b2[j].0 != k by {
                    assert(b[j].0 < b[lb].0);
                }
                lemma_find_absent(a2, k);
                lemma_find_absent(b2, k);
            } else {
                assert(find_key(a, k) == find_key(a2, k));
                assert(find_key(b, k) == find_key(b2, k));
            }
        }
        lemma_sorted_map_unique(a2, b2);
        assert(a =~= a2.push(a[la]));
        assert(b =~= b2.push(b[lb]));
    }
}

/// The tempo map of a file, as a list.
pub open spec fn spec_tempo_map(tracks: Seq<Seq<MidiEvent>>) -> Seq<TempoPoint> {
    choose|m: Seq<TempoPoint>|
        tempo_map_wf(m) && forall|k: u32| #[trigger] find_key(tempo_pairs(m), k) == tempo_lookup(all_tempos(tracks), k)
}

/// The time-signature map of a file, as a list.
pub open spec fn spec_signature_map(tracks: Seq<Seq<MidiEvent>>) -> Seq<TimeSignaturePoint> {
    choose|m: Seq<TimeSignaturePoint>|
        m.len() > 0 && m[0].tick == 0 && (forall|i: int, j: int| 0 <= i < j < m.len() ==> m[i].tick < m[j].tick)
            && forall|k: u32| #[trigger] find_key(signature_pairs(m), k) == signature_lookup(all_signatures(tracks), k)
}

proof fn lemma_tempo_map_is_spec(m: Seq<TempoPoint>, tracks: Seq<Seq<MidiEvent>>)
    requires
        tempo_map_wf(m),
        forall|k: u32| #[trigger] find_key(tempo_pairs(m), k) == tempo_lookup(all_tempos(tracks), k),
    ensures
        m == spec_tempo_map(tracks),
{
    let c = spec_tempo_map(tracks);
    assert(tempo_map_wf(c));
    assert forall|i: int, j: int| 0 <= i < j < tempo_pairs(m).len() implies tempo_pairs(m)[i].0 < tempo_pairs(m)[j].0 by {}
    assert forall|i: int, j: int| 0 <= i < j < tempo_pairs(c).len() implies tempo_pairs(c)[i].0 < tempo_pairs(c)[j].0 by {}
    assert forall|k: u32| #[trigger] find_key(tempo_pairs(m), k) == find_key(tempo_pairs(c), k) by {}
    lemma_sorted_map_unique(tempo_pairs(m), tempo_pairs(c));
    assert forall|i: int| 0 <= i < m.len() implies m[i] == c[i] by {
        assert(tempo_pairs(m)[i] == tempo_pairs(c)[i]);
    }
    assert(m =~= c);
}

proof fn lemma_signature_map_is_spec(m: Seq<TimeSignaturePoint>, tracks: Seq<Seq<MidiEvent>>)
    requires
        m.len() > 0 && m[0].tick == 0,
        forall|i: int, j: int| 0 <= i < j < m.len() ==> m[i].tick < m[j].tick,
        forall|k: u32| #[trigger] find_key(signature_pairs(m), k) == signature_lookup(all_signatures(tracks), k),
    ensures
        m == spec_signature_map(tracks),
{
    let c = spec_signature_map(tracks);
    assert(c.len() > 0);
    assert forall|i: int, j: int| 0 <= i < j < signature_pairs(m).len() implies signature_pairs(m)[i].0 < signature_pairs(m)[j].0 by {}
    assert forall|i: int, j: int| 0 <= i < j < signature_pairs(c).len() implies signature_pairs(c)[i].0 < signature_pairs(c)[j].0 by {}
    assert forall|k: u32| #[trigger] find_key(signature_pairs(m), k) == find_key(signature_pairs(c), k) by {}
    lemma_sorted_map_unique(signature_pairs(m), signature_pairs(c));
    assert forall|i: int| 0 <= i < m.len() implies m[i] == c[i] by {
        assert(signature_pairs(m)[i] == signature_pairs(c)[i]);
    }
    assert(m =~= c);
}


// ----- bounds on the timeline -----

/// Slowest tempo plus one: a tempo meta event carries a 24-bit µs-per-quarter value.
pub const TEMPO_LIMIT: u32 = 0x100_0000;

/// Latest millisecond any tick of a file can map to: 2^32 ticks at the slowest tempo and
/// one tick per quarter.
pub const MAX_TIMELINE_MS: u64 = 72_057_594_037_928;

/// Every event of every track lies within the `midly` value ranges.
pub open spec fn tracks_in_range(tracks: Seq<Seq<MidiEvent>>) -> bool {
    forall|t: int, i: int| 0 <= t < tracks.len() && 0 <= i < tracks[t].len() ==> event_in_range(#[trigger] tracks[t][i])
}

pub proof fn lemma_file_tracks_in_range(f: &MidiFile)
    requires
        file_in_range(f),
    ensures
        tracks_in_range(file_tracks(f)),
{
    assert forall|t: int, i: int| 0 <= t < file_tracks(f).len() && 0 <= i < file_tracks(f)[t].len() implies event_in_range(
        #[trigger] file_tracks(f)[t][i],
    ) by {
        assert(file_tracks(f)[t] == f.tracks@[t]@);
        assert(event_in_range(f.tracks@[t]@[i]));
    }
}

pub open spec fn tempos_bounded(s: Seq<(u32, u32)>) -> bool {
    forall|i: int| 0 <= i < s.len() ==> (#[trigger] s[i]).1 < TEMPO_LIMIT
}

proof fn lemma_find_bounded(s: Seq<(u32, u32)>, k: u32)
    requires
        tempos_bounded(s),
    ensures
        find_key(s, k) matches Some(v) ==> v < TEMPO_LIMIT,
    decreases s.len(),
{
    if s.len() > 0 {
        assert(s.last() == s[s.len() - 1]);
        assert(tempos_bounded(s.drop_last())) by {
            assert forall|i: int| 0 <= i < s.drop_last().len() implies (#[trigger] s.drop_last()[i]).1 < TEMPO_LIMIT by {
                assert(s.drop_last()[i] == s[i]);
            }
        }
        lemma_find_bounded(s.drop_last(), k);
    }
}

proof fn lemma_track_tempos_bounded(track: Seq<MidiEvent>, n: int)
    requires
        0 <= n <= track.len(),
        forall|i: int| 0 <= i < track.len() ==> event_in_range(#[trigger] track[i]),
    ensures
        tempos_bounded(track_tempos(track, n)),
    decreases n,
{
    if n > 0 {
        lemma_track_tempos_bounded(track, n - 1);
        assert(event_in_range(track[n - 1]));
        let prev = track_tempos(track, n - 1);
        match track[n - 1].meta {
            Some(MetaEvent::Tempo(us)) => {
                assert forall|i: int| 0 <= i < prev.push((ticks_through(track, n), us)).len() implies (#[trigger] prev.push(
                    (ticks_through(track, n), us),
                )[i]).1 < TEMPO_LIMIT by {
                    if i < prev.len() {
                        assert(prev[i].1 < TEMPO_LIMIT);
                    }
                }
            },
            _ => {},
        }
    }
}

proof fn lemma_file_tempos_bounded(tracks: Seq<Seq<MidiEvent>>, k: int)
    requires
        0 <= k <= tracks.len(),
        tracks_in_range(tracks),
    ensures
        tempos_bounded(file_tempos(tracks, k)),
    decreases k,
{
    if k > 0 {
        lemma_file_tempos_bounded(tracks, k - 1);
        let track = tracks[k - 1];
        assert forall|i: int| 0 <= i < track.len() implies event_in_range(#[trigger] track[i]) by {
            assert(event_in_range(tracks[k - 1][i]));
        }
        lemma_track_tempos_bounded(track, track.len() as int);
        let a = file_tempos(tracks, k - 1);
        let b = track_tempos(track, track.len() as int);
        assert forall|i: int| 0 <= i < (a + b).len() implies (#[trigger] (a + b)[i]).1 < TEMPO_LIMIT by {
            if i < a.len() {
                assert((a + b)[i] == a[i]);
            } else {
                assert((a + b)[i] == b[i - a.len()]);
            }
        }
    }
}

/// Every tempo of a file's tempo map is a 24-bit value.
pub proof fn lemma_tempo_map_bounded(m: Seq<TempoPoint>, tracks: Seq<Seq<MidiEvent>>)
    requires
        tempo_map_wf(m),
        forall|k: u32| #[trigger] find_key(tempo_pairs(m), k) == tempo_lookup(all_tempos(tracks), k),
        tracks_in_range(tracks),
    ensures
        forall|i: int| 0 <= i < m.len() ==> (#[trigger] m[i]).us_per_quarter < TEMPO_LIMIT,
{
    lemma_file_tempos_bounded(tracks, tracks.len() as int);
    let pairs = tempo_pairs(m);
    assert forall|i: int| 0 <= i < m.len() implies (#[trigger] m[i]).us_per_quarter < TEMPO_LIMIT by {
        assert(strictly_sorted(pairs)) by {
            assert forall|a: int, b: int| 0 <= a < b < pairs.len() implies pairs[a].0 < pairs[b].0 by {
                assert(m[a].tick < m[b].tick);
            }
        }
        lemma_find_sorted(pairs, i);
        assert(pairs[i] == (m[i].tick, m[i].us_per_quarter));
        lemma_find_bounded(all_tempos(tracks), m[i].tick);
    }
}

/// Walking the map never gathers more than `TEMPO_LIMIT` tick-microseconds per tick.
proof fn lemma_walk_bound(m: Seq<TempoPoint>, k: int, tick: int, cursor: int, us: int)
    requires
        forall|i: int, j: int| 0 <= i < j < m.len() ==> m[i].tick < m[j].tick,
        forall|i: int| 0 <= i < m.len() ==> (#[trigger] m[i]).us_per_quarter < TEMPO_LIMIT,
        0 <= k,
        0 <= cursor,
        k < m.len() ==> cursor <= m[k].tick,
        0 <= us <= TEMPO_LIMIT,
    ensures
        walk_us_ticks(m, k, tick, cursor, us) + cursor * TEMPO_LIMIT <= (if tick > cursor {
            tick
        } else {
            cursor
        }) * TEMPO_LIMIT,
    decreases m.len() - k,
{
    let b = TEMPO_LIMIT as int;
    if k >= m.len() {
        if tick > cursor {
            assert((tick - cursor) * us <= (tick - cursor) * b) by (nonlinear_arith)
                requires tick > cursor, us <= b;
        }
    } else {
        let p = m[k];
        if p.tick >= tick {
            if tick > cursor {
                assert((tick - cursor) * us <= (tick - cursor) * b) by (nonlinear_arith)
                    requires tick > cursor, us <= b;
            }
        } else {
            lemma_walk_bound(m, k + 1, tick, p.tick as int, p.us_per_quarter as int);
            if p.tick > cursor {
                assert((p.tick - cursor) * us <= (p.tick - cursor) * b) by (nonlinear_arith)
                    requires p.tick > cursor, us <= b;
            }
        }
    }
}

/// Milliseconds of any tick under a tempo map of 24-bit tempos stay within `MAX_TIMELINE_MS`.
pub proof fn lemma_tick_to_ms_bound(tick: u32, ticks_per_beat: u32, m: Seq<TempoPoint>)
    requires
        forall|i: int, j: int| 0 <= i < j < m.len() ==> m[i].tick < m[j].tick,
        forall|i: int| 0 <= i < m.len() ==> (#[trigger] m[i]).us_per_quarter < TEMPO_LIMIT,
    ensures
        spec_tick_to_ms(tick, ticks_per_beat, m) <= MAX_TIMELINE_MS,
{
    if ticks_per_beat != 0 && tick != 0 {
        let us0 = first_tempo(m);
        if m.len() > 0 {
            assert(m[0].us_per_quarter < TEMPO_LIMIT);
        }
        lemma_walk_bound(m, 0, tick as int, 0, us0 as int);
        lemma_walk_nonneg(m, 0, tick as int, 0, us0 as int);
        let n = us_ticks(m, tick);
        let d = ticks_per_beat as int * 1000;
        assert(n <= tick * (TEMPO_LIMIT as int));
        assert(n / d <= 72_057_594_037_927) by (nonlinear_arith)
            requires
                0 <= n <= tick * 0x100_0000,
                tick <= 0xffff_ffff,
                d >= 1000,
        {
            assert(n <= 0x100_0000_0000_0000);
            assert(n / d <= n / 1000) by {
                vstd::arithmetic::div_mod::lemma_div_is_ordered_by_denominator(n, 1000, d);
            }
        }
    }
}

} // verus!
