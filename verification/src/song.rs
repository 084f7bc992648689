//! Song analysis on Standard MIDI File bytes: duration, tempo at a position,
//! metronome beats and the expected drum hits.

use vstd::prelude::*;

use crate::domain::{spec_gm_note_to_pad, gm_note_to_pad, ExpectedHit};
use crate::smf::{
    file_in_range, file_tracks, midly_parse, parse_midi_bytes, ChannelMessage, MidiEvent, MidiFile,
    Timing,
};
use crate::tempo::{
    build_tempo_map, first_tempo, spec_tempo_map, spec_tick_to_ms, spec_ticks_per_beat,
    tempo_map_wf, tick_to_ms, ticks_per_beat, ticks_through, track_end_tick, TempoPoint,
};
use crate::tempo::{
    lemma_file_tracks_in_range, lemma_tempo_map_bounded, lemma_tick_to_ms_bound, sat_add,
    MAX_TIMELINE_MS, TEMPO_LIMIT,
};
use crate::tempo::{
    bar_boundaries, bar_length, build_time_signature_map, in_bar_grid, spec_signature_map,
    TimeSignaturePoint,
};
use crate::sorting::strictly_increasing_u64;
use crate::smf::{MetaEvent, timing_in_range, event_in_range};
use crate::text::{
    chars_contain, concat2, concat3, contains_text, decimal_text, decode_midi_text, file_name,
    is_path_component, lowercase_text, plain_file_path, slash_tail, owned, spec_decode_midi_text, str_chars, to_lowercase,
    u64_decimal,
};

verus! {

broadcast use vstd::seq_lib::group_to_multiset_ensures;

/// Why a song could not be read or analysed.
#[derive(Debug, Clone)]
pub enum MidiError {
    Io(String),
    Parse(String),
    Input(String),
    TrackOutOfRange(u16),
}

impl MidiError {
    /// Human-readable description.
    pub fn message(&self) -> (r: String)
        ensures
            match self {
                MidiError::Io(s) => r@ == "failed to read MIDI file: "@ + s@,
                MidiError::Parse(s) => r@ == "failed to parse MIDI file: "@ + s@,
                MidiError::Input(s) => r@ == "MIDI input error: "@ + s@,
                MidiError::TrackOutOfRange(n) => r@ == "track "@ + decimal_text(*n as nat)
                    + " out of range"@,
            },
    {
        match self {
            MidiError::Io(s) => concat2("failed to read MIDI file: ", s.as_str()),
            MidiError::Parse(s) => concat2("failed to parse MIDI file: ", s.as_str()),
            MidiError::Input(s) => concat2("MIDI input error: ", s.as_str()),
            MidiError::TrackOutOfRange(n) => {
                let digits = u64_decimal(*n as u64);
                concat3("track ", digits.as_str(), " out of range")
            },
        }
    }
}

/// Parse bytes, reporting a failure as `MidiError::Parse`.
pub fn load_midi(bytes: &[u8]) -> (r: Result<MidiFile, MidiError>)
    ensures
        match r {
            Ok(f) => midly_parse(bytes@) == Some((f.timing, file_tracks(&f))) && file_in_range(&f)
                && forall|t: int| 0 <= t < f.tracks@.len() ==> (#[trigger] f.tracks@[t])@.len() <= bytes@.len(),
            Err(e) => midly_parse(bytes@) is None && e is Parse,
        },
{
    match parse_midi_bytes(bytes) {
        Ok(f) => Ok(f),
        Err(e) => Err(MidiError::Parse(e)),
    }
}

/// Largest end tick among the first `k` tracks.
pub open spec fn max_end_tick(tracks: Seq<Seq<MidiEvent>>, k: int) -> u32
    decreases k,
{
    if k <= 0 {
        0
    } else {
        let prev = max_end_tick(tracks, k - 1);
        let e = track_end_tick(tracks[k - 1]);
        if e > prev {
            e
        } else {
            prev
        }
    }
}

/// Song length in ms: the latest track end under the tempo map.
pub open spec fn spec_song_duration(timing: Timing, tracks: Seq<Seq<MidiEvent>>) -> u64 {
    spec_tick_to_ms(
        max_end_tick(tracks, tracks.len() as int),
        spec_ticks_per_beat(timing),
        spec_tempo_map(tracks),
    )
}

/// End tick of a track.
pub fn track_end(track: &Vec<MidiEvent>) -> (r: u32)
    ensures
        r == track_end_tick(track@),
{
    let mut t: u32 = 0;
    let mut i: usize = 0;
    while i < track.len()
        invariant
            0 <= i <= track@.len(),
            t == ticks_through(track@, i as int),
        decreases track@.len() - i,
    {
        t = t.saturating_add(track[i].delta);
        i = i + 1;
    }
    t
}

/// Latest end tick over all tracks.
pub fn song_end_tick(file: &MidiFile) -> (r: u32)
    ensures
        r == max_end_tick(file_tracks(file), file_tracks(file).len() as int),
{
    let ghost tracks = file_tracks(file);
    let mut max_ticks: u32 = 0;
    let mut k: usize = 0;
    while k < file.tracks.len()
        invariant
            tracks == file_tracks(file),
            0 <= k <= tracks.len(),
            max_ticks == max_end_tick(tracks, k as int),
        decreases tracks.len() - k,
    {
        let e = track_end(&file.tracks[k]);
        assert(file.tracks@[k as int]@ == tracks[k as int]);
        if e > max_ticks {
            max_ticks = e;
        }
        k = k + 1;
    }
    max_ticks
}

/// Song length in ms.
pub fn song_duration_ms(file: &MidiFile, ticks_per_beat: u32, tempo_map: &[TempoPoint]) -> (r: u64)
    ensures
        r == spec_tick_to_ms(
            max_end_tick(file_tracks(file), file_tracks(file).len() as int),
            ticks_per_beat,
            tempo_map@,
        ),
{
    tick_to_ms(song_end_tick(file), ticks_per_beat, tempo_map)
}

/// Number of leading map points (from `k`) whose time is at or before `pos`.
pub open spec fn points_reached(m: Seq<TempoPoint>, tpb: u32, pos: u64, k: int) -> int
    decreases m.len() - k,
{
    if k < 0 || k >= m.len() {
        m.len() as int
    } else if spec_tick_to_ms(m[k].tick, tpb, m) > pos {
        k
    } else {
        points_reached(m, tpb, pos, k + 1)
    }
}

/// Tempo (µs per quarter) in force at `pos` ms.
pub open spec fn tempo_at(m: Seq<TempoPoint>, tpb: u32, pos: u64) -> u32 {
    let n = points_reached(m, tpb, pos, 0);
    if n > 0 {
        m[n - 1].us_per_quarter
    } else {
        first_tempo(m)
    }
}

/// Quarter-note length in ms for a tempo: µs / 1000 rounded half up, at least 1.
pub open spec fn quarter_ms_of(us: u32) -> u64 {
    let q = (us + 500) / 1000;
    if q < 1 {
        1
    } else {
        q as u64
    }
}

/// Quarter-note duration in ms at `position_ms` under the file's tempo map
/// (500 ms, i.e. 120 BPM, when the file has no tempo).
pub fn quarter_ms_at(bytes: &[u8], position_ms: u64) -> (r: Result<u64, MidiError>)
    ensures
        match midly_parse(bytes@) {
            None => r matches Err(MidiError::Parse(_)),
            Some((timing, tracks)) => r == Ok::<u64, MidiError>(
                quarter_ms_of(
                    tempo_at(spec_tempo_map(tracks), spec_ticks_per_beat(timing), position_ms),
                ),
            ),
        },
{
    let file = load_midi(bytes)?;
    Ok(quarter_ms_in_file(&file, position_ms))
}

/// Quarter-note duration in ms at `position_ms` under the tempo map of a parsed file.
pub fn quarter_ms_in_file(file: &MidiFile, position_ms: u64) -> (r: u64)
    requires
        file_in_range(file),
    ensures
        r == quarter_ms_of(tempo_at(spec_tempo_map(file_tracks(file)), spec_ticks_per_beat(file.timing), position_ms)),
{
    let tpb = ticks_per_beat(file.timing);
    let tempo_map = build_tempo_map(file);
    let ghost m = tempo_map@;
    let mut us: u32 = if tempo_map.len() > 0 {
        tempo_map[0].us_per_quarter
    } else {
        500_000
    };
    let mut k: usize = 0;
    while k < tempo_map.len()
        invariant_except_break
            m == tempo_map@,
            0 <= k <= m.len(),
            points_reached(m, tpb, position_ms, k as int) == points_reached(m, tpb, position_ms, 0),
            us == (if k > 0 { m[k - 1].us_per_quarter } else { first_tempo(m) }),
        ensures
            us == tempo_at(m, tpb, position_ms),
        decreases m.len() - k,
    {
        let at_ms = tick_to_ms(tempo_map[k].tick, tpb, tempo_map.as_slice());
        if at_ms > position_ms {
            break;
        }
        us = tempo_map[k].us_per_quarter;
        k = k + 1;
    }
    let q: u64 = (us as u64 + 500) / 1000;
    if q < 1 {
        1
    } else {
        q
    }
}

/// Beat `i` of the metronome lies at tick `i * tpb`.
pub open spec fn beat_tick(i: int, tpb: u32) -> int {
    i * tpb
}

/// Beat `i` is within the tick range, lies at its tick's time and not after the song end.
pub open spec fn beat_ok(beats: Seq<u64>, i: int, tpb: u32, m: Seq<TempoPoint>, dur: u64) -> bool {
    &&& beat_tick(i, tpb) <= u32::MAX
    &&& beats[i] == spec_tick_to_ms(beat_tick(i, tpb) as u32, tpb, m)
    &&& beats[i] <= dur
}

/// Most beats a metronome track holds.
pub const MAX_METRONOME_BEATS: usize = 500_001;

/// Beat `i` lies at tick `i * ticks_per_beat`, from 0 while within the song and the tick
/// range, at most 500 001 beats; none without a ticks-per-beat value.
pub open spec fn metronome_ok(beats: Seq<u64>, timing: Timing, tracks: Seq<Seq<MidiEvent>>) -> bool {
    let tpb = spec_ticks_per_beat(timing);
    let m = spec_tempo_map(tracks);
    let dur = spec_song_duration(timing, tracks);
    &&& tpb == 0 ==> beats.len() == 0
    &&& tpb != 0 ==> {
        &&& beats.len() <= MAX_METRONOME_BEATS
        &&& forall|i: int| 0 <= i < beats.len() ==> #[trigger] beat_ok(beats, i, tpb, m, dur)
        &&& beats.len() == MAX_METRONOME_BEATS
            || beat_tick(beats.len() as int, tpb) > u32::MAX
            || spec_tick_to_ms(beat_tick(beats.len() as int, tpb) as u32, tpb, m) > dur
    }
}

/// Quarter-note beat times in ms: beat `i` at tick `i * ticks_per_beat`, from 0 while within
/// the song and the tick range, at most 500 001 beats; none without a ticks-per-beat value.
pub fn build_metronome_beats(bytes: &[u8]) -> (r: Result<Vec<u64>, MidiError>)
    ensures
        match midly_parse(bytes@) {
            None => r matches Err(MidiError::Parse(_)),
            Some((timing, tracks)) => r matches Ok(beats) && metronome_ok(beats@, timing, tracks),
        },
{
    let file = load_midi(bytes)?;
    Ok(metronome_beats_of(&file))
}

/// Metronome beat times of a parsed file (see `build_metronome_beats`).
pub fn metronome_beats_of(file: &MidiFile) -> (r: Vec<u64>)
    requires
        file_in_range(file),
    ensures
        metronome_ok(r@, file.timing, file_tracks(file)),
{
    let tpb = ticks_per_beat(file.timing);
    if tpb == 0 {
        return Vec::new();
    }
    let tempo_map = build_tempo_map(file);
    let duration_ms = song_duration_ms(file, tpb, tempo_map.as_slice());
    let ghost m = tempo_map@;
    let mut beats: Vec<u64> = Vec::new();
    let mut tick: u32 = 0;
    loop
        invariant_except_break
            tick as int == beat_tick(beats@.len() as int, tpb),
            beats@.len() < MAX_METRONOME_BEATS,
        invariant
            m == tempo_map@,
            tpb != 0,
            forall|i: int| 0 <= i < beats@.len() ==> #[trigger] beat_ok(beats@, i, tpb, m, duration_ms),
        ensures
            beats@.len() <= MAX_METRONOME_BEATS,
            beats@.len() == MAX_METRONOME_BEATS || beat_tick(beats@.len() as int, tpb) > u32::MAX
                || spec_tick_to_ms(beat_tick(beats@.len() as int, tpb) as u32, tpb, m) > duration_ms,
        decreases u32::MAX - tick,
    {
        let ms = tick_to_ms(tick, tpb, tempo_map.as_slice());
        if ms > duration_ms {
            break;
        }
        let ghost prev = beats@;
        beats.push(ms);
        proof {
            assert forall|i: int| 0 <= i < beats@.len() implies #[trigger] beat_ok(beats@, i, tpb, m, duration_ms) by {
                if i < prev.len() {
                    assert(beat_ok(prev, i, tpb, m, duration_ms));
                    assert(beats@[i] == prev[i]);
                } else {
                    assert(beat_tick(i, tpb) as u32 == tick);
                }
            }
            assert(beat_tick(beats@.len() as int, tpb) == tick + tpb) by (nonlinear_arith)
                requires tick as int == beat_tick(beats@.len() - 1, tpb);
        }
        let next = match tick.checked_add(tpb) {
            Some(n) => n,
            None => break,
        };
        if next == tick || beats.len() >= MAX_METRONOME_BEATS {
            break;
        }
        tick = next;
    }
    beats
}

/// The GM-mapped expected hits of a track among its first `n` events, in event order,
/// numbered from 0.
pub open spec fn raw_expected_hits(track: Seq<MidiEvent>, n: int, tpb: u32, m: Seq<TempoPoint>) -> Seq<ExpectedHit>
    decreases n,
{
    if n <= 0 {
        Seq::empty()
    } else {
        let prev = raw_expected_hits(track, n - 1, tpb, m);
        match track[n - 1].channel {
            Some((_, ChannelMessage::NoteOn { key, vel })) => if vel > 0 && spec_gm_note_to_pad(key) is Some {
                prev.push(
                    ExpectedHit {
                        uid: prev.len() as u64,
                        pad_id: spec_gm_note_to_pad(key).unwrap(),
                        time_ms: spec_tick_to_ms(ticks_through(track, n), tpb, m),
                        velocity: vel,
                    },
                )
            } else {
                prev
            },
            _ => prev,
        }
    }
}

/// Order of the expected timeline: by time, then by uid.
pub open spec fn hit_before(a: ExpectedHit, b: ExpectedHit) -> bool {
    a.time_ms < b.time_ms || (a.time_ms == b.time_ms && a.uid <= b.uid)
}

pub open spec fn hits_sorted(s: Seq<ExpectedHit>) -> bool {
    forall|i: int, j: int| 0 <= i <= j < s.len() ==> hit_before(s[i], s[j])
}

/// `<[ExpectedHit]>::sort_by_key` on (time, uid): ascending order, same elements.
#[verifier::external_body]
fn sort_hits(v: &mut Vec<ExpectedHit>)
    ensures
        hits_sorted(final(v)@),
        final(v)@.to_multiset() == old(v)@.to_multiset(),
{
    v.sort_by_key(|h| (h.time_ms, h.uid));
}

/// `hits` is the expected timeline of track `track_id` sorted by time then uid, and `dur`
/// the song duration; both stay within `MAX_TIMELINE_MS`.
pub open spec fn expected_ok(hits: Seq<ExpectedHit>, dur: u64, timing: Timing, tracks: Seq<Seq<MidiEvent>>, track_id: u16) -> bool {
    let tpb = spec_ticks_per_beat(timing);
    let m = spec_tempo_map(tracks);
    let track = tracks[track_id as int];
    &&& hits_sorted(hits)
    &&& hits.to_multiset() == raw_expected_hits(track, track.len() as int, tpb, m).to_multiset()
    &&& dur == spec_song_duration(timing, tracks)
    &&& forall|i: int| 0 <= i < hits.len() ==> (#[trigger] hits[i]).time_ms <= MAX_TIMELINE_MS
    &&& dur <= MAX_TIMELINE_MS
}

/// The expected-hit timeline of a drum track (GM map, velocity > 0 only), sorted by time
/// then uid, with the song duration.
pub fn build_expected_hits(bytes: &[u8], track_id: u16) -> (r: Result<(Vec<ExpectedHit>, u64), MidiError>)
    ensures
        match midly_parse(bytes@) {
            None => r matches Err(MidiError::Parse(_)),
            Some((timing, tracks)) => if track_id as int >= tracks.len() {
                r matches Err(MidiError::TrackOutOfRange(id)) && id == track_id
            } else {
                r matches Ok((hits, dur)) && expected_ok(hits@, dur, timing, tracks, track_id) && hits@.len() <= bytes@.len()
            },
        },
{
    let file = load_midi(bytes)?;
    expected_hits_of(&file, track_id)
}

/// The expected-hit timeline of track `track_id` of a parsed file, with the song duration
/// (see `build_expected_hits`); at most one hit per event of the track.
pub fn expected_hits_of(file: &MidiFile, track_id: u16) -> (r: Result<(Vec<ExpectedHit>, u64), MidiError>)
    requires
        file_in_range(file),
    ensures
        if track_id as int >= file.tracks@.len() {
            r matches Err(MidiError::TrackOutOfRange(id)) && id == track_id
        } else {
            r matches Ok((hits, dur)) && expected_ok(hits@, dur, file.timing, file_tracks(file), track_id)
                && hits@.len() <= file.tracks@[track_id as int]@.len()
        },
{
    let tpb = ticks_per_beat(file.timing);
    let tempo_map = build_tempo_map(file);
    if track_id as usize >= file.tracks.len() {
        return Err(MidiError::TrackOutOfRange(track_id));
    }
    let track = &file.tracks[track_id as usize];
    let ghost m = tempo_map@;
    proof {
        lemma_file_tracks_in_range(file);
        lemma_tempo_map_bounded(m, file_tracks(file));
    }
    let mut hits: Vec<ExpectedHit> = Vec::new();
    let mut abs_tick: u32 = 0;
    let mut uid: u64 = 0;
    let mut i: usize = 0;
    while i < track.len()
        invariant
            m == tempo_map@,
            0 <= i <= track@.len(),
            abs_tick == ticks_through(track@, i as int),
            hits@ == raw_expected_hits(track@, i as int, tpb, m),
            uid == hits@.len(),
            hits@.len() <= i,
            tempo_map_wf(m),
            forall|j: int| 0 <= j < m.len() ==> (#[trigger] m[j]).us_per_quarter < TEMPO_LIMIT,
            forall|j: int| 0 <= j < hits@.len() ==> (#[trigger] hits@[j]).time_ms <= MAX_TIMELINE_MS,
        decreases track@.len() - i,
    {
        proof {
            lemma_tick_to_ms_bound(sat_add(abs_tick, track@[i as int].delta), tpb, m);
        }
        abs_tick = abs_tick.saturating_add(track[i].delta);
        match track[i].channel {
            Some((_, ChannelMessage::NoteOn { key, vel })) => {
                if vel > 0 {
                    match gm_note_to_pad(key) {
                        Some(pad_id) => {
                            hits.push(
                                ExpectedHit {
                                    uid,
                                    pad_id,
                                    time_ms: tick_to_ms(abs_tick, tpb, tempo_map.as_slice()),
                                    velocity: vel,
                                },
                            );
                            uid = uid + 1;
                        },
                        None => {},
                    }
                }
            },
            _ => {},
        }
        i = i + 1;
    }
    let ghost unsorted = hits@;
    sort_hits(&mut hits);
    proof {
        assert(hits@.len() == hits@.to_multiset().len());
        assert(unsorted.len() == unsorted.to_multiset().len());
        assert forall|i: int| 0 <= i < hits@.len() implies (#[trigger] hits@[i]).time_ms <= MAX_TIMELINE_MS by {
            assert(hits@.to_multiset().count(hits@[i]) > 0);
            assert(unsorted.contains(hits@[i]));
        }
    }
    let duration_ms = song_duration_ms(file, tpb, tempo_map.as_slice());
    proof {
        lemma_tick_to_ms_bound(max_end_tick(file_tracks(file), file_tracks(file).len() as int), tpb, m);
    }
    Ok((hits, duration_ms))
}

// ----- channel volumes -----

/// GM / MIDI default for Main Volume (CC7).
pub const DEFAULT_TRACK_VOLUME: u8 = 100;

pub const CC_MAIN_VOLUME: u8 = 7;

/// Events of a track among the first `n`, with their absolute ticks.
pub open spec fn track_flat(track: Seq<MidiEvent>, n: int) -> Seq<(u32, MidiEvent)>
    decreases n,
{
    if n <= 0 {
        Seq::empty()
    } else {
        track_flat(track, n - 1).push((ticks_through(track, n), track[n - 1]))
    }
}

/// Events of the first `k` tracks with absolute ticks, track after track.
pub open spec fn file_flat(tracks: Seq<Seq<MidiEvent>>, k: int) -> Seq<(u32, MidiEvent)>
    decreases k,
{
    if k <= 0 {
        Seq::empty()
    } else {
        file_flat(tracks, k - 1) + track_flat(tracks[k - 1], tracks[k - 1].len() as int)
    }
}

pub open spec fn is_sounding_note_on(e: MidiEvent) -> bool {
    e.channel matches Some((_, ChannelMessage::NoteOn { vel, .. })) && vel > 0
}

/// Earliest tick of a sounding note on a channel.
pub open spec fn first_note_tick(flat: Seq<(u32, MidiEvent)>, ch: u8) -> Option<u32>
    decreases flat.len(),
{
    if flat.len() == 0 {
        None
    } else {
        let prev = first_note_tick(flat.drop_last(), ch);
        let (t, e) = flat.last();
        if is_sounding_note_on(e) && e.channel.unwrap().0 == ch {
            match prev {
                Some(p) => Some(if t < p { t } else { p }),
                None => Some(t),
            }
        } else {
            prev
        }
    }
}

/// The Main Volume change on a channel at or before `limit` with the latest tick
/// (the later one in file order on a shared tick): (tick, value).
pub open spec fn last_volume_before(flat: Seq<(u32, MidiEvent)>, ch: u8, limit: u32) -> Option<(u32, u8)>
    decreases flat.len(),
{
    if flat.len() == 0 {
        None
    } else {
        let prev = last_volume_before(flat.drop_last(), ch, limit);
        let (t, e) = flat.last();
        match e.channel {
            Some((c, ChannelMessage::Controller { controller, value })) => if controller == CC_MAIN_VOLUME
                && c == ch && t <= limit && (prev is None || t >= prev.unwrap().0) {
                Some((t, value))
            } else {
                prev
            },
            _ => prev,
        }
    }
}

/// Initial Main Volume of a channel: the last CC7 at or before the channel's first note
/// (anywhere in the file), else 100.
pub open spec fn spec_channel_volume(flat: Seq<(u32, MidiEvent)>, ch: u8) -> u8 {
    let limit = match first_note_tick(flat, ch) {
        Some(t) => t,
        None => u32::MAX,
    };
    match last_volume_before(flat, ch, limit) {
        Some((_, v)) => v,
        None => DEFAULT_TRACK_VOLUME,
    }
}

pub open spec fn all_flat(tracks: Seq<Seq<MidiEvent>>) -> Seq<(u32, MidiEvent)> {
    file_flat(tracks, tracks.len() as int)
}

/// Initial CC7 per MIDI channel (16 entries).
pub fn channel_setup_volumes(file: &MidiFile) -> (r: Vec<u8>)
    ensures
        r@.len() == 16,
        forall|ch: int| 0 <= ch < 16 ==> r@[ch] == spec_channel_volume(all_flat(file_tracks(file)), ch as u8),
{
    let ghost tracks = file_tracks(file);
    // Pass 1: first sounding note per channel.
    let mut first: Vec<Option<u32>> = Vec::new();
    let mut c: usize = 0;
    while c < 16
        invariant
            0 <= c <= 16,
            first@.len() == c,
            forall|k: int| 0 <= k < c ==> first@[k] is None,
        decreases 16 - c,
    {
        first.push(None);
        c = c + 1;
    }
    let mut t: usize = 0;
    while t < file.tracks.len()
        invariant
            tracks == file_tracks(file),
            0 <= t <= tracks.len(),
            first@.len() == 16,
            forall|k: int| 0 <= k < 16 ==> first@[k] == first_note_tick(file_flat(tracks, t as int), k as u8),
        decreases tracks.len() - t,
    {
        let track = &file.tracks[t];
        assert(track@ == tracks[t as int]);
        let ghost base = file_flat(tracks, t as int);
        let mut abs_tick: u32 = 0;
        let mut i: usize = 0;
        while i < track.len()
            invariant
                0 <= i <= track@.len(),
                abs_tick == ticks_through(track@, i as int),
                first@.len() == 16,
                forall|k: int| 0 <= k < 16 ==> first@[k] == first_note_tick(base + track_flat(track@, i as int), k as u8),
            decreases track@.len() - i,
        {
            abs_tick = abs_tick.saturating_add(track[i].delta);
            let ghost before = base + track_flat(track@, i as int);
            let ghost after = base + track_flat(track@, i + 1);
            assert(after =~= before.push((abs_tick, track@[i as int])));
            assert(after.drop_last() =~= before);
            match track[i].channel {
                Some((ch, ChannelMessage::NoteOn { key: _, vel })) => {
                    if vel > 0 && (ch as usize) < 16 {
                        let cur = first[ch as usize];
                        let nv = match cur {
                            Some(p) => Some(if abs_tick < p { abs_tick } else { p }),
                            None => Some(abs_tick),
                        };
                        first.set(ch as usize, nv);
                    }
                },
                _ => {},
            }
            i = i + 1;
        }
        assert(base + track_flat(track@, track@.len() as int) =~= file_flat(tracks, t + 1));
        t = t + 1;
    }
    // Pass 2: the last CC7 at or before that tick.
    let mut best: Vec<Option<(u32, u8)>> = Vec::new();
    let mut c: usize = 0;
    while c < 16
        invariant
            0 <= c <= 16,
            best@.len() == c,
            forall|k: int| 0 <= k < c ==> best@[k] is None,
        decreases 16 - c,
    {
        best.push(None);
        c = c + 1;
    }
    let ghost flat_all = file_flat(tracks, tracks.len() as int);
    let mut t: usize = 0;
    while t < file.tracks.len()
        invariant
            tracks == file_tracks(file),
            flat_all == file_flat(tracks, tracks.len() as int),
            0 <= t <= tracks.len(),
            first@.len() == 16,
            best@.len() == 16,
            forall|k: int| 0 <= k < 16 ==> first@[k] == first_note_tick(flat_all, k as u8),
            forall|k: int| 0 <= k < 16 ==> best@[k] == last_volume_before(file_flat(tracks, t as int), k as u8,
                match first_note_tick(flat_all, k as u8) { Some(x) => x, None => u32::MAX }),
        decreases tracks.len() - t,
    {
        let track = &file.tracks[t];
        assert(track@ == tracks[t as int]);
        let ghost base = file_flat(tracks, t as int);
        let mut abs_tick: u32 = 0;
        let mut i: usize = 0;
        while i < track.len()
            invariant
                0 <= i <= track@.len(),
                abs_tick == ticks_through(track@, i as int),
                first@.len() == 16,
                best@.len() == 16,
                forall|k: int| 0 <= k < 16 ==> first@[k] == first_note_tick(flat_all, k as u8),
                forall|k: int| 0 <= k < 16 ==> best@[k] == last_volume_before(base + track_flat(track@, i as int), k as u8,
                    match first_note_tick(flat_all, k as u8) { Some(x) => x, None => u32::MAX }),
            decreases track@.len() - i,
        {
            abs_tick = abs_tick.saturating_add(track[i].delta);
            let ghost before = base + track_flat(track@, i as int);
            let ghost after = base + track_flat(track@, i + 1);
            assert(after =~= before.push((abs_tick, track@[i as int])));
            assert(after.drop_last() =~= before);
            match track[i].channel {
                Some((ch, ChannelMessage::Controller { controller, value })) => {
                    if controller == CC_MAIN_VOLUME && (ch as usize) < 16 {
                        let limit = match first[ch as usize] {
                            Some(x) => x,
                            None => u32::MAX,
                        };
                        if abs_tick <= limit {
                            let replace = match best[ch as usize] {
                                None => true,
                                Some((bt, _)) => abs_tick >= bt,
                            };
                            if replace {
                                best.set(ch as usize, Some((abs_tick, value)));
                            }
                        }
                    }
                },
                _ => {},
            }
            proof {
                assert forall|k: int| 0 <= k < 16 implies best@[k] == last_volume_before(after, k as u8,
                    match first_note_tick(flat_all, k as u8) { Some(x) => x, None => u32::MAX }) by {
                    assert((k as u8) as int == k);
                }
            }
            i = i + 1;
        }
        assert(base + track_flat(track@, track@.len() as int) =~= file_flat(tracks, t + 1));
        t = t + 1;
    }
    let mut volumes: Vec<u8> = Vec::new();
    let mut c: usize = 0;
    while c < 16
        invariant
            0 <= c <= 16,
            best@.len() == 16,
            volumes@.len() == c,
            forall|k: int| 0 <= k < 16 ==> best@[k] == last_volume_before(flat_all, k as u8,
                match first_note_tick(flat_all, k as u8) { Some(x) => x, None => u32::MAX }),
            forall|k: int| 0 <= k < c ==> volumes@[k] == spec_channel_volume(flat_all, k as u8),
        decreases 16 - c,
    {
        let v = match best[c] {
            Some((_, v)) => v,
            None => DEFAULT_TRACK_VOLUME,
        };
        volumes.push(v);
        c = c + 1;
    }
    volumes
}

// ----- per-track statistics -----

/// Number of sounding notes (NoteOn, velocity > 0) among the first `n` events satisfying `f`.
pub open spec fn count_notes(track: Seq<MidiEvent>, n: int, f: spec_fn(u8, u8) -> bool) -> nat
    decreases n,
{
    if n <= 0 {
        0
    } else {
        count_notes(track, n - 1, f) + match track[n - 1].channel {
            Some((ch, ChannelMessage::NoteOn { key, vel })) => if vel > 0 && f(ch, key) {
                1nat
            } else {
                0nat
            },
            _ => 0nat,
        }
    }
}

pub open spec fn any_note() -> spec_fn(u8, u8) -> bool {
    |ch: u8, key: u8| true
}

pub open spec fn percussion_note() -> spec_fn(u8, u8) -> bool {
    |ch: u8, key: u8| 35 <= key <= 81
}

pub open spec fn channel10_note() -> spec_fn(u8, u8) -> bool {
    |ch: u8, key: u8| ch == 9
}

pub open spec fn on_channel(c: u8) -> spec_fn(u8, u8) -> bool {
    |ch: u8, key: u8| ch == c
}

/// Last Main Volume written on the track before its first sounding note.
pub open spec fn local_volume(track: Seq<MidiEvent>, n: int) -> Option<u8>
    decreases n,
{
    if n <= 0 {
        None
    } else {
        let prev = local_volume(track, n - 1);
        match track[n - 1].channel {
            Some((_, ChannelMessage::Controller { controller, value })) => if controller == CC_MAIN_VOLUME
                && count_notes(track, n - 1, any_note()) == 0 {
                Some(value)
            } else {
                prev
            },
            _ => prev,
        }
    }
}

/// Last readable track name (`is_instrument` false) or instrument name (true).
pub open spec fn meta_name(track: Seq<MidiEvent>, n: int, is_instrument: bool) -> Option<Seq<char>>
    decreases n,
{
    if n <= 0 {
        None
    } else {
        let prev = meta_name(track, n - 1, is_instrument);
        match track[n - 1].meta {
            Some(MetaEvent::TrackName(b)) => if !is_instrument && spec_decode_midi_text(b@) is Some {
                spec_decode_midi_text(b@)
            } else {
                prev
            },
            Some(MetaEvent::InstrumentName(b)) => if is_instrument && spec_decode_midi_text(b@) is Some {
                spec_decode_midi_text(b@)
            } else {
                prev
            },
            _ => prev,
        }
    }
}

/// Dominant channel of a track by sounding-note count (the higher channel on a tie);
/// `None` without notes.
pub open spec fn is_primary_channel(track: Seq<MidiEvent>, ch: u8) -> bool {
    let n = track.len() as int;
    &&& ch < 16
    &&& count_notes(track, n, on_channel(ch)) > 0
    &&& forall|k: u8| k < 16 ==> #[trigger] count_notes(track, n, on_channel(k)) <= count_notes(track, n, on_channel(ch))
    &&& forall|k: u8| ch < k < 16 ==> #[trigger] count_notes(track, n, on_channel(k)) < count_notes(track, n, on_channel(ch))
}

proof fn lemma_count_step(track: Seq<MidiEvent>, n: int, f: spec_fn(u8, u8) -> bool)
    requires
        0 < n,
    ensures
        count_notes(track, n, f) == count_notes(track, n - 1, f) + match track[n - 1].channel {
            Some((ch, ChannelMessage::NoteOn { key, vel })) => if vel > 0 && f(ch, key) {
                1nat
            } else {
                0nat
            },
            _ => 0nat,
        },
{
}

proof fn lemma_count_le(track: Seq<MidiEvent>, n: int, f: spec_fn(u8, u8) -> bool)
    requires
        0 <= n,
    ensures
        count_notes(track, n, f) <= n,
    decreases n,
{
    if n > 0 {
        lemma_count_le(track, n - 1, f);
    }
}

/// Dominant MIDI channel of a track (by sounding-note count; the higher channel on a tie).
pub fn track_primary_channel(track: &Vec<MidiEvent>) -> (r: Option<u8>)
    requires
        track@.len() <= u32::MAX,
        forall|i: int| 0 <= i < track@.len() ==> event_in_range(#[trigger] track@[i]),
    ensures
        match r {
            Some(ch) => is_primary_channel(track@, ch),
            None => forall|k: u8| k < 16 ==> #[trigger] count_notes(track@, track@.len() as int, on_channel(k)) == 0,
        },
{
    let mut counts: Vec<u32> = Vec::new();
    let mut c: usize = 0;
    while c < 16
        invariant
            0 <= c <= 16,
            counts@.len() == c,
            forall|k: int| 0 <= k < c ==> counts@[k] == 0,
        decreases 16 - c,
    {
        counts.push(0);
        c = c + 1;
    }
    let mut i: usize = 0;
    while i < track.len()
        invariant
            0 <= i <= track@.len(),
            track@.len() <= u32::MAX,
            forall|j: int| 0 <= j < track@.len() ==> event_in_range(#[trigger] track@[j]),
            counts@.len() == 16,
            forall|k: int| 0 <= k < 16 ==> counts@[k] == count_notes(track@, i as int, on_channel(k as u8)),
        decreases track@.len() - i,
    {
        proof {
            assert forall|k: int| 0 <= k < 16 implies #[trigger] count_notes(track@, i + 1, on_channel(k as u8))
                == count_notes(track@, i as int, on_channel(k as u8)) + match track@[i as int].channel {
                    Some((ch, ChannelMessage::NoteOn { key, vel })) => if vel > 0 && ch == k as u8 { 1nat } else { 0nat },
                    _ => 0nat,
                } by {
                lemma_count_step(track@, i + 1, on_channel(k as u8));
            }
            assert(event_in_range(track@[i as int]));
        }
        match track[i].channel {
            Some((ch, ChannelMessage::NoteOn { key: _, vel })) => {
                if vel > 0 && (ch as usize) < 16 {
                    proof {
                        lemma_count_le(track@, i as int, on_channel(ch));
                    }
                    let cur = counts[ch as usize];
                    counts.set(ch as usize, cur + 1);
                }
            },
            _ => {},
        }
        proof {
            assert forall|k: int| 0 <= k < 16 implies counts@[k] == count_notes(track@, i + 1, on_channel(k as u8)) by {
                assert((k as u8) as int == k);
            }
        }
        i = i + 1;
    }
    // Maximum count, the last channel on a tie.
    let mut best: usize = 0;
    let mut k: usize = 1;
    while k < 16
        invariant
            1 <= k <= 16,
            best < k,
            counts@.len() == 16,
            forall|j: int| 0 <= j < k ==> counts@[j] <= counts@[best as int],
            forall|j: int| best < j < k ==> counts@[j] < counts@[best as int],
        decreases 16 - k,
    {
        if counts[k] >= counts[best] {
            best = k;
        }
        k = k + 1;
    }
    let ghost n = track@.len() as int;
    if counts[best] > 0 {
        proof {
            assert forall|q: u8| q < 16 implies #[trigger] count_notes(track@, n, on_channel(q)) <= count_notes(track@, n, on_channel(best as u8)) by {
                assert(counts@[q as int] == count_notes(track@, n, on_channel((q as int) as u8)));
            }
            assert forall|q: u8| best < q < 16 implies #[trigger] count_notes(track@, n, on_channel(q)) < count_notes(track@, n, on_channel(best as u8)) by {
                assert(counts@[q as int] == count_notes(track@, n, on_channel((q as int) as u8)));
            }
        }
        Some(best as u8)
    } else {
        proof {
            assert forall|q: u8| q < 16 implies #[trigger] count_notes(track@, n, on_channel(q)) == 0 by {
                assert(counts@[q as int] == count_notes(track@, n, on_channel((q as int) as u8)));
            }
        }
        None
    }
}

/// Per-track analysis. The drum-likelihood score is derived from these counts and the name
/// hint by the caller.
#[derive(Debug, Clone)]
pub struct TrackInfo {
    pub id: u16,
    pub name: String,
    pub note_count: u32,
    pub percussion_notes: u32,
    pub channel10_notes: u32,
    /// The lowercased name contains "drum", "drums", "kit", "percussion" or "удар".
    pub name_suggests_drums: bool,
    pub volume: u8,
}

/// Song overview: file name, tracks, duration and bar lines.
#[derive(Debug, Clone)]
pub struct SongSummary {
    pub path: String,
    pub track_count: u16,
    pub duration_ms: u64,
    pub bar_boundaries_ms: Vec<u64>,
    pub tracks: Vec<TrackInfo>,
}

/// Display name of a track: its track name, else its instrument name, else "Track <id>".
pub open spec fn spec_track_name(track: Seq<MidiEvent>, id: u16) -> Seq<char> {
    match meta_name(track, track.len() as int, false) {
        Some(s) => s,
        None => match meta_name(track, track.len() as int, true) {
            Some(s) => s,
            None => "Track "@ + decimal_text(id as nat),
        },
    }
}

/// Whether a name hints at a drum track.
pub open spec fn spec_name_suggests_drums(name: Seq<char>) -> bool {
    let l = lowercase_text(name);
    ||| contains_text(l, "drum"@)
    ||| contains_text(l, "drums"@)
    ||| contains_text(l, "kit"@)
    ||| contains_text(l, "percussion"@)
    ||| contains_text(l, "удар"@)
}

/// Volume of a track: CC7 written on it before its notes, else the initial volume of its
/// dominant channel, else 100.
pub open spec fn spec_track_volume(track: Seq<MidiEvent>, channel_volumes: Seq<u8>) -> u8 {
    match local_volume(track, track.len() as int) {
        Some(v) => v,
        None => if exists|ch: u8| is_primary_channel(track, ch) {
            channel_volumes[(choose|ch: u8| is_primary_channel(track, ch)) as int]
        } else {
            DEFAULT_TRACK_VOLUME
        },
    }
}

/// The analysis of one track.
pub open spec fn spec_track_info(info: TrackInfo, track: Seq<MidiEvent>, id: u16, channel_volumes: Seq<u8>) -> bool {
    let n = track.len() as int;
    &&& info.id == id
    &&& info.name@ == spec_track_name(track, id)
    &&& info.note_count == count_notes(track, n, any_note())
    &&& info.percussion_notes == count_notes(track, n, percussion_note())
    &&& info.channel10_notes == count_notes(track, n, channel10_note())
    &&& info.name_suggests_drums == spec_name_suggests_drums(info.name@)
    &&& info.volume == spec_track_volume(track, channel_volumes)
}

proof fn lemma_primary_unique(track: Seq<MidiEvent>, a: u8, b: u8)
    requires
        is_primary_channel(track, a),
        is_primary_channel(track, b),
    ensures
        a == b,
{
    let n = track.len() as int;
    if a < b {
        assert(count_notes(track, n, on_channel(b)) < count_notes(track, n, on_channel(a)));
        assert(count_notes(track, n, on_channel(b)) >= count_notes(track, n, on_channel(a)));
    } else if b < a {
        assert(count_notes(track, n, on_channel(a)) < count_notes(track, n, on_channel(b)));
        assert(count_notes(track, n, on_channel(a)) >= count_notes(track, n, on_channel(b)));
    }
}

fn name_suggests_drums(name: &String) -> (r: bool)
    ensures
        r == spec_name_suggests_drums(name@),
{
    let lower = to_lowercase(name.as_str());
    let l = str_chars(lower.as_str());
    chars_contain(&l, &str_chars("drum")) || chars_contain(&l, &str_chars("drums"))
        || chars_contain(&l, &str_chars("kit")) || chars_contain(&l, &str_chars("percussion"))
        || chars_contain(&l, &str_chars("удар"))
}

fn analyse_track(track: &Vec<MidiEvent>, id: u16, channel_volumes: &Vec<u8>) -> (r: TrackInfo)
    requires
        track@.len() <= u32::MAX,
        channel_volumes@.len() == 16,
        forall|i: int| 0 <= i < track@.len() ==> event_in_range(#[trigger] track@[i]),
    ensures
        spec_track_info(r, track@, id, channel_volumes@),
{
    let mut track_name: Option<String> = None;
    let mut instrument_name: Option<String> = None;
    let mut note_count: u32 = 0;
    let mut percussion_notes: u32 = 0;
    let mut channel10_notes: u32 = 0;
    let mut local_volume_before_notes: Option<u8> = None;
    let mut saw_note = false;
    let mut i: usize = 0;
    while i < track.len()
        invariant
            0 <= i <= track@.len(),
            track@.len() <= u32::MAX,
            note_count == count_notes(track@, i as int, any_note()),
            percussion_notes == count_notes(track@, i as int, percussion_note()),
            channel10_notes == count_notes(track@, i as int, channel10_note()),
            saw_note <==> note_count > 0,
            local_volume_before_notes == local_volume(track@, i as int),
            match track_name { Some(s) => meta_name(track@, i as int, false) == Some(s@), None => meta_name(track@, i as int, false) is None },
            match instrument_name { Some(s) => meta_name(track@, i as int, true) == Some(s@), None => meta_name(track@, i as int, true) is None },
        decreases track@.len() - i,
    {
        proof {
            lemma_count_le(track@, i as int, any_note());
            lemma_count_le(track@, i as int, percussion_note());
            lemma_count_le(track@, i as int, channel10_note());
            lemma_count_step(track@, i + 1, any_note());
            lemma_count_step(track@, i + 1, percussion_note());
            lemma_count_step(track@, i + 1, channel10_note());
        }
        match &track[i].meta {
            Some(MetaEvent::TrackName(b)) => {
                match decode_midi_text(b.as_slice()) {
                    Some(s) => {
                        track_name = Some(s);
                    },
                    None => {},
                }
            },
            Some(MetaEvent::InstrumentName(b)) => {
                match decode_midi_text(b.as_slice()) {
                    Some(s) => {
                        instrument_name = Some(s);
                    },
                    None => {},
                }
            },
            _ => {},
        }
        match track[i].channel {
            Some((ch, ChannelMessage::Controller { controller, value })) => {
                if controller == CC_MAIN_VOLUME && !saw_note {
                    local_volume_before_notes = Some(value);
                }
            },
            Some((ch, ChannelMessage::NoteOn { key, vel })) => {
                if vel > 0 {
                    saw_note = true;
                    note_count = note_count + 1;
                    if 35 <= key && key <= 81 {
                        percussion_notes = percussion_notes + 1;
                    }
                    if ch == 9 {
                        channel10_notes = channel10_notes + 1;
                    }
                }
            },
            _ => {},
        }
        i = i + 1;
    }
    let name = match track_name {
        Some(s) => s,
        None => match instrument_name {
            Some(s) => s,
            None => {
                let digits = u64_decimal(id as u64);
                concat2("Track ", digits.as_str())
            },
        },
    };
    let name_hint = name_suggests_drums(&name);
    let volume = match local_volume_before_notes {
        Some(v) => v,
        None => match track_primary_channel(track) {
            Some(ch) => {
                proof {
                    assert forall|c: u8| is_primary_channel(track@, c) implies c == ch by {
                        lemma_primary_unique(track@, c, ch);
                    }
                }
                channel_volumes[ch as usize]
            },
            None => {
                proof {
                    assert forall|c: u8| !is_primary_channel(track@, c) by {}
                }
                DEFAULT_TRACK_VOLUME
            },
        },
    };
    TrackInfo {
        id,
        name,
        note_count,
        percussion_notes,
        channel10_notes,
        name_suggests_drums: name_hint,
        volume,
    }
}

/// Ticks per beat of an in-range timing fit in 16 bits, so bar lengths are never truncated.
proof fn lemma_bar_lengths_positive(timing: Timing, sigs: Seq<TimeSignaturePoint>)
    requires
        timing_in_range(timing),
    ensures
        forall|i: int| 0 <= i < sigs.len() ==> bar_length(spec_ticks_per_beat(timing), #[trigger] sigs[i]) != 0,
{
    let tpb = spec_ticks_per_beat(timing);
    assert(tpb < 0x1_0000) by {
        match timing {
            Timing::Metrical(n) => {},
            Timing::Timecode(f, s) => {
                assert((30000 * s) / 1001 <= 30000 * 255) by (nonlinear_arith) requires s <= 255;
            },
        }
    }
    assert forall|i: int| 0 <= i < sigs.len() implies bar_length(tpb, #[trigger] sigs[i]) != 0 by {
        let sig = sigs[i];
        let den: int = if sig.denominator_pow < 64 {
            crate::tempo::pow2(sig.denominator_pow as nat)
        } else {
            u64::MAX as int
        };
        crate::tempo::lemma_pow2_pos(sig.denominator_pow as nat);
        assert(tpb * sig.numerator * 4 < 0x1_0000_0000) by (nonlinear_arith)
            requires tpb < 0x1_0000, sig.numerator <= 255;
        let raw = (tpb * sig.numerator * 4) / den;
        assert(raw <= tpb * sig.numerator * 4) by (nonlinear_arith)
            requires den >= 1, tpb * sig.numerator * 4 >= 0, raw == (tpb * sig.numerator * 4) / den;
    }
}

/// `s` is the overview of a file with this timing and these tracks, shown under `shown`:
/// one analysis per track, the duration of the longest track, and the bar lines in ms,
/// strictly increasing.
pub open spec fn summary_ok(s: SongSummary, shown: Seq<char>, timing: Timing, tracks: Seq<Seq<MidiEvent>>) -> bool {
    let tpb = spec_ticks_per_beat(timing);
    let m = spec_tempo_map(tracks);
    let max_tick = max_end_tick(tracks, tracks.len() as int);
    let volumes = Seq::new(16, |ch: int| spec_channel_volume(all_flat(tracks), ch as u8));
    &&& s.path@ == shown
    &&& s.track_count == tracks.len() as u16
    &&& s.duration_ms == spec_tick_to_ms(max_tick, tpb, m)
    &&& s.duration_ms <= MAX_TIMELINE_MS
    &&& s.tracks@.len() == tracks.len()
    &&& forall|k: int| 0 <= k < tracks.len() ==> spec_track_info(#[trigger] s.tracks@[k], tracks[k], k as u16, volumes)
    &&& strictly_increasing_u64(s.bar_boundaries_ms@)
    &&& forall|y: u64| s.bar_boundaries_ms@.contains(y) <==> exists|x: u32|
        (if tpb == 0 { x == 0 || x == max_tick } else { in_bar_grid(spec_signature_map(tracks), tpb, max_tick, x as int) })
        && #[trigger] spec_tick_to_ms(x, tpb, m) == y
}

/// How a song read from `path` is shown: its file name, or the whole path when it has none.
/// A plain path (`plain_file_path`) shows the text after its last `/`; otherwise the name is
/// the path itself or a non-empty stretch of it, without `/` unless the path starts with `\`.
pub open spec fn shown_path(shown: Seq<char>, path: Seq<char>) -> bool {
    &&& plain_file_path(path) ==> shown == slash_tail(path)
    &&& shown == path || (is_path_component(shown, path) && (path[0] != '\\' ==> !shown.contains('/')))
}

/// Song overview of MIDI bytes read from `path`, shown under the path's file name (the
/// whole path when it has none): track analysis, duration and bar lines.
pub fn summarize_midi(bytes: &[u8], path: &str) -> (r: Result<SongSummary, MidiError>)
    requires
        bytes@.len() <= u32::MAX,
    ensures
        match midly_parse(bytes@) {
            None => r matches Err(MidiError::Parse(_)),
            Some((timing, tracks)) => r matches Ok(s) && summary_ok(s, s.path@, timing, tracks)
                && shown_path(s.path@, path@),
        },
{
    let name = match file_name(path) {
        Some(n) => n,
        None => owned(path),
    };
    summarize_midi_as(bytes, name)
}

/// Song overview of MIDI bytes shown under `shown`: track analysis, duration and bar lines.
pub fn summarize_midi_as(bytes: &[u8], shown: String) -> (r: Result<SongSummary, MidiError>)
    requires
        bytes@.len() <= u32::MAX,
    ensures
        match midly_parse(bytes@) {
            None => r matches Err(MidiError::Parse(_)),
            Some((timing, tracks)) => r matches Ok(s) && summary_ok(s, shown@, timing, tracks),
        },
{
    let file = load_midi(bytes)?;
    Ok(summarize_file(&file, shown))
}

/// Song overview of a parsed file shown under `shown`: track analysis, duration and bar lines.
pub fn summarize_file(file: &MidiFile, shown: String) -> (r: SongSummary)
    requires
        file_in_range(file),
        forall|t: int| 0 <= t < file.tracks@.len() ==> (#[trigger] file.tracks@[t])@.len() <= u32::MAX,
    ensures
        summary_ok(r, shown@, file.timing, file_tracks(file)),
{
    let ghost tracks = file_tracks(file);
    let tpb = ticks_per_beat(file.timing);
    let tempo_map = build_tempo_map(file);
    let channel_volumes = channel_setup_volumes(file);
    let ghost volumes = Seq::new(16, |ch: int| spec_channel_volume(all_flat(tracks), ch as u8));
    assert(channel_volumes@ =~= volumes);
    let mut infos: Vec<TrackInfo> = Vec::new();
    let mut k: usize = 0;
    while k < file.tracks.len()
        invariant
            tracks == file_tracks(file),
            file_in_range(file),
            forall|t: int| 0 <= t < file.tracks@.len() ==> (#[trigger] file.tracks@[t])@.len() <= u32::MAX,
            channel_volumes@ == volumes,
            channel_volumes@.len() == 16,
            0 <= k <= tracks.len(),
            infos@.len() == k,
            forall|j: int| 0 <= j < k ==> spec_track_info(#[trigger] infos@[j], tracks[j], j as u16, volumes),
        decreases tracks.len() - k,
    {
        let track = &file.tracks[k];
        assert(track@ == tracks[k as int]);
        let info = analyse_track(track, k as u16, &channel_volumes);
        infos.push(info);
        k = k + 1;
    }
    let max_tick = song_end_tick(file);
    let duration_ms = tick_to_ms(max_tick, tpb, tempo_map.as_slice());
    proof {
        lemma_file_tracks_in_range(file);
        lemma_tempo_map_bounded(tempo_map@, tracks);
        lemma_tick_to_ms_bound(max_tick, tpb, tempo_map@);
    }
    let signatures = build_time_signature_map(file);
    proof {
        lemma_bar_lengths_positive(file.timing, signatures@);
    }
    let bars = bar_boundaries(signatures.as_slice(), tpb, tempo_map.as_slice(), max_tick);
    SongSummary {
        path: shown,
        track_count: file.tracks.len() as u16,
        duration_ms,
        bar_boundaries_ms: bars,
        tracks: infos,
    }
}

} // verus!
