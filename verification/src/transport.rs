//! Transport and practice-session state: the decisions behind play, pause, stop, seek,
//! speed changes, the playback ticker and incoming pad hits.
//!
//! The caller owns the clock, the audio engine and the event bus: it passes the current
//! wall time (milliseconds on a monotonic clock) into each decision and carries out the
//! actions that come back.

use vstd::prelude::*;

use crate::domain::{
    fold_expected_hits, profile_pads, spec_fold_hit, zero_counts, ExpectedHit, HighlightEvent,
    HitCounts, IncomingHit, JudgementEvent, PadId, PadMapProfile, ScheduleNote,
};
use crate::hit_matcher::{
    expire_view, finalized_view, judged_view, reset_view, start_slot, summary_of, time_fits,
    clone_opt_string, expired_events, extra_would_count, wrong_would_count, HitMatcher, MatcherView, SessionSummary, SlotState,
};
use crate::tempo::MAX_TIMELINE_MS;
use crate::smf::midly_parse;
use crate::song::{
    build_expected_hits, build_metronome_beats, expected_ok, metronome_ok, shown_path, summarize_midi, summary_ok,
    SongSummary,
};
use crate::playback::{build_playback_notes, playback_ok};
use crate::text::{decimal_text, owned};
use crate::song::{quarter_ms_at, quarter_ms_of, tempo_at};
use crate::tempo::{spec_tempo_map, spec_ticks_per_beat};

verus! {

/// How far ahead of the playhead highlights, notes and clicks are handed out.
pub const LOOKAHEAD_MS: u64 = 80;

/// Interval of the playback ticker.
pub const TICK_MS: u64 = 16;

/// Slowest playback rate, in hundredths.
pub const SPEED_MIN_PCT: u32 = 10;

/// Fastest playback rate (normal speed), in hundredths.
pub const SPEED_MAX_PCT: u32 = 100;

/// Clicks of the metronome count-in.
pub const COUNT_IN_CLICKS: u32 = 4;

/// Delay before the first count-in click.
pub const COUNT_IN_LEAD_IN_MS: u64 = 30;

/// Transport status.
#[derive(Debug, Clone, Copy, PartialEq, Eq, Structural)]
pub enum Status {
    Stopped,
    Playing,
    Paused,
}

pub open spec fn status_text(s: Status) -> Seq<char> {
    match s {
        Status::Stopped => "stopped"@,
        Status::Playing => "playing"@,
        Status::Paused => "paused"@,
    }
}

impl Status {
    /// Name of the status as shown to the UI.
    pub fn as_str(self) -> (r: &'static str)
        ensures
            r@ == status_text(self),
    {
        match self {
            Status::Stopped => "stopped",
            Status::Playing => "playing",
            Status::Paused => "paused",
        }
    }
}

/// What the UI is told about the transport. The rate is in hundredths.
#[derive(Debug, Clone, Copy, PartialEq, Eq, Structural)]
pub struct TransportSnapshot {
    pub status: Status,
    pub position_ms: u64,
    pub duration_ms: u64,
    pub speed_pct: u32,
}

/// Abstract state of a session.
pub struct SessionView {
    pub midi_bytes: Option<Seq<u8>>,
    pub song_path: Option<Seq<char>>,
    pub status: Status,
    pub position_ms: u64,
    pub duration_ms: u64,
    pub origin_wall_ms: Option<u64>,
    pub origin_position_ms: u64,
    pub expected_hits: Seq<ExpectedHit>,
    pub raw_expected_hits: Seq<ExpectedHit>,
    pub next_highlight_idx: int,
    pub playback_notes: Seq<ScheduleNote>,
    pub next_schedule_idx: int,
    pub metronome_beats: Seq<u64>,
    pub next_metronome_idx: int,
    pub metronome_enabled: bool,
    pub drum_track_id: Option<u16>,
    pub play_generation: u64,
    pub matcher: Option<MatcherView>,
    pub latency_offset_ms: i64,
    pub speed_pct: u32,
    pub count_in_until_ms: Option<u64>,
}

/// The song, the practice run and the playhead of one window.
pub struct SessionState {
    midi_bytes: Option<Vec<u8>>,
    song_path: Option<String>,
    status: Status,
    position_ms: u64,
    duration_ms: u64,
    /// Wall time at which the playhead was last anchored, while playing.
    origin_wall_ms: Option<u64>,
    origin_position_ms: u64,
    expected_hits: Vec<ExpectedHit>,
    /// Expected hits with their GM pads, before optional pads are folded onto stand-ins.
    raw_expected_hits: Vec<ExpectedHit>,
    next_highlight_idx: usize,
    playback_notes: Vec<ScheduleNote>,
    next_schedule_idx: usize,
    metronome_beats: Vec<u64>,
    next_metronome_idx: usize,
    metronome_enabled: bool,
    drum_track_id: Option<u16>,
    /// Bumped whenever a running ticker must stop.
    play_generation: u64,
    matcher: Option<HitMatcher>,
    latency_offset_ms: i64,
    /// Playback rate in hundredths (10 to 100).
    speed_pct: u32,
    /// While set, the metronome count-in runs and the playhead is frozen until this wall time.
    count_in_until_ms: Option<u64>,
}

pub open spec fn bytes_view(b: Option<Vec<u8>>) -> Option<Seq<u8>> {
    match b {
        Some(v) => Some(v@),
        None => None,
    }
}

pub open spec fn text_view(s: Option<String>) -> Option<Seq<char>> {
    match s {
        Some(v) => Some(v@),
        None => None,
    }
}

pub open spec fn matcher_view(m: Option<HitMatcher>) -> Option<MatcherView> {
    match m {
        Some(x) => Some(x@),
        None => None,
    }
}

impl View for SessionState {
    type V = SessionView;

    closed spec fn view(&self) -> SessionView {
        SessionView {
            midi_bytes: bytes_view(self.midi_bytes),
            song_path: text_view(self.song_path),
            status: self.status,
            position_ms: self.position_ms,
            duration_ms: self.duration_ms,
            origin_wall_ms: self.origin_wall_ms,
            origin_position_ms: self.origin_position_ms,
            expected_hits: self.expected_hits@,
            raw_expected_hits: self.raw_expected_hits@,
            next_highlight_idx: self.next_highlight_idx as int,
            playback_notes: self.playback_notes@,
            next_schedule_idx: self.next_schedule_idx as int,
            metronome_beats: self.metronome_beats@,
            next_metronome_idx: self.next_metronome_idx as int,
            metronome_enabled: self.metronome_enabled,
            drum_track_id: self.drum_track_id,
            play_generation: self.play_generation,
            matcher: matcher_view(self.matcher),
            latency_offset_ms: self.latency_offset_ms,
            speed_pct: self.speed_pct,
            count_in_until_ms: self.count_in_until_ms,
        }
    }
}

/// Expected hits that a practice run can be started on.
pub open spec fn hits_fit(hits: Seq<ExpectedHit>) -> bool {
    &&& hits.len() <= u32::MAX
    &&& forall|i: int| 0 <= i < hits.len() ==> (#[trigger] hits[i]).time_ms <= MAX_TIMELINE_MS
}

pub open spec fn view_wf(v: SessionView) -> bool {
    &&& 0 <= v.next_highlight_idx <= v.expected_hits.len()
    &&& 0 <= v.next_schedule_idx <= v.playback_notes.len()
    &&& 0 <= v.next_metronome_idx <= v.metronome_beats.len()
    &&& SPEED_MIN_PCT <= v.speed_pct <= SPEED_MAX_PCT
    &&& v.position_ms <= v.duration_ms <= MAX_TIMELINE_MS
    &&& hits_fit(v.expected_hits)
    &&& hits_fit(v.raw_expected_hits)
    &&& (v.midi_bytes matches Some(b) ==> b.len() <= u32::MAX)
}

impl SessionState {
    /// Internal consistency: cursors within their lists, a valid rate, the playhead within
    /// the song, hit times that the matcher can take, and a consistent matcher.
    pub closed spec fn wf(&self) -> bool {
        &&& view_wf(self@)
        &&& self.matcher matches Some(m) ==> m.wf()
    }
}

// ----- clock -----

/// Wall milliseconds since `origin` (none when `now` is earlier).
pub open spec fn elapsed_since(now: u64, origin: u64) -> int {
    if now >= origin {
        now - origin
    } else {
        0
    }
}

/// `elapsed * pct / 100`, rounded half up.
pub open spec fn scaled_ms(elapsed: int, pct: u32) -> int {
    (2 * elapsed * pct + 100) / 200
}

/// Playhead at wall time `now`: frozen during the count-in and when not playing, else the
/// anchored position plus the scaled wall time since the anchor, capped at the song end.
pub open spec fn live_position(v: SessionView, now: u64) -> u64 {
    if v.count_in_until_ms is Some {
        v.position_ms
    } else if v.status == Status::Playing && v.origin_wall_ms is Some {
        let p = v.origin_position_ms + scaled_ms(elapsed_since(now, v.origin_wall_ms.unwrap()), v.speed_pct);
        if p < v.duration_ms {
            p as u64
        } else {
            v.duration_ms
        }
    } else {
        v.position_ms
    }
}

/// Session time of a hit at wall time `now`, latency offset included and floored at 0:
/// only while playing past the count-in.
pub open spec fn session_time(v: SessionView, now: u64) -> Option<u64> {
    if v.status != Status::Playing || v.count_in_until_ms is Some {
        None
    } else {
        match v.origin_wall_ms {
            None => None,
            Some(o) => {
                let raw = v.origin_position_ms + scaled_ms(elapsed_since(now, o), v.speed_pct)
                    + v.latency_offset_ms;
                Some(
                    if raw < 0 {
                        0u64
                    } else if raw > i64::MAX {
                        i64::MAX as u64
                    } else {
                        raw as u64
                    },
                )
            },
        }
    }
}

/// A hit on `pad_id` at wall time `now_ms` can be tallied: when the active run would judge
/// it Wrong or Extra, that counter is still below its limit.
pub open spec fn hit_tallies_fit(v: SessionView, now_ms: u64, pad_id: PadId) -> bool {
    match session_time(v, now_ms) {
        None => true,
        Some(t) => match v.matcher {
            Some(m) => m.active ==> ((wrong_would_count(m, pad_id, t) ==> m.counts.wrong < u32::MAX) && (
            extra_would_count(m, pad_id, t) ==> m.counts.extra < u32::MAX)),
            None => true,
        },
    }
}

pub open spec fn snapshot_of(v: SessionView, now: u64) -> TransportSnapshot {
    TransportSnapshot {
        status: v.status,
        position_ms: live_position(v, now),
        duration_ms: v.duration_ms,
        speed_pct: v.speed_pct,
    }
}

/// Playback rate for a requested rate in hundredths: clamped to 10..=100.
pub open spec fn clamp_speed_pct(q: i64) -> u32 {
    if q < SPEED_MIN_PCT {
        SPEED_MIN_PCT
    } else if q > SPEED_MAX_PCT {
        SPEED_MAX_PCT
    } else {
        q as u32
    }
}

/// Playback rate for a requested rate in hundredths (the caller rounds the UI value to
/// hundredths, and passes 100 for a value that is not a number).
pub fn speed_from_hundredths(q: i64) -> (r: u32)
    ensures
        r == clamp_speed_pct(q),
{
    if q < SPEED_MIN_PCT as i64 {
        SPEED_MIN_PCT
    } else if q > SPEED_MAX_PCT as i64 {
        SPEED_MAX_PCT
    } else {
        q as u32
    }
}

pub open spec fn next_generation(g: u64) -> u64 {
    if g == u64::MAX {
        0
    } else {
        (g + 1) as u64
    }
}

fn bump_generation(g: u64) -> (r: u64)
    ensures
        r == next_generation(g),
{
    if g == u64::MAX {
        0
    } else {
        g + 1
    }
}

// ----- cursors -----

/// Index of the first element from `i` on that is not below `bound` (or the length).
pub open spec fn skip_below(times: Seq<u64>, i: int, bound: int) -> int
    decreases times.len() - i,
{
    if 0 <= i < times.len() && times[i] < bound {
        skip_below(times, i + 1, bound)
    } else {
        i
    }
}

pub open spec fn hit_times(s: Seq<ExpectedHit>) -> Seq<u64> {
    s.map_values(|h: ExpectedHit| h.time_ms)
}

pub open spec fn note_times(s: Seq<ScheduleNote>) -> Seq<u64> {
    s.map_values(|n: ScheduleNote| n.when_ms)
}

/// Bound for "at or before `limit`" when `through` holds, else for "before `limit`".
pub open spec fn cursor_bound(limit: u64, through: bool) -> int {
    if through {
        limit + 1
    } else {
        limit as int
    }
}

proof fn lemma_skip_range(times: Seq<u64>, i: int, bound: int)
    requires
        0 <= i <= times.len(),
    ensures
        i <= skip_below(times, i, bound) <= times.len(),
    decreases times.len() - i,
{
    if i < times.len() && times[i] < bound {
        lemma_skip_range(times, i + 1, bound);
    }
}

fn is_before(t: u64, limit: u64, through: bool) -> (r: bool)
    ensures
        r == (t < cursor_bound(limit, through)),
{
    if through {
        t <= limit
    } else {
        t < limit
    }
}

fn skip_hits(hits: &Vec<ExpectedHit>, start: usize, limit: u64, through: bool) -> (r: usize)
    requires
        start <= hits@.len(),
    ensures
        r as int == skip_below(hit_times(hits@), start as int, cursor_bound(limit, through)),
        start <= r <= hits@.len(),
{
    let ghost t = hit_times(hits@);
    let mut i = start;
    while i < hits.len() && is_before(hits[i].time_ms, limit, through)
        invariant
            t == hit_times(hits@),
            start <= i <= hits@.len(),
            skip_below(t, i as int, cursor_bound(limit, through)) == skip_below(
                t,
                start as int,
                cursor_bound(limit, through),
            ),
        decreases hits@.len() - i,
    {
        i = i + 1;
    }
    i
}

fn skip_notes(notes: &Vec<ScheduleNote>, start: usize, limit: u64, through: bool) -> (r: usize)
    requires
        start <= notes@.len(),
    ensures
        r as int == skip_below(note_times(notes@), start as int, cursor_bound(limit, through)),
        start <= r <= notes@.len(),
{
    let ghost t = note_times(notes@);
    let mut i = start;
    while i < notes.len() && is_before(notes[i].when_ms, limit, through)
        invariant
            t == note_times(notes@),
            start <= i <= notes@.len(),
            skip_below(t, i as int, cursor_bound(limit, through)) == skip_below(
                t,
                start as int,
                cursor_bound(limit, through),
            ),
        decreases notes@.len() - i,
    {
        i = i + 1;
    }
    i
}

fn skip_times(times: &Vec<u64>, start: usize, limit: u64, through: bool) -> (r: usize)
    requires
        start <= times@.len(),
    ensures
        r as int == skip_below(times@, start as int, cursor_bound(limit, through)),
        start <= r <= times@.len(),
{
    let mut i = start;
    while i < times.len() && is_before(times[i], limit, through)
        invariant
            start <= i <= times@.len(),
            skip_below(times@, i as int, cursor_bound(limit, through)) == skip_below(
                times@,
                start as int,
                cursor_bound(limit, through),
            ),
        decreases times@.len() - i,
    {
        i = i + 1;
    }
    i
}

/// Cursors placed at the first hit, note and beat not before `pos`: on lists sorted by time,
/// the partition point of "before `pos`".
pub open spec fn with_cursors_at(v: SessionView, pos: u64) -> SessionView {
    SessionView {
        next_highlight_idx: skip_below(hit_times(v.expected_hits), 0, pos as int),
        next_schedule_idx: skip_below(note_times(v.playback_notes), 0, pos as int),
        next_metronome_idx: skip_below(v.metronome_beats, 0, pos as int),
        ..v
    }
}

// ----- state transitions -----

pub open spec fn initial_view() -> SessionView {
    SessionView {
        midi_bytes: None,
        song_path: None,
        status: Status::Stopped,
        position_ms: 0,
        duration_ms: 0,
        origin_wall_ms: None,
        origin_position_ms: 0,
        expected_hits: Seq::empty(),
        raw_expected_hits: Seq::empty(),
        next_highlight_idx: 0,
        playback_notes: Seq::empty(),
        next_schedule_idx: 0,
        metronome_beats: Seq::empty(),
        next_metronome_idx: 0,
        metronome_enabled: false,
        drum_track_id: None,
        play_generation: 0,
        matcher: None,
        latency_offset_ms: 0,
        speed_pct: SPEED_MAX_PCT,
        count_in_until_ms: None,
    }
}

/// Stop: playhead back to 0, ticker invalidated, cursors rewound.
pub open spec fn stopped(v: SessionView) -> SessionView {
    with_cursors_at(
        SessionView {
            play_generation: next_generation(v.play_generation),
            status: Status::Stopped,
            position_ms: 0,
            origin_wall_ms: None,
            origin_position_ms: 0,
            count_in_until_ms: None,
            ..v
        },
        0,
    )
}

/// Pause at `now` (only while playing): the playhead keeps its live position.
pub open spec fn paused(v: SessionView, now: u64) -> SessionView {
    if v.status != Status::Playing {
        v
    } else {
        let p = live_position(v, now);
        SessionView {
            position_ms: p,
            play_generation: next_generation(v.play_generation),
            status: Status::Paused,
            origin_wall_ms: None,
            origin_position_ms: p,
            count_in_until_ms: None,
            ..v
        }
    }
}

/// Seek to `ms` (capped at the song end) at wall time `now`. Judged hits stay judged; the
/// rest of an active run is re-opened or skipped relative to the new position. Playing
/// continues from there; a stopped transport moved past 0 becomes paused.
pub open spec fn sought(v: SessionView, now: u64, ms: u64) -> SessionView {
    let was_playing = v.status == Status::Playing;
    let pos = if ms < v.duration_ms {
        ms
    } else {
        v.duration_ms
    };
    let v1 = with_cursors_at(
        SessionView {
            play_generation: if was_playing {
                next_generation(v.play_generation)
            } else {
                v.play_generation
            },
            position_ms: pos,
            origin_position_ms: pos,
            count_in_until_ms: None,
            matcher: match v.matcher {
                Some(m) => if m.active {
                    Some(reset_view(m, pos))
                } else {
                    Some(m)
                },
                None => None,
            },
            ..v
        },
        pos,
    );
    if was_playing {
        SessionView { origin_wall_ms: Some(now), status: Status::Playing, ..v1 }
    } else if v.status == Status::Stopped && pos > 0 {
        SessionView { status: Status::Paused, ..v1 }
    } else {
        v1
    }
}

/// New rate at wall time `now`: while playing and the rate changes, the clock is
/// re-anchored at the live position (ending any count-in).
pub open spec fn speed_set(v: SessionView, now: u64, q: i64) -> SessionView {
    let next = clamp_speed_pct(q);
    if v.status == Status::Playing && next != v.speed_pct {
        let p = live_position(v, now);
        with_cursors_at(
            SessionView {
                position_ms: p,
                origin_position_ms: p,
                origin_wall_ms: Some(now),
                count_in_until_ms: None,
                speed_pct: next,
                ..v
            },
            p,
        )
    } else {
        SessionView { speed_pct: next, ..v }
    }
}

/// A fresh run over `expected` started at `position_ms`.
pub open spec fn started_run(
    expected: Seq<ExpectedHit>,
    position_ms: u64,
    started_at: Seq<char>,
    song_path: Option<Seq<char>>,
    drum_track_id: Option<u16>,
) -> MatcherView {
    MatcherView {
        slots: expected.map_values(|h: ExpectedHit| start_slot(h, position_ms)),
        counts: zero_counts(),
        deltas: Seq::empty(),
        active: true,
        started_at,
        song_path,
        drum_track_id,
    }
}

/// Start a practice run at the playhead unless one is active or nothing is expected.
pub open spec fn practice_ensured(v: SessionView, started_at: Seq<char>) -> SessionView {
    if (v.matcher matches Some(m) && m.active) || v.expected_hits.len() == 0 {
        v
    } else {
        SessionView {
            matcher: Some(
                started_run(v.expected_hits, v.position_ms, started_at, v.song_path, v.drum_track_id),
            ),
            ..v
        }
    }
}

/// Whether a run has judged anything at all.
pub open spec fn had_activity(c: HitCounts) -> bool {
    c.perfect + c.good + c.ok + c.miss + c.wrong + c.extra > 0
}

/// The matcher after the summary is taken (finalized when it was active).
pub open spec fn after_summary(v: SessionView) -> SessionView {
    match v.matcher {
        Some(m) => if m.active {
            SessionView { matcher: Some(finalized_view(m)), ..v }
        } else {
            v
        },
        None => v,
    }
}

/// The summary of the active run when it judged anything (an idle run is finalized and
/// discarded).
pub open spec fn summary_taken(v: SessionView, r: Option<SessionSummary>, ended_at: Seq<char>) -> bool {
    match v.matcher {
        Some(m) => if m.active && had_activity(m.counts) {
            r matches Some(s) && summary_of(s, m, ended_at)
        } else {
            r is None
        },
        None => r is None,
    }
}

proof fn lemma_view_eq(a: SessionView, b: SessionView)
    requires
        a.midi_bytes == b.midi_bytes,
        a.song_path == b.song_path,
        a.status == b.status,
        a.position_ms == b.position_ms,
        a.duration_ms == b.duration_ms,
        a.origin_wall_ms == b.origin_wall_ms,
        a.origin_position_ms == b.origin_position_ms,
        a.expected_hits =~= b.expected_hits,
        a.raw_expected_hits =~= b.raw_expected_hits,
        a.next_highlight_idx == b.next_highlight_idx,
        a.playback_notes =~= b.playback_notes,
        a.next_schedule_idx == b.next_schedule_idx,
        a.metronome_beats =~= b.metronome_beats,
        a.next_metronome_idx == b.next_metronome_idx,
        a.metronome_enabled == b.metronome_enabled,
        a.drum_track_id == b.drum_track_id,
        a.play_generation == b.play_generation,
        a.matcher == b.matcher,
        a.latency_offset_ms == b.latency_offset_ms,
        a.speed_pct == b.speed_pct,
        a.count_in_until_ms == b.count_in_until_ms,
    ensures
        a == b,
{
}

impl SessionState {
    /// An empty session: nothing loaded, stopped at 0, normal speed.
    pub fn new() -> (r: SessionState)
        ensures
            r.wf(),
            r@ == initial_view(),
    {
        let r = SessionState {
            midi_bytes: None,
            song_path: None,
            status: Status::Stopped,
            position_ms: 0,
            duration_ms: 0,
            origin_wall_ms: None,
            origin_position_ms: 0,
            expected_hits: Vec::new(),
            raw_expected_hits: Vec::new(),
            next_highlight_idx: 0,
            playback_notes: Vec::new(),
            next_schedule_idx: 0,
            metronome_beats: Vec::new(),
            next_metronome_idx: 0,
            metronome_enabled: false,
            drum_track_id: None,
            play_generation: 0,
            matcher: None,
            latency_offset_ms: 0,
            speed_pct: SPEED_MAX_PCT,
            count_in_until_ms: None,
        };
        proof {
            lemma_view_eq(r@, initial_view());
        }
        r
    }

    /// Playhead at wall time `now_ms`.
    pub fn live_position_ms(&self, now_ms: u64) -> (r: u64)
        requires
            self.wf(),
        ensures
            r == live_position(self@, now_ms),
            r <= self@.duration_ms,
    {
        if self.count_in_until_ms.is_some() {
            return self.position_ms;
        }
        if self.status == Status::Playing {
            match self.origin_wall_ms {
                Some(origin) => {
                    let el: u64 = if now_ms >= origin {
                        now_ms - origin
                    } else {
                        0
                    };
                    let adv = scale_elapsed(el, self.speed_pct);
                    let p: u128 = self.origin_position_ms as u128 + adv as u128;
                    return if p < self.duration_ms as u128 {
                        p as u64
                    } else {
                        self.duration_ms
                    };
                },
                None => {},
            }
        }
        self.position_ms
    }

    /// Session time of a pad hit at wall time `now_ms`; `None` unless playing past the count-in.
    pub fn session_time_at(&self, now_ms: u64) -> (r: Option<u64>)
        requires
            self.wf(),
        ensures
            r == session_time(self@, now_ms),
    {
        if self.status != Status::Playing || self.count_in_until_ms.is_some() {
            return None;
        }
        let origin = match self.origin_wall_ms {
            Some(o) => o,
            None => {
                return None;
            },
        };
        let el: u64 = if now_ms >= origin {
            now_ms - origin
        } else {
            0
        };
        let adv = scale_elapsed(el, self.speed_pct);
        let raw: i128 = self.origin_position_ms as i128 + adv as i128 + self.latency_offset_ms as i128;
        Some(
            if raw < 0 {
                0
            } else if raw > i64::MAX as i128 {
                i64::MAX as u64
            } else {
                raw as u64
            },
        )
    }

    /// Status, playhead, duration and rate at wall time `now_ms`.
    pub fn snapshot(&self, now_ms: u64) -> (r: TransportSnapshot)
        requires
            self.wf(),
        ensures
            r == snapshot_of(self@, now_ms),
    {
        TransportSnapshot {
            status: self.status,
            position_ms: self.live_position_ms(now_ms),
            duration_ms: self.duration_ms,
            speed_pct: self.speed_pct,
        }
    }

    fn reset_cursors(&mut self)
        requires
            old(self).wf(),
        ensures
            final(self).wf(),
            final(self)@ == with_cursors_at(old(self)@, old(self)@.position_ms),
    {
        let pos = self.position_ms;
        self.next_highlight_idx = skip_hits(&self.expected_hits, 0, pos, false);
        self.next_schedule_idx = skip_notes(&self.playback_notes, 0, pos, false);
        self.next_metronome_idx = skip_times(&self.metronome_beats, 0, pos, false);
        proof {
            lemma_view_eq(self@, with_cursors_at(old(self)@, pos));
        }
    }

    fn stop_internal(&mut self)
        requires
            old(self).wf(),
        ensures
            final(self).wf(),
            final(self)@ == stopped(old(self)@),
    {
        self.play_generation = bump_generation(self.play_generation);
        self.status = Status::Stopped;
        self.position_ms = 0;
        self.origin_wall_ms = None;
        self.origin_position_ms = 0;
        self.count_in_until_ms = None;
        self.reset_cursors();
    }

    fn pause_internal(&mut self, now_ms: u64)
        requires
            old(self).wf(),
        ensures
            final(self).wf(),
            final(self)@ == paused(old(self)@, now_ms),
    {
        if self.status != Status::Playing {
            return;
        }
        let p = self.live_position_ms(now_ms);
        self.position_ms = p;
        self.play_generation = bump_generation(self.play_generation);
        self.status = Status::Paused;
        self.origin_wall_ms = None;
        self.origin_position_ms = p;
        self.count_in_until_ms = None;
        proof {
            lemma_view_eq(self@, paused(old(self)@, now_ms));
        }
    }

    fn seek_internal(&mut self, now_ms: u64, ms: u64)
        requires
            old(self).wf(),
        ensures
            final(self).wf(),
            final(self)@ == sought(old(self)@, now_ms, ms),
    {
        let was_playing = self.status == Status::Playing;
        if was_playing {
            self.play_generation = bump_generation(self.play_generation);
        }
        self.position_ms = if ms < self.duration_ms {
            ms
        } else {
            self.duration_ms
        };
        self.origin_position_ms = self.position_ms;
        self.count_in_until_ms = None;
        self.reset_cursors();
        let pos = self.position_ms;
        let mut taken = self.matcher.take();
        match &mut taken {
            Some(m) => {
                if m.is_active() {
                    m.reset_open_from(pos);
                }
            },
            None => {},
        }
        self.matcher = taken;
        if was_playing {
            self.origin_wall_ms = Some(now_ms);
            self.status = Status::Playing;
        } else if self.status == Status::Stopped && pos > 0 {
            self.status = Status::Paused;
        }
        proof {
            lemma_view_eq(self@, sought(old(self)@, now_ms, ms));
        }
    }

    fn set_speed_internal(&mut self, now_ms: u64, q: i64)
        requires
            old(self).wf(),
        ensures
            final(self).wf(),
            final(self)@ == speed_set(old(self)@, now_ms, q),
    {
        let next = speed_from_hundredths(q);
        if self.status == Status::Playing && next != self.speed_pct {
            let p = self.live_position_ms(now_ms);
            self.position_ms = p;
            self.origin_position_ms = p;
            self.origin_wall_ms = Some(now_ms);
            self.count_in_until_ms = None;
            self.speed_pct = next;
            self.reset_cursors();
            proof {
                lemma_view_eq(self@, speed_set(old(self)@, now_ms, q));
            }
        } else {
            self.speed_pct = next;
            proof {
                lemma_view_eq(self@, speed_set(old(self)@, now_ms, q));
            }
        }
    }

    fn ensure_practice_started(&mut self, started_at: String)
        requires
            old(self).wf(),
        ensures
            final(self).wf(),
            final(self)@ == practice_ensured(old(self)@, started_at@),
    {
        let needs_new = match &self.matcher {
            None => true,
            Some(m) => !m.is_active(),
        };
        if !needs_new {
            return;
        }
        if self.expected_hits.len() == 0 {
            return;
        }
        proof {
            assert forall|i: int| 0 <= i < self.expected_hits@.len() implies time_fits(
                #[trigger] self.expected_hits@[i].time_ms,
            ) by {
                assert(self.expected_hits@[i].time_ms <= MAX_TIMELINE_MS);
            }
        }
        let m = HitMatcher::start(
            self.expected_hits.as_slice(),
            self.position_ms,
            started_at,
            clone_opt_string(&self.song_path),
            self.drum_track_id,
        );
        proof {
            let want = started_run(
                self.expected_hits@,
                self.position_ms,
                started_at@,
                text_view(self.song_path),
                self.drum_track_id,
            );
            assert(m@.slots =~= want.slots);
            assert(m@.deltas =~= want.deltas);
        }
        self.matcher = Some(m);
        proof {
            lemma_view_eq(self@, practice_ensured(old(self)@, started_at@));
        }
    }

    /// Finalize the active run; its summary when it judged anything.
    fn take_summary_if_active(&mut self, ended_at: String) -> (r: Option<SessionSummary>)
        requires
            old(self).wf(),
        ensures
            final(self).wf(),
            final(self)@ == after_summary(old(self)@),
            summary_taken(old(self)@, r, ended_at@),
    {
        let mut taken = self.matcher.take();
        let r = match &mut taken {
            Some(m) => {
                if !m.is_active() {
                    None
                } else {
                    let c = m.live_counts();
                    let total: u64 = c.perfect as u64 + c.good as u64 + c.ok as u64 + c.miss as u64
                        + c.wrong as u64 + c.extra as u64;
                    let s = m.finalize(ended_at);
                    if total > 0 {
                        Some(s)
                    } else {
                        None
                    }
                }
            },
            None => None,
        };
        self.matcher = taken;
        proof {
            lemma_view_eq(self@, after_summary(old(self)@));
        }
        r
    }
}

/// `elapsed * pct / 100` rounded half up.
fn scale_elapsed(el: u64, pct: u32) -> (r: u64)
    requires
        pct <= SPEED_MAX_PCT,
    ensures
        r == scaled_ms(el as int, pct),
        r <= el,
{
    proof {
        assert(2 * el * pct <= 200 * el) by (nonlinear_arith)
            requires pct <= 100;
        assert((2 * el * pct + 100) / 200 <= el) by (nonlinear_arith)
            requires 2 * el * pct <= 200 * el;
        assert(2 * (el as u128) * (pct as u128) == 2 * el * pct);
    }
    let n: u128 = 2 * (el as u128) * (pct as u128) + 100;
    (n / 200) as u64
}


// ----- song and settings -----

/// Session after loading a song: any run discarded, stopped at 0, nothing selected yet.
pub open spec fn loaded(v: SessionView, bytes: Seq<u8>, s: SongSummary, beats: Seq<u64>) -> SessionView {
    let w = stopped(v);
    SessionView {
        matcher: None,
        midi_bytes: Some(bytes),
        song_path: Some(s.path@),
        duration_ms: s.duration_ms,
        expected_hits: Seq::empty(),
        raw_expected_hits: Seq::empty(),
        playback_notes: Seq::empty(),
        metronome_beats: beats,
        drum_track_id: None,
        next_highlight_idx: 0,
        next_schedule_idx: 0,
        next_metronome_idx: 0,
        ..w
    }
}

/// Expected hits folded for a device profile.
pub open spec fn folded_hits(raw: Seq<ExpectedHit>, profile: Option<&PadMapProfile>) -> Seq<ExpectedHit> {
    raw.map_values(|h: ExpectedHit| spec_fold_hit(h, profile_pads(profile)))
}

/// Session after selecting drum track `track_id`: any run discarded, stopped at 0, the new
/// timeline (folded for the profile), schedule and duration in place.
pub open spec fn drum_track_set(
    v: SessionView,
    hits: Seq<ExpectedHit>,
    notes: Seq<ScheduleNote>,
    dur: u64,
    track_id: u16,
    profile: Option<&PadMapProfile>,
) -> SessionView {
    let w = stopped(SessionView { matcher: None, ..v });
    with_cursors_at(
        SessionView {
            raw_expected_hits: hits,
            expected_hits: folded_hits(hits, profile),
            playback_notes: notes,
            duration_ms: dur,
            drum_track_id: Some(track_id),
            ..w
        },
        0,
    )
}

/// `p + 80`, saturating.
pub open spec fn horizon(p: u64) -> u64 {
    if p + LOOKAHEAD_MS > u64::MAX {
        u64::MAX
    } else {
        (p + LOOKAHEAD_MS) as u64
    }
}

/// Session after re-folding the timeline for a new profile: the highlight cursor skips what
/// starts before the lookahead horizon of the live playhead.
pub open spec fn refolded(v: SessionView, now: u64, profile: Option<&PadMapProfile>) -> SessionView {
    if v.raw_expected_hits.len() == 0 {
        v
    } else {
        let folded = folded_hits(v.raw_expected_hits, profile);
        SessionView {
            expected_hits: folded,
            next_highlight_idx: skip_below(hit_times(folded), 0, horizon(live_position(v, now)) as int),
            ..v
        }
    }
}

pub open spec fn parse_failure(e: Seq<char>) -> bool {
    exists|t: Seq<char>| e == "failed to parse MIDI file: "@ + t
}

fn horizon_of(p: u64) -> (r: u64)
    ensures
        r == horizon(p),
{
    if p > u64::MAX - LOOKAHEAD_MS {
        u64::MAX
    } else {
        p + LOOKAHEAD_MS
    }
}

proof fn lemma_folded_fit(raw: Seq<ExpectedHit>, profile: Option<&PadMapProfile>)
    requires
        hits_fit(raw),
    ensures
        hits_fit(folded_hits(raw, profile)),
{
    assert forall|i: int| 0 <= i < folded_hits(raw, profile).len() implies (#[trigger] folded_hits(raw, profile)[i]).time_ms
        <= MAX_TIMELINE_MS by {
        assert(raw[i].time_ms <= MAX_TIMELINE_MS);
    }
}

impl SessionState {
    /// Load a song from its bytes: its overview and metronome; any run is discarded and the
    /// transport stops. On a parse failure nothing changes.
    pub fn load_song(&mut self, bytes: Vec<u8>, path: &str) -> (r: Result<SongSummary, String>)
        requires
            old(self).wf(),
            bytes@.len() <= u32::MAX,
        ensures
            final(self).wf(),
            match midly_parse(bytes@) {
                None => r matches Err(e) && parse_failure(e@) && final(self)@ == old(self)@,
                Some((timing, tracks)) => r matches Ok(s) && summary_ok(s, s.path@, timing, tracks)
                    && shown_path(s.path@, path@) && metronome_ok(final(self)@.metronome_beats, timing, tracks)
                    && final(self)@ == loaded(old(self)@, bytes@, s, final(self)@.metronome_beats),
            },
    {
        let summary = match summarize_midi(bytes.as_slice(), path) {
            Ok(s) => s,
            Err(e) => {
                return Err(e.message());
            },
        };
        let beats = match build_metronome_beats(bytes.as_slice()) {
            Ok(b) => b,
            Err(e) => {
                return Err(e.message());
            },
        };
        self.matcher = None;
        self.stop_internal();
        let ghost bytes_view = bytes@;
        self.midi_bytes = Some(bytes);
        self.song_path = Some(summary.path.clone());
        self.duration_ms = summary.duration_ms;
        self.expected_hits = Vec::new();
        self.raw_expected_hits = Vec::new();
        self.playback_notes = Vec::new();
        self.metronome_beats = beats;
        self.drum_track_id = None;
        self.next_highlight_idx = 0;
        self.next_schedule_idx = 0;
        self.next_metronome_idx = 0;
        proof {
            lemma_view_eq(self@, loaded(old(self)@, bytes_view, summary, self@.metronome_beats));
        }
        Ok(summary)
    }

    /// Select the drum track: build its expected timeline (folded for `profile`) and the
    /// playback schedule; any run is discarded and the transport stops. On failure nothing
    /// changes.
    pub fn set_drum_track(&mut self, track_id: u16, profile: Option<&PadMapProfile>) -> (r: Result<(), String>)
        requires
            old(self).wf(),
        ensures
            final(self).wf(),
            match old(self)@.midi_bytes {
                None => r matches Err(e) && e@ == "no MIDI file loaded"@ && final(self)@ == old(self)@,
                Some(b) => match midly_parse(b) {
                    None => r matches Err(e) && parse_failure(e@) && final(self)@ == old(self)@,
                    Some((timing, tracks)) => if track_id as int >= tracks.len() {
                        r matches Err(e) && e@ == "track "@ + decimal_text(track_id as nat) + " out of range"@
                            && final(self)@ == old(self)@
                    } else {
                        let f = final(self)@;
                        &&& r is Ok
                        &&& expected_ok(f.raw_expected_hits, f.duration_ms, timing, tracks, track_id)
                        &&& playback_ok(f.playback_notes, f.duration_ms, timing, tracks, track_id)
                        &&& f == drum_track_set(old(self)@, f.raw_expected_hits, f.playback_notes, f.duration_ms, track_id, profile)
                    },
                },
            },
    {
        let bytes = match &self.midi_bytes {
            Some(b) => b,
            None => {
                return Err(owned("no MIDI file loaded"));
            },
        };
        let (hits, duration_ms) = match build_expected_hits(bytes.as_slice(), track_id) {
            Ok(x) => x,
            Err(e) => {
                return Err(e.message());
            },
        };
        let (notes, _) = match build_playback_notes(bytes.as_slice(), track_id) {
            Ok(x) => x,
            Err(e) => {
                return Err(e.message());
            },
        };
        self.matcher = None;
        self.stop_internal();
        let folded = fold_expected_hits(hits.as_slice(), profile);
        assert(folded@ =~= folded_hits(hits@, profile));
        proof {
            lemma_folded_fit(hits@, profile);
        }
        self.raw_expected_hits = hits;
        self.expected_hits = folded;
        self.playback_notes = notes;
        self.duration_ms = duration_ms;
        self.drum_track_id = Some(track_id);
        self.reset_cursors();
        Ok(())
    }

    /// Re-fold the timeline for a device profile (optional pads onto stand-ins).
    pub fn apply_pad_map_fold(&mut self, now_ms: u64, profile: Option<&PadMapProfile>)
        requires
            old(self).wf(),
        ensures
            final(self).wf(),
            final(self)@ == refolded(old(self)@, now_ms, profile),
    {
        if self.raw_expected_hits.len() == 0 {
            return;
        }
        let pos = self.live_position_ms(now_ms);
        let folded = fold_expected_hits(self.raw_expected_hits.as_slice(), profile);
        assert(folded@ =~= folded_hits(self.raw_expected_hits@, profile));
        proof {
            lemma_folded_fit(self.raw_expected_hits@, profile);
        }
        self.expected_hits = folded;
        self.next_highlight_idx = skip_hits(&self.expected_hits, 0, horizon_of(pos), false);
        proof {
            lemma_view_eq(self@, refolded(old(self)@, now_ms, profile));
        }
    }

    /// Turn the metronome on or off; its cursor moves to the live playhead.
    pub fn set_metronome_enabled(&mut self, now_ms: u64, enabled: bool)
        requires
            old(self).wf(),
        ensures
            final(self).wf(),
            final(self)@ == (SessionView {
                metronome_enabled: enabled,
                next_metronome_idx: skip_below(old(self)@.metronome_beats, 0, live_position(old(self)@, now_ms) as int),
                ..old(self)@
            }),
    {
        self.metronome_enabled = enabled;
        let pos = self.live_position_ms(now_ms);
        self.next_metronome_idx = skip_times(&self.metronome_beats, 0, pos, false);
        proof {
            lemma_view_eq(
                self@,
                SessionView {
                    metronome_enabled: enabled,
                    next_metronome_idx: skip_below(old(self)@.metronome_beats, 0, pos as int),
                    ..old(self)@
                },
            );
        }
    }

    /// Set the input latency compensation added to hit times.
    pub fn set_latency_offset(&mut self, ms: i64)
        requires
            old(self).wf(),
        ensures
            final(self).wf(),
            final(self)@ == (SessionView { latency_offset_ms: ms, ..old(self)@ }),
    {
        self.latency_offset_ms = ms;
        proof {
            lemma_view_eq(self@, SessionView { latency_offset_ms: ms, ..old(self)@ });
        }
    }

    /// The expected timeline (folded for the device profile).
    pub fn expected_hits(&self) -> (r: Vec<ExpectedHit>)
        ensures
            r@ == self@.expected_hits,
    {
        self.expected_hits.clone()
    }

    pub fn status(&self) -> (r: Status)
        ensures
            r == self@.status,
    {
        self.status
    }

    pub fn play_generation(&self) -> (r: u64)
        ensures
            r == self@.play_generation,
    {
        self.play_generation
    }

    pub fn metronome_enabled(&self) -> (r: bool)
        ensures
            r == self@.metronome_enabled,
    {
        self.metronome_enabled
    }

    pub fn speed_pct(&self) -> (r: u32)
        ensures
            r == self@.speed_pct,
    {
        self.speed_pct
    }

    pub fn drum_track_id(&self) -> (r: Option<u16>)
        ensures
            r == self@.drum_track_id,
    {
        self.drum_track_id
    }

    /// Whether a ticker started with `generation` should keep running.
    pub fn is_current(&self, generation: u64) -> (r: bool)
        ensures
            r == (self@.play_generation == generation && self@.status == Status::Playing),
    {
        self.play_generation == generation && self.status == Status::Playing
    }
}


// ----- transport commands -----

/// Quarter-note length at `pos` for the count-in (500 ms when the file cannot be read).
pub open spec fn count_in_quarter_ms(bytes: Seq<u8>, pos: u64) -> u64 {
    match midly_parse(bytes) {
        None => 500,
        Some((timing, tracks)) => quarter_ms_of(tempo_at(spec_tempo_map(tracks), spec_ticks_per_beat(timing), pos)),
    }
}

/// Wall interval between count-in clicks: the quarter note at the playback rate, rounded
/// half up, at least 1 ms.
pub open spec fn count_in_interval(q: u64, pct: u32) -> u64 {
    let x = (2 * q * 100 + pct) / (2 * pct as int);
    if x < 1 {
        1
    } else if x > u64::MAX {
        u64::MAX
    } else {
        x as u64
    }
}

/// Wall time at which the count-in ends: lead-in plus four clicks (saturating).
pub open spec fn count_in_end(now: u64, interval: u64) -> u64 {
    let x = now + COUNT_IN_LEAD_IN_MS + COUNT_IN_CLICKS * interval;
    if x > u64::MAX {
        u64::MAX
    } else {
        x as u64
    }
}

/// Playing again from the end of the song starts over, with a new run.
pub open spec fn play_rewound(v: SessionView) -> SessionView {
    if v.position_ms >= v.duration_ms && v.duration_ms > 0 {
        with_cursors_at(SessionView { position_ms: 0, matcher: None, ..v }, 0)
    } else {
        v
    }
}

/// Session after Play from a non-playing state: a run started if needed, a new ticker
/// generation, and either a metronome count-in (playhead frozen) or the clock anchored now.
pub open spec fn play_started(v: SessionView, now: u64, started_at: Seq<char>) -> SessionView {
    let v2 = practice_ensured(play_rewound(v), started_at);
    let v3 = SessionView { status: Status::Playing, play_generation: next_generation(v2.play_generation), ..v2 };
    if v3.metronome_enabled {
        let iv = count_in_interval(count_in_quarter_ms(v3.midi_bytes.unwrap(), v3.position_ms), v3.speed_pct);
        SessionView {
            count_in_until_ms: Some(count_in_end(now, iv)),
            origin_wall_ms: None,
            origin_position_ms: v3.position_ms,
            ..v3
        }
    } else {
        SessionView {
            count_in_until_ms: None,
            origin_wall_ms: Some(now),
            origin_position_ms: v3.position_ms,
            ..v3
        }
    }
}

/// Play from a non-playing state resumes where the playhead stands when it is before the
/// song end (or the song has no length): the position, and an active run with its
/// judgements, are kept. Only at or past the end of a song with a length does Play rewind
/// to 0 and drop the run.
pub proof fn lemma_play_resumes_in_place(v: SessionView, now: u64, started_at: Seq<char>)
    ensures
        v.position_ms < v.duration_ms || v.duration_ms == 0 ==> play_started(v, now, started_at).position_ms
            == v.position_ms,
        (v.position_ms < v.duration_ms || v.duration_ms == 0) && (v.matcher matches Some(m) && m.active)
            ==> play_started(v, now, started_at).matcher == v.matcher,
        v.position_ms >= v.duration_ms && v.duration_ms > 0 ==> play_started(v, now, started_at).position_ms
            == 0,
        v.position_ms >= v.duration_ms && v.duration_ms > 0 ==> !(play_started(v, now, started_at).matcher
            matches Some(m) && m.counts != zero_counts()),
{
}

/// A requested rate in hundredths is held between 10 % and 100 %: values in range are
/// kept as given, lower ones become 10 %, higher ones 100 %.
pub proof fn lemma_speed_clamped(q: i64)
    ensures
        10 <= clamp_speed_pct(q) <= 100,
        10 <= q <= 100 ==> clamp_speed_pct(q) == q,
        q < 10 ==> clamp_speed_pct(q) == 10,
        q > 100 ==> clamp_speed_pct(q) == 100,
{
}

pub open spec fn counts_of(m: Option<MatcherView>) -> Option<HitCounts> {
    match m {
        Some(x) => Some(x.counts),
        None => None,
    }
}

pub open spec fn active_counts_of(m: Option<MatcherView>) -> Option<HitCounts> {
    match m {
        Some(x) => if x.active {
            Some(x.counts)
        } else {
            None
        },
        None => None,
    }
}

/// What the caller does after Play.
#[derive(Debug, Clone, Copy)]
pub struct PlayPlan {
    /// Play while already playing changes nothing.
    pub already_playing: bool,
    pub snapshot: TransportSnapshot,
    /// Generation of the ticker to start.
    pub generation: u64,
    /// Tallies to show, when there is a run.
    pub live_counts: Option<HitCounts>,
    /// With the metronome on: interval of the count-in click train; otherwise the audio is
    /// armed at the playhead.
    pub count_in_interval_ms: Option<u64>,
    pub position_ms: u64,
    pub speed_pct: u32,
}

/// What the caller does after Stop.
#[derive(Debug, Clone)]
pub struct StopPlan {
    /// Summary of the run, to store and announce.
    pub summary: Option<SessionSummary>,
    pub snapshot: TransportSnapshot,
}

/// What the caller does after a seek.
#[derive(Debug, Clone, Copy)]
pub struct SeekPlan {
    pub snapshot: TransportSnapshot,
    /// Playback continues: re-arm the audio and start a ticker of `generation`.
    pub playing: bool,
    pub generation: u64,
    pub live_counts: Option<HitCounts>,
    pub speed_pct: u32,
}

/// What the caller does after a speed change.
#[derive(Debug, Clone, Copy)]
pub struct SpeedPlan {
    pub snapshot: TransportSnapshot,
    /// Re-arm the audio at the playhead; otherwise only pass the new rate on.
    pub playing: bool,
    pub speed_pct: u32,
}

/// What an incoming pad hit produced.
#[derive(Debug, Clone, Copy)]
pub struct HitPlan {
    pub incoming: IncomingHit,
    pub judgement: Option<JudgementEvent>,
    pub counts: Option<HitCounts>,
}

impl SessionState {
    /// Whether a hit on `pad_id` at wall time `now_ms` can be tallied by the active run (see
    /// `hit_tallies_fit`).
    pub fn hit_can_be_tallied(&self, now_ms: u64, pad_id: PadId) -> (r: bool)
        requires
            self.wf(),
        ensures
            r == hit_tallies_fit(self@, now_ms, pad_id),
    {
        match self.session_time_at(now_ms) {
            None => true,
            Some(t) => match &self.matcher {
                Some(m) => !m.is_active() || m.can_tally(pad_id, t),
                None => true,
            },
        }
    }

    /// Play at wall time `now_ms`. Needs a song and a drum track.
    pub fn play(&mut self, now_ms: u64, started_at: String) -> (r: Result<PlayPlan, String>)
        requires
            old(self).wf(),
        ensures
            final(self).wf(),
            old(self)@.midi_bytes is None ==> (r matches Err(e) && e@ == "no MIDI file loaded"@
                && final(self)@ == old(self)@),
            old(self)@.midi_bytes is Some && old(self)@.drum_track_id is None ==> (r matches Err(e)
                && e@ == "no drum track selected"@ && final(self)@ == old(self)@),
            old(self)@.midi_bytes is Some && old(self)@.drum_track_id is Some && old(self)@.status
                == Status::Playing ==> (r matches Ok(p) && p.already_playing && p.snapshot == snapshot_of(
                old(self)@,
                now_ms,
            ) && final(self)@ == old(self)@),
            old(self)@.midi_bytes is Some && old(self)@.drum_track_id is Some && old(self)@.status
                != Status::Playing ==> (r matches Ok(p) && ({
                let f = final(self)@;
                let v2 = practice_ensured(play_rewound(old(self)@), started_at@);
                &&& f == play_started(old(self)@, now_ms, started_at@)
                &&& !p.already_playing
                &&& p.generation == f.play_generation
                &&& p.live_counts == counts_of(v2.matcher)
                &&& p.count_in_interval_ms == (if f.metronome_enabled {
                    Some(count_in_interval(count_in_quarter_ms(f.midi_bytes.unwrap(), f.position_ms), f.speed_pct))
                } else {
                    None
                })
                &&& p.position_ms == f.position_ms
                &&& p.speed_pct == f.speed_pct
                &&& p.snapshot == snapshot_of(f, now_ms)
            })),
    {
        if self.midi_bytes.is_none() {
            return Err(owned("no MIDI file loaded"));
        }
        if self.drum_track_id.is_none() {
            return Err(owned("no drum track selected"));
        }
        if self.status == Status::Playing {
            return Ok(
                PlayPlan {
                    already_playing: true,
                    snapshot: self.snapshot(now_ms),
                    generation: self.play_generation,
                    live_counts: None,
                    count_in_interval_ms: None,
                    position_ms: self.position_ms,
                    speed_pct: self.speed_pct,
                },
            );
        }
        if self.position_ms >= self.duration_ms && self.duration_ms > 0 {
            self.position_ms = 0;
            self.reset_cursors();
            self.matcher = None;
            proof {
                lemma_view_eq(self@, play_rewound(old(self)@));
            }
        }
        self.ensure_practice_started(started_at);
        let live_counts = match &self.matcher {
            Some(m) => Some(m.live_counts()),
            None => None,
        };
        self.status = Status::Playing;
        self.play_generation = bump_generation(self.play_generation);
        let generation = self.play_generation;
        let position_ms = self.position_ms;
        let count_in = if self.metronome_enabled {
            let q = match &self.midi_bytes {
                Some(b) => match quarter_ms_at(b.as_slice(), position_ms) {
                    Ok(q) => q,
                    Err(_) => 500,
                },
                None => 500,
            };
            let q = if q < 1 {
                1
            } else {
                q
            };
            let interval = interval_for(q, self.speed_pct);
            self.count_in_until_ms = Some(end_of_count_in(now_ms, interval));
            self.origin_wall_ms = None;
            self.origin_position_ms = position_ms;
            Some(interval)
        } else {
            self.count_in_until_ms = None;
            self.origin_wall_ms = Some(now_ms);
            self.origin_position_ms = position_ms;
            None
        };
        proof {
            lemma_view_eq(self@, play_started(old(self)@, now_ms, started_at@));
        }
        Ok(
            PlayPlan {
                already_playing: false,
                snapshot: self.snapshot(now_ms),
                generation,
                live_counts,
                count_in_interval_ms: count_in,
                position_ms,
                speed_pct: self.speed_pct,
            },
        )
    }

    /// Pause at wall time `now_ms` (only while playing).
    pub fn pause(&mut self, now_ms: u64) -> (r: TransportSnapshot)
        requires
            old(self).wf(),
        ensures
            final(self).wf(),
            final(self)@ == paused(old(self)@, now_ms),
            r == snapshot_of(final(self)@, now_ms),
    {
        self.pause_internal(now_ms);
        self.snapshot(now_ms)
    }

    /// Stop: the active run is finalized (its summary returned when it judged anything) and
    /// the transport rewinds to 0.
    pub fn stop(&mut self, now_ms: u64, ended_at: String) -> (r: StopPlan)
        requires
            old(self).wf(),
        ensures
            final(self).wf(),
            final(self)@ == stopped(after_summary(old(self)@)),
            summary_taken(old(self)@, r.summary, ended_at@),
            r.snapshot == snapshot_of(final(self)@, now_ms),
    {
        let summary = self.take_summary_if_active(ended_at);
        self.stop_internal();
        StopPlan { summary, snapshot: self.snapshot(now_ms) }
    }

    /// Seek to `ms` at wall time `now_ms`. Needs a song.
    pub fn seek(&mut self, now_ms: u64, ms: u64) -> (r: Result<SeekPlan, String>)
        requires
            old(self).wf(),
        ensures
            final(self).wf(),
            old(self)@.midi_bytes is None ==> (r matches Err(e) && e@ == "no MIDI file loaded"@
                && final(self)@ == old(self)@),
            old(self)@.midi_bytes is Some ==> (r matches Ok(p) && ({
                let f = final(self)@;
                &&& f == sought(old(self)@, now_ms, ms)
                &&& p.playing == (old(self)@.status == Status::Playing && f.status == Status::Playing)
                &&& p.generation == f.play_generation
                &&& p.live_counts == active_counts_of(f.matcher)
                &&& p.speed_pct == f.speed_pct
                &&& p.snapshot == snapshot_of(f, now_ms)
            })),
    {
        if self.midi_bytes.is_none() {
            return Err(owned("no MIDI file loaded"));
        }
        let was_playing = self.status == Status::Playing;
        self.seek_internal(now_ms, ms);
        let live_counts = match &self.matcher {
            Some(m) => if m.is_active() {
                Some(m.live_counts())
            } else {
                None
            },
            None => None,
        };
        Ok(
            SeekPlan {
                snapshot: self.snapshot(now_ms),
                playing: was_playing && self.status == Status::Playing,
                generation: self.play_generation,
                live_counts,
                speed_pct: self.speed_pct,
            },
        )
    }

    /// Change the playback rate (requested in hundredths) at wall time `now_ms`.
    pub fn set_speed(&mut self, now_ms: u64, q: i64) -> (r: SpeedPlan)
        requires
            old(self).wf(),
        ensures
            final(self).wf(),
            final(self)@ == speed_set(old(self)@, now_ms, q),
            r.playing == (final(self)@.status == Status::Playing),
            r.speed_pct == final(self)@.speed_pct,
            r.snapshot == snapshot_of(final(self)@, now_ms),
    {
        self.set_speed_internal(now_ms, q);
        SpeedPlan {
            snapshot: self.snapshot(now_ms),
            playing: self.status == Status::Playing,
            speed_pct: self.speed_pct,
        }
    }

    /// A mapped pad hit at wall time `now_ms`: shown at its session time and judged by the
    /// active run; when not playing it is shown at the frozen playhead and not judged.
    pub fn handle_incoming_hit(&mut self, now_ms: u64, pad_id: PadId, velocity: u8, raw_note: u8, raw_channel: u8) -> (r: HitPlan)
        requires
            old(self).wf(),
            hit_tallies_fit(old(self)@, now_ms, pad_id),
        ensures
            final(self).wf(),
            match session_time(old(self)@, now_ms) {
                None => {
                    &&& r.incoming == (IncomingHit {
                        pad_id: Some(pad_id),
                        raw_note,
                        raw_channel,
                        velocity,
                        time_ms: old(self)@.position_ms,
                    })
                    &&& r.judgement is None
                    &&& r.counts is None
                    &&& final(self)@ == old(self)@
                },
                Some(t) => {
                    &&& r.incoming == (IncomingHit { pad_id: Some(pad_id), raw_note, raw_channel, velocity, time_ms: t })
                    &&& match old(self)@.matcher {
                        Some(m) => if m.active {
                            let (m2, ev) = judged_view(m, pad_id, t);
                            &&& r.judgement == Some(ev)
                            &&& r.counts == Some(m2.counts)
                            &&& final(self)@ == (SessionView { matcher: Some(m2), ..old(self)@ })
                        } else {
                            r.judgement is None && r.counts is None && final(self)@ == old(self)@
                        },
                        None => r.judgement is None && r.counts is None && final(self)@ == old(self)@,
                    }
                },
            },
    {
        let t = match self.session_time_at(now_ms) {
            Some(t) => t,
            None => {
                return HitPlan {
                    incoming: IncomingHit {
                        pad_id: Some(pad_id),
                        raw_note,
                        raw_channel,
                        velocity,
                        time_ms: self.position_ms,
                    },
                    judgement: None,
                    counts: None,
                };
            },
        };
        let incoming = IncomingHit { pad_id: Some(pad_id), raw_note, raw_channel, velocity, time_ms: t };
        let mut taken = self.matcher.take();
        let (judgement, counts) = match &mut taken {
            Some(m) => {
                if m.is_active() {
                    let ev = m.on_incoming(pad_id, t);
                    (Some(ev), Some(m.live_counts()))
                } else {
                    (None, None)
                }
            },
            None => (None, None),
        };
        self.matcher = taken;
        proof {
            match old(self)@.matcher {
                Some(m) => if m.active {
                    let (m2, ev) = judged_view(m, pad_id, t);
                    lemma_view_eq(self@, SessionView { matcher: Some(m2), ..old(self)@ });
                } else {
                    lemma_view_eq(self@, old(self)@);
                },
                None => {
                    lemma_view_eq(self@, old(self)@);
                },
            }
        }
        HitPlan { incoming, judgement, counts }
    }
}

fn interval_for(q: u64, pct: u32) -> (r: u64)
    requires
        SPEED_MIN_PCT <= pct <= SPEED_MAX_PCT,
    ensures
        r == count_in_interval(q, pct),
{
    proof {
        assert(2 * q * 100 <= 200 * u64::MAX) by (nonlinear_arith);
    }
    let x: u128 = (2 * (q as u128) * 100 + pct as u128) / (2 * pct as u128);
    if x < 1 {
        1
    } else if x > u64::MAX as u128 {
        u64::MAX
    } else {
        x as u64
    }
}

fn end_of_count_in(now: u64, interval: u64) -> (r: u64)
    ensures
        r == count_in_end(now, interval),
{
    let x: u128 = now as u128 + COUNT_IN_LEAD_IN_MS as u128 + COUNT_IN_CLICKS as u128 * interval as u128;
    if x > u64::MAX as u128 {
        u64::MAX
    } else {
        x as u64
    }
}


// ----- ticker -----

pub open spec fn highlight_of(h: ExpectedHit) -> HighlightEvent {
    HighlightEvent { pad_id: h.pad_id, at_ms: h.time_ms, velocity: h.velocity, uid: h.uid }
}

/// End of the expected hits due by `h` (those at or before it, from the cursor on).
pub open spec fn due_hits_end(v: SessionView, h: u64) -> int {
    skip_below(hit_times(v.expected_hits), v.next_highlight_idx, h + 1)
}

pub open spec fn due_notes_end(v: SessionView, h: u64) -> int {
    skip_below(note_times(v.playback_notes), v.next_schedule_idx, h + 1)
}

/// End of the metronome beats due by `h` (none while the metronome is off).
pub open spec fn due_beats_end(v: SessionView, h: u64) -> int {
    if v.metronome_enabled {
        skip_below(v.metronome_beats, v.next_metronome_idx, h + 1)
    } else {
        v.next_metronome_idx
    }
}

pub open spec fn due_highlights(v: SessionView, h: u64) -> Seq<HighlightEvent> {
    v.expected_hits.subrange(v.next_highlight_idx, due_hits_end(v, h)).map_values(|x: ExpectedHit| highlight_of(x))
}

pub open spec fn due_notes(v: SessionView, h: u64) -> Seq<ScheduleNote> {
    v.playback_notes.subrange(v.next_schedule_idx, due_notes_end(v, h))
}

/// Due clicks with their beat numbers.
pub open spec fn due_clicks(v: SessionView, h: u64) -> Seq<(u64, u32)> {
    let start = v.next_metronome_idx;
    Seq::new(
        (due_beats_end(v, h) - start) as nat,
        |k: int| (v.metronome_beats[start + k], (start + k) as u32),
    )
}

pub open spec fn cursors_advanced(v: SessionView, h: u64) -> SessionView {
    SessionView {
        next_highlight_idx: due_hits_end(v, h),
        next_schedule_idx: due_notes_end(v, h),
        next_metronome_idx: due_beats_end(v, h),
        ..v
    }
}

/// Once the count-in is over, the clock is anchored now at the frozen playhead.
pub open spec fn count_in_over(v: SessionView, now: u64) -> SessionView {
    if v.count_in_until_ms is Some {
        with_cursors_at(
            SessionView {
                count_in_until_ms: None,
                origin_wall_ms: Some(now),
                origin_position_ms: v.position_ms,
                ..v
            },
            v.position_ms,
        )
    } else {
        v
    }
}

pub open spec fn misses_expired(v: SessionView, p: u64) -> SessionView {
    match v.matcher {
        Some(m) => if m.active {
            SessionView { matcher: Some(expire_view(m, p)), ..v }
        } else {
            v
        },
        None => v,
    }
}

pub open spec fn session_misses(v: SessionView, p: u64) -> Seq<JudgementEvent> {
    match v.matcher {
        Some(m) => if m.active {
            expired_events(m.slots, p)
        } else {
            Seq::empty()
        },
        None => Seq::empty(),
    }
}

/// The song reached its end: stopped at the end, ticker invalidated.
pub open spec fn ended(v: SessionView) -> SessionView {
    SessionView {
        position_ms: v.duration_ms,
        play_generation: next_generation(v.play_generation),
        status: Status::Stopped,
        origin_wall_ms: None,
        origin_position_ms: 0,
        count_in_until_ms: None,
        ..v
    }
}

/// What a ticker step found.
#[derive(Debug, Clone, Copy, PartialEq, Eq, Structural)]
pub enum TickOutcome {
    /// The ticker is stale or playback stopped: it ends.
    Exit,
    /// The count-in is still running: only the position is announced.
    CountIn,
    /// Playback goes on.
    Running,
    /// The song ended: playback stopped.
    Finished,
}

/// What the caller does after a ticker step.
#[derive(Debug, Clone)]
pub struct TickPlan {
    pub outcome: TickOutcome,
    /// The count-in just ended: cancel pending audio and arm it at `position_ms`.
    pub rearm: bool,
    pub position_ms: u64,
    pub speed_pct: u32,
    /// Misses found at this step, and the tallies to show when there are any.
    pub misses: Vec<JudgementEvent>,
    pub miss_counts: Option<HitCounts>,
    pub highlights: Vec<HighlightEvent>,
    pub due_notes: Vec<ScheduleNote>,
    /// Metronome clicks: session time and beat number.
    pub due_clicks: Vec<(u64, u32)>,
    /// At the end of the song: the run's summary.
    pub summary: Option<SessionSummary>,
    pub snapshot: TransportSnapshot,
}

impl SessionState {
    fn expire_at(&mut self, p: u64) -> (r: (Vec<JudgementEvent>, Option<HitCounts>))
        requires
            old(self).wf(),
            p <= MAX_TIMELINE_MS,
        ensures
            final(self).wf(),
            final(self)@ == misses_expired(old(self)@, p),
            r.0@ == session_misses(old(self)@, p),
            r.1 == (if r.0@.len() > 0 {
                counts_of(final(self)@.matcher)
            } else {
                None
            }),
    {
        let mut taken = self.matcher.take();
        let r = match &mut taken {
            Some(m) => {
                if m.is_active() {
                    let events = m.expire_misses(p);
                    let counts = if events.len() > 0 {
                        Some(m.live_counts())
                    } else {
                        None
                    };
                    (events, counts)
                } else {
                    (Vec::new(), None)
                }
            },
            None => (Vec::new(), None),
        };
        self.matcher = taken;
        proof {
            lemma_view_eq(self@, misses_expired(old(self)@, p));
        }
        r
    }

    fn take_highlights(&mut self, h: u64) -> (r: Vec<HighlightEvent>)
        requires
            old(self).wf(),
        ensures
            final(self).wf(),
            final(self)@ == (SessionView { next_highlight_idx: due_hits_end(old(self)@, h), ..old(self)@ }),
            r@ == due_highlights(old(self)@, h),
    {
        let start = self.next_highlight_idx;
        let end = skip_hits(&self.expected_hits, start, h, true);
        let mut out: Vec<HighlightEvent> = Vec::new();
        let mut i = start;
        while i < end
            invariant
                start <= i <= end <= self.expected_hits@.len(),
                out@ == self.expected_hits@.subrange(start as int, i as int).map_values(|x: ExpectedHit| highlight_of(x)),
            decreases end - i,
        {
            let hit = self.expected_hits[i];
            out.push(HighlightEvent { pad_id: hit.pad_id, at_ms: hit.time_ms, velocity: hit.velocity, uid: hit.uid });
            assert(self.expected_hits@.subrange(start as int, i + 1).map_values(|x: ExpectedHit| highlight_of(x)) =~= out@);
            i = i + 1;
        }
        self.next_highlight_idx = end;
        proof {
            lemma_view_eq(self@, SessionView { next_highlight_idx: due_hits_end(old(self)@, h), ..old(self)@ });
        }
        out
    }

    fn take_due_notes(&mut self, h: u64) -> (r: Vec<ScheduleNote>)
        requires
            old(self).wf(),
        ensures
            final(self).wf(),
            final(self)@ == (SessionView { next_schedule_idx: due_notes_end(old(self)@, h), ..old(self)@ }),
            r@ == due_notes(old(self)@, h),
    {
        let start = self.next_schedule_idx;
        let end = skip_notes(&self.playback_notes, start, h, true);
        let mut out: Vec<ScheduleNote> = Vec::new();
        let mut i = start;
        while i < end
            invariant
                start <= i <= end <= self.playback_notes@.len(),
                out@ == self.playback_notes@.subrange(start as int, i as int),
            decreases end - i,
        {
            out.push(self.playback_notes[i]);
            assert(self.playback_notes@.subrange(start as int, i + 1) =~= out@);
            i = i + 1;
        }
        self.next_schedule_idx = end;
        proof {
            lemma_view_eq(self@, SessionView { next_schedule_idx: due_notes_end(old(self)@, h), ..old(self)@ });
        }
        out
    }

    fn take_due_clicks(&mut self, h: u64) -> (r: Vec<(u64, u32)>)
        requires
            old(self).wf(),
        ensures
            final(self).wf(),
            final(self)@ == (SessionView { next_metronome_idx: due_beats_end(old(self)@, h), ..old(self)@ }),
            r@ == due_clicks(old(self)@, h),
    {
        if !self.metronome_enabled {
            let r: Vec<(u64, u32)> = Vec::new();
            assert(r@ =~= due_clicks(old(self)@, h));
            proof {
                lemma_view_eq(self@, SessionView { next_metronome_idx: due_beats_end(old(self)@, h), ..old(self)@ });
            }
            return r;
        }
        let start = self.next_metronome_idx;
        let end = skip_times(&self.metronome_beats, start, h, true);
        let mut out: Vec<(u64, u32)> = Vec::new();
        let mut i = start;
        while i < end
            invariant
                start <= i <= end <= self.metronome_beats@.len(),
                out@ == Seq::new((i - start) as nat, |k: int| (self.metronome_beats@[start + k], (start + k) as u32)),
            decreases end - i,
        {
            out.push((self.metronome_beats[i], i as u32));
            assert(out@ =~= Seq::new((i + 1 - start) as nat, |k: int| (self.metronome_beats@[start + k], (start + k) as u32)));
            i = i + 1;
        }
        self.next_metronome_idx = end;
        assert(out@ =~= due_clicks(old(self)@, h));
        proof {
            lemma_view_eq(self@, SessionView { next_metronome_idx: due_beats_end(old(self)@, h), ..old(self)@ });
        }
        out
    }

    /// One ticker step of generation `generation` at wall time `now_ms`: ends the count-in
    /// when due, moves the playhead, expires misses, hands out what is due within the
    /// lookahead, and stops at the end of the song (finalizing the run).
    pub fn tick(&mut self, generation: u64, now_ms: u64, ended_at: String) -> (r: TickPlan)
        requires
            old(self).wf(),
        ensures
            final(self).wf(),
            ({
                let v = old(self)@;
                if v.play_generation != generation || v.status != Status::Playing {
                    &&& r.outcome == TickOutcome::Exit
                    &&& final(self)@ == v
                } else if v.count_in_until_ms matches Some(until) && now_ms < until {
                    &&& r.outcome == TickOutcome::CountIn
                    &&& final(self)@ == v
                    &&& r.snapshot == snapshot_of(v, now_ms)
                } else {
                    let v1 = count_in_over(v, now_ms);
                    let p = live_position(v1, now_ms);
                    let v2 = SessionView { position_ms: p, ..v1 };
                    let v3 = misses_expired(v2, p);
                    let h = horizon(p);
                    let v4 = cursors_advanced(v3, h);
                    &&& r.rearm == (v.count_in_until_ms is Some)
                    &&& r.position_ms == p
                    &&& r.speed_pct == v.speed_pct
                    &&& r.misses@ == session_misses(v2, p)
                    &&& r.miss_counts == (if r.misses@.len() > 0 {
                        counts_of(v3.matcher)
                    } else {
                        None
                    })
                    &&& r.highlights@ == due_highlights(v3, h)
                    &&& r.due_notes@ == due_notes(v3, h)
                    &&& r.due_clicks@ == due_clicks(v3, h)
                    &&& if p >= v4.duration_ms && v4.duration_ms > 0 {
                        &&& r.outcome == TickOutcome::Finished
                        &&& final(self)@ == after_summary(ended(v4))
                        &&& summary_taken(ended(v4), r.summary, ended_at@)
                        &&& r.snapshot == snapshot_of(final(self)@, now_ms)
                    } else {
                        &&& r.outcome == TickOutcome::Running
                        &&& final(self)@ == v4
                        &&& r.summary is None
                        &&& r.snapshot == snapshot_of(v4, now_ms)
                    }
                }
            }),
    {
        if self.play_generation != generation || self.status != Status::Playing {
            return TickPlan {
                outcome: TickOutcome::Exit,
                rearm: false,
                position_ms: self.position_ms,
                speed_pct: self.speed_pct,
                misses: Vec::new(),
                miss_counts: None,
                highlights: Vec::new(),
                due_notes: Vec::new(),
                due_clicks: Vec::new(),
                summary: None,
                snapshot: self.snapshot(now_ms),
            };
        }
        let mut rearm = false;
        match self.count_in_until_ms {
            Some(until) => {
                if now_ms < until {
                    return TickPlan {
                        outcome: TickOutcome::CountIn,
                        rearm: false,
                        position_ms: self.position_ms,
                        speed_pct: self.speed_pct,
                        misses: Vec::new(),
                        miss_counts: None,
                        highlights: Vec::new(),
                        due_notes: Vec::new(),
                        due_clicks: Vec::new(),
                        summary: None,
                        snapshot: self.snapshot(now_ms),
                    };
                }
                let pos = self.position_ms;
                self.count_in_until_ms = None;
                self.origin_wall_ms = Some(now_ms);
                self.origin_position_ms = pos;
                self.reset_cursors();
                rearm = true;
            },
            None => {},
        }
        proof {
            lemma_view_eq(self@, count_in_over(old(self)@, now_ms));
        }
        let position = self.live_position_ms(now_ms);
        self.position_ms = position;
        let (misses, miss_counts) = self.expire_at(position);
        let h = horizon_of(position);
        let highlights = self.take_highlights(h);
        let due_notes = self.take_due_notes(h);
        let due_clicks = self.take_due_clicks(h);
        let speed_pct = self.speed_pct;
        if position >= self.duration_ms && self.duration_ms > 0 {
            self.position_ms = self.duration_ms;
            self.play_generation = bump_generation(self.play_generation);
            self.status = Status::Stopped;
            self.origin_wall_ms = None;
            self.origin_position_ms = 0;
            self.count_in_until_ms = None;
            let summary = self.take_summary_if_active(ended_at);
            return TickPlan {
                outcome: TickOutcome::Finished,
                rearm,
                position_ms: position,
                speed_pct,
                misses,
                miss_counts,
                highlights,
                due_notes,
                due_clicks,
                summary,
                snapshot: self.snapshot(now_ms),
            };
        }
        TickPlan {
            outcome: TickOutcome::Running,
            rearm,
            position_ms: position,
            speed_pct,
            misses,
            miss_counts,
            highlights,
            due_notes,
            due_clicks,
            summary: None,
            snapshot: self.snapshot(now_ms),
        }
    }
}


// ----- laws -----

/// A paused playhead stays where it was paused, whatever the wall time.
pub proof fn lemma_pause_freezes_playhead(v: SessionView, now: u64, later: u64)
    requires
        v.status == Status::Playing,
    ensures
        live_position(paused(v, now), later) == live_position(v, now),
        paused(v, now).status == Status::Paused,
{
}

/// The playhead never runs past the end of the song.
pub proof fn lemma_playhead_within_song(v: SessionView, now: u64)
    requires
        v.position_ms <= v.duration_ms,
    ensures
        live_position(v, now) <= v.duration_ms,
{
}

/// A ticker started before a stop, a pause or a seek during playback is stale afterwards:
/// its next step exits.
pub proof fn lemma_interruptions_end_ticker(v: SessionView, now: u64, ms: u64)
    requires
        v.status == Status::Playing,
    ensures
        stopped(v).play_generation != v.play_generation,
        paused(v, now).play_generation != v.play_generation,
        sought(v, now, ms).play_generation != v.play_generation,
{
}

/// During playback each expected hit, playback note and click is handed out at most once
/// and in order: a ticker step only moves the cursors forward, within their lists.
pub proof fn lemma_tick_cursors_advance(v: SessionView, h: u64)
    requires
        view_wf(v),
    ensures
        v.next_highlight_idx <= due_hits_end(v, h) <= v.expected_hits.len(),
        v.next_schedule_idx <= due_notes_end(v, h) <= v.playback_notes.len(),
        v.next_metronome_idx <= due_beats_end(v, h) <= v.metronome_beats.len(),
{
    lemma_skip_range(hit_times(v.expected_hits), v.next_highlight_idx, h + 1);
    lemma_skip_range(note_times(v.playback_notes), v.next_schedule_idx, h + 1);
    lemma_skip_range(v.metronome_beats, v.next_metronome_idx, h + 1);
}

/// A seek never re-judges: hits already matched or missed keep their judgement, and the
/// tallies stay as they were.
pub proof fn lemma_seek_keeps_judgements(v: SessionView, now: u64, ms: u64)
    requires
        v.matcher matches Some(m) && m.active,
    ensures
        ({
            let m = v.matcher.unwrap();
            let m2 = sought(v, now, ms).matcher.unwrap();
            &&& m2.counts == m.counts
            &&& m2.slots.len() == m.slots.len()
            &&& forall|i: int|
                0 <= i < m.slots.len() && (m.slots[i].state == SlotState::Matched || m.slots[i].state
                    == SlotState::Missed) ==> #[trigger] m2.slots[i] == m.slots[i]
        }),
{
}

} // verus!
