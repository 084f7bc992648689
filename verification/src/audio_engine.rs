//! Sample-accurate scheduling for the synthesizer: the queue of timed MIDI and click
//! events, channel programs, drum-channel muting and player-hit feedback, plus output
//! device identifiers and buffer sizing.
//!
//! The synthesizer, the output stream and everything measured in fractional time stay
//! with the caller, which converts session times to sample positions and hands them in.

use vstd::prelude::*;

use crate::domain::{pad_to_gm_note, spec_pad_to_gm_note, NoteRole, PadId, ScheduleNote};
use crate::text::{concat2, concat3, lowercase_text, str_chars, string_from_chars, to_lowercase};

verus! {

/// Channel reserved for live player hits, so that muting the song's drums spares them.
pub const PLAYER_DRUM_CHANNEL: u8 = 15;

/// SoundFont bank of the player-hit channel (GM percussion).
pub const PLAYER_DRUM_BANK: u32 = 128;

/// MIDI controller number of Main Volume.
pub const MAIN_VOLUME_CC: u8 = 7;

/// GM percussion channel.
pub const GM_DRUM_CHANNEL: u8 = 9;

/// Preferred output buffer length in frames.
pub const TARGET_BUFFER_FRAMES: u32 = 256;

/// A synthesizer action.
#[derive(Debug, Clone, Copy, PartialEq, Eq, Structural)]
pub enum TimedKind {
    ProgramChange { channel: u8, program: u8 },
    NoteOn { channel: u8, note: u8, velocity: u8 },
    NoteOff { channel: u8, note: u8 },
    Click { index: u32 },
}

/// An action due at a sample position; `seq` orders actions due at the same sample.
#[derive(Debug, Clone, Copy, PartialEq, Eq, Structural)]
pub struct TimedEvent {
    pub at_sample: u64,
    pub seq: u64,
    pub kind: TimedKind,
}

/// Queue order: by sample, then by sequence number.
pub open spec fn event_before(a: TimedEvent, b: TimedEvent) -> bool {
    a.at_sample < b.at_sample || (a.at_sample == b.at_sample && a.seq <= b.seq)
}

pub open spec fn queue_sorted(s: Seq<TimedEvent>) -> bool {
    forall|i: int, j: int| 0 <= i <= j < s.len() ==> event_before(s[i], s[j])
}

/// Position at which `e` joins the queue: after every event that precedes or equals it.
pub open spec fn insert_index(s: Seq<TimedEvent>, e: TimedEvent, i: int) -> int
    decreases s.len() - i,
{
    if 0 <= i < s.len() && event_before(s[i], e) {
        insert_index(s, e, i + 1)
    } else {
        i
    }
}

/// Number of leading events due at or before sample `limit`.
pub open spec fn due_count(s: Seq<TimedEvent>, limit: u64, i: int) -> int
    decreases s.len() - i,
{
    if 0 <= i < s.len() && s[i].at_sample <= limit {
        due_count(s, limit, i + 1)
    } else {
        i
    }
}

pub open spec fn is_click(e: TimedEvent) -> bool {
    e.kind is Click
}

/// The queue without its clicks, in order.
pub open spec fn without_clicks(s: Seq<TimedEvent>) -> Seq<TimedEvent>
    decreases s.len(),
{
    if s.len() == 0 {
        s
    } else if is_click(s.last()) {
        without_clicks(s.drop_last())
    } else {
        without_clicks(s.drop_last()).push(s.last())
    }
}

/// Channel programs after applying the program changes among the first `n` events.
pub open spec fn programs_after(p: Seq<Option<u8>>, evs: Seq<TimedEvent>, n: int) -> Seq<Option<u8>>
    decreases n,
{
    if n <= 0 {
        p
    } else {
        let prev = programs_after(p, evs, n - 1);
        match evs[n - 1].kind {
            TimedKind::ProgramChange { channel, program } => prev.update(channel as int, Some(program)),
            _ => prev,
        }
    }
}

pub open spec fn wrapping_next(s: u64) -> u64 {
    if s == u64::MAX {
        0
    } else {
        (s + 1) as u64
    }
}

/// Abstract state of the scheduler.
pub struct SchedulerView {
    pub pending: Seq<TimedEvent>,
    pub event_seq: u64,
    pub sample_pos: u64,
    pub armed: bool,
    pub programs: Seq<Option<u8>>,
    pub drum_channels: Seq<bool>,
    pub mute_drums: bool,
    pub play_player_drums: bool,
}

/// Timed synthesizer events and the channel state that decides what is sent.
pub struct AudioScheduler {
    pending: Vec<TimedEvent>,
    event_seq: u64,
    sample_pos: u64,
    armed: bool,
    /// Last program sent, per channel number.
    program_by_channel: Vec<Option<u8>>,
    /// Channels that carried drum notes of the song.
    drum_channels: Vec<bool>,
    mute_drums: bool,
    play_player_drums: bool,
}

impl View for AudioScheduler {
    type V = SchedulerView;

    closed spec fn view(&self) -> SchedulerView {
        SchedulerView {
            pending: self.pending@,
            event_seq: self.event_seq,
            sample_pos: self.sample_pos,
            armed: self.armed,
            programs: self.program_by_channel@,
            drum_channels: self.drum_channels@,
            mute_drums: self.mute_drums,
            play_player_drums: self.play_player_drums,
        }
    }
}

pub open spec fn scheduler_wf(v: SchedulerView) -> bool {
    &&& queue_sorted(v.pending)
    &&& v.programs.len() == 256
    &&& v.drum_channels.len() == 256
}

/// State after a new event for `at` joins the queue with the next sequence number.
pub open spec fn pushed(v: SchedulerView, at: u64, kind: TimedKind) -> SchedulerView {
    let e = TimedEvent { at_sample: at, seq: wrapping_next(v.event_seq), kind };
    SchedulerView {
        pending: v.pending.insert(insert_index(v.pending, e, 0), e),
        event_seq: wrapping_next(v.event_seq),
        ..v
    }
}

/// The player-hit channel set up again: drum bank, program 0, full volume.
pub open spec fn player_channel_ready(v: SchedulerView) -> SchedulerView {
    SchedulerView { programs: v.programs.update(PLAYER_DRUM_CHANNEL as int, Some(0u8)), ..v }
}

pub open spec fn no_programs() -> Seq<Option<u8>> {
    Seq::new(256, |i: int| None::<u8>)
}

pub open spec fn initial_scheduler() -> SchedulerView {
    player_channel_ready(
        SchedulerView {
            pending: Seq::empty(),
            event_seq: 0,
            sample_pos: 0,
            armed: false,
            programs: no_programs(),
            drum_channels: Seq::new(256, |i: int| false),
            mute_drums: false,
            play_player_drums: true,
        },
    )
}

/// Channels that Mute Drums acts on: the GM drum channel and every channel that carried
/// song drum notes, never the player-hit channel.
pub open spec fn mute_target(v: SchedulerView, ch: int) -> bool {
    &&& 0 <= ch < 256
    &&& ch != PLAYER_DRUM_CHANNEL
    &&& (ch == GM_DRUM_CHANNEL || v.drum_channels[ch])
}

/// What the caller sends after Mute Drums changes: Main Volume `volume` on each channel,
/// and all-notes-off there when muting.
#[derive(Debug, Clone)]
pub struct MutePlan {
    pub channels: Vec<u8>,
    pub volume: u8,
    pub notes_off: bool,
}

/// The three timed events a song note becomes: the program change when the channel's
/// program differs, then note on and note off.
pub open spec fn note_events_pushed(
    v: SchedulerView,
    note: ScheduleNote,
    start: u64,
    program_at: u64,
    end: u64,
) -> SchedulerView {
    let v1 = if v.programs[note.channel as int] != Some(note.program) {
        pushed(v, program_at, TimedKind::ProgramChange { channel: note.channel, program: note.program })
    } else {
        v
    };
    let v2 = pushed(v1, start, TimedKind::NoteOn { channel: note.channel, note: note.note, velocity: note.velocity });
    pushed(v2, end, TimedKind::NoteOff { channel: note.channel, note: note.note })
}

pub open spec fn max_u64(a: u64, b: u64) -> u64 {
    if a >= b {
        a
    } else {
        b
    }
}

pub open spec fn sat_sub(a: u64, b: u64) -> u64 {
    if a >= b {
        (a - b) as u64
    } else {
        0
    }
}

/// An event more than `tolerance` samples in the past is dropped.
pub open spec fn too_late(start: u64, tolerance: u64, pos: u64) -> bool {
    start + tolerance < pos
}

proof fn lemma_insert_sorted(s: Seq<TimedEvent>, e: TimedEvent)
    requires
        queue_sorted(s),
    ensures
        queue_sorted(s.insert(insert_index(s, e, 0), e)),
        0 <= insert_index(s, e, 0) <= s.len(),
{
    lemma_insert_index(s, e, 0);
    let k = insert_index(s, e, 0);
    let t = s.insert(k, e);
    assert forall|i: int, j: int| 0 <= i <= j < t.len() implies event_before(t[i], t[j]) by {
        if i < k && j < k {
            assert(t[i] == s[i] && t[j] == s[j]);
        } else if i < k && j == k {
            assert(t[i] == s[i]);
        } else if i < k {
            assert(t[i] == s[i] && t[j] == s[j - 1]);
        } else if i == k && j == k {
        } else if i == k {
            assert(t[j] == s[j - 1]);
            assert(event_before(s[k], s[j - 1]));
        } else {
            assert(t[i] == s[i - 1] && t[j] == s[j - 1]);
        }
    }
}

proof fn lemma_insert_index(s: Seq<TimedEvent>, e: TimedEvent, i: int)
    requires
        queue_sorted(s),
        0 <= i <= s.len(),
        forall|j: int| 0 <= j < i ==> event_before(#[trigger] s[j], e),
    ensures
        i <= insert_index(s, e, i) <= s.len(),
        forall|j: int| 0 <= j < insert_index(s, e, i) ==> event_before(#[trigger] s[j], e),
        insert_index(s, e, i) < s.len() ==> !event_before(s[insert_index(s, e, i)], e),
    decreases s.len() - i,
{
    if i < s.len() && event_before(s[i], e) {
        lemma_insert_index(s, e, i + 1);
    }
}

proof fn lemma_due_count(s: Seq<TimedEvent>, limit: u64, i: int)
    requires
        queue_sorted(s),
        0 <= i <= s.len(),
        forall|j: int| 0 <= j < i ==> (#[trigger] s[j]).at_sample <= limit,
    ensures
        i <= due_count(s, limit, i) <= s.len(),
        forall|j: int| 0 <= j < s.len() ==> ((#[trigger] s[j]).at_sample <= limit <==> j < due_count(s, limit, i)),
    decreases s.len() - i,
{
    if i < s.len() && s[i].at_sample <= limit {
        lemma_due_count(s, limit, i + 1);
    } else if i < s.len() {
        assert forall|j: int| 0 <= j < s.len() implies ((#[trigger] s[j]).at_sample <= limit <==> j < i) by {
            if j >= i {
                assert(event_before(s[i], s[j]));
            }
        }
    }
}

proof fn lemma_without_clicks_sorted(s: Seq<TimedEvent>)
    requires
        queue_sorted(s),
    ensures
        queue_sorted(without_clicks(s)),
        forall|i: int| 0 <= i < without_clicks(s).len() ==> !is_click(#[trigger] without_clicks(s)[i]),
        forall|x: TimedEvent| without_clicks(s).contains(x) ==> s.contains(x),
    decreases s.len(),
{
    if s.len() > 0 {
        let d = s.drop_last();
        assert(queue_sorted(d)) by {
            assert forall|i: int, j: int| 0 <= i <= j < d.len() implies event_before(d[i], d[j]) by {
                assert(d[i] == s[i] && d[j] == s[j]);
            }
        }
        lemma_without_clicks_sorted(d);
        let w = without_clicks(d);
        assert forall|x: TimedEvent| w.contains(x) implies s.contains(x) by {
            assert(d.contains(x));
            let k = choose|k: int| 0 <= k < d.len() && d[k] == x;
            assert(s[k] == x);
        }
        if !is_click(s.last()) {
            let t = w.push(s.last());
            assert forall|i: int, j: int| 0 <= i <= j < t.len() implies event_before(t[i], t[j]) by {
                if j == t.len() - 1 && i < j {
                    assert(t[i] == w[i]);
                    assert(w.contains(t[i]));
                    assert(d.contains(t[i]));
                    let k = choose|k: int| 0 <= k < d.len() && d[k] == t[i];
                    assert(event_before(s[k], s[s.len() - 1]));
                }
            }
            assert forall|x: TimedEvent| t.contains(x) implies s.contains(x) by {
                if x != s.last() {
                    let k = choose|k: int| 0 <= k < t.len() && t[k] == x;
                    assert(w[k] == x);
                    assert(w.contains(x));
                } else {
                    assert(s[s.len() - 1] == x);
                }
            }
        }
    }
}

proof fn lemma_programs_len(p: Seq<Option<u8>>, evs: Seq<TimedEvent>, n: int)
    requires
        p.len() == 256,
    ensures
        programs_after(p, evs, n).len() == p.len(),
    decreases n,
{
    if n > 0 {
        lemma_programs_len(p, evs, n - 1);
    }
}

impl AudioScheduler {
    /// Consistency: the queue is in order and the channel tables cover every channel number.
    pub closed spec fn wf(&self) -> bool {
        scheduler_wf(self@)
    }

    /// An idle scheduler at sample 0 with the player-hit channel set up.
    pub fn new() -> (r: AudioScheduler)
        ensures
            r.wf(),
            r@ == initial_scheduler(),
    {
        let mut programs: Vec<Option<u8>> = Vec::new();
        let mut drums: Vec<bool> = Vec::new();
        let mut c: usize = 0;
        while c < 256
            invariant
                0 <= c <= 256,
                programs@ == Seq::new(c as nat, |i: int| None::<u8>),
                drums@ == Seq::new(c as nat, |i: int| false),
            decreases 256 - c,
        {
            programs.push(None);
            drums.push(false);
            assert(programs@ =~= Seq::new((c + 1) as nat, |i: int| None::<u8>));
            assert(drums@ =~= Seq::new((c + 1) as nat, |i: int| false));
            c = c + 1;
        }
        let mut r = AudioScheduler {
            pending: Vec::new(),
            event_seq: 0,
            sample_pos: 0,
            armed: false,
            program_by_channel: programs,
            drum_channels: drums,
            mute_drums: false,
            play_player_drums: true,
        };
        r.ensure_player_drum_channel();
        assert(r@.programs =~= initial_scheduler().programs);
        r
    }

    pub fn sample_pos(&self) -> (r: u64)
        ensures
            r == self@.sample_pos,
    {
        self.sample_pos
    }

    pub fn is_armed(&self) -> (r: bool)
        ensures
            r == self@.armed,
    {
        self.armed
    }

    pub fn plays_player_drums(&self) -> (r: bool)
        ensures
            r == self@.play_player_drums,
    {
        self.play_player_drums
    }

    /// Sample position of the earliest pending event.
    pub fn next_event_at(&self) -> (r: Option<u64>)
        requires
            self.wf(),
        ensures
            r == (if self@.pending.len() > 0 {
                Some(self@.pending[0].at_sample)
            } else {
                None::<u64>
            }),
    {
        if self.pending.len() > 0 {
            Some(self.pending[0].at_sample)
        } else {
            None
        }
    }

    /// Queue `kind` at sample `at` with the next sequence number.
    pub fn push_event(&mut self, at: u64, kind: TimedKind)
        requires
            old(self).wf(),
        ensures
            final(self).wf(),
            final(self)@ == pushed(old(self)@, at, kind),
    {
        self.event_seq = if self.event_seq == u64::MAX {
            0
        } else {
            self.event_seq + 1
        };
        let e = TimedEvent { at_sample: at, seq: self.event_seq, kind };
        proof {
            lemma_insert_index(self.pending@, e, 0);
            lemma_insert_sorted(self.pending@, e);
        }
        let mut k: usize = 0;
        while k < self.pending.len() && before_or_same(self.pending[k], e)
            invariant
                0 <= k <= self.pending@.len(),
                insert_index(self.pending@, e, k as int) == insert_index(self.pending@, e, 0),
            decreases self.pending@.len() - k,
        {
            k = k + 1;
        }
        self.pending.insert(k, e);
    }

    /// Remove and return the events due at or before sample `limit`, earliest first; the
    /// program changes among them update the channel programs.
    pub fn pop_due(&mut self, limit: u64) -> (r: Vec<TimedEvent>)
        requires
            old(self).wf(),
        ensures
            final(self).wf(),
            ({
                let s = old(self)@.pending;
                let k = due_count(s, limit, 0);
                &&& r@ == s.take(k)
                &&& final(self)@ == (SchedulerView {
                    pending: s.skip(k),
                    programs: programs_after(old(self)@.programs, r@, r@.len() as int),
                    ..old(self)@
                })
            }),
            forall|i: int| 0 <= i < r@.len() ==> (#[trigger] r@[i]).at_sample <= limit,
            forall|i: int| 0 <= i < final(self)@.pending.len() ==> (#[trigger] final(self)@.pending[i]).at_sample > limit,
    {
        let ghost s = self.pending@;
        proof {
            lemma_due_count(s, limit, 0);
        }
        let mut k: usize = 0;
        while k < self.pending.len() && self.pending[k].at_sample <= limit
            invariant
                s == self.pending@,
                0 <= k <= s.len(),
                due_count(s, limit, k as int) == due_count(s, limit, 0),
            decreases s.len() - k,
        {
            k = k + 1;
        }
        let mut due: Vec<TimedEvent> = Vec::new();
        let mut rest: Vec<TimedEvent> = Vec::new();
        let mut programs: Vec<Option<u8>> = Vec::new();
        core::mem::swap(&mut programs, &mut self.program_by_channel);
        let ghost p0 = programs@;
        proof {
            lemma_programs_len(p0, s, 0);
        }
        let mut i: usize = 0;
        while i < self.pending.len()
            invariant
                s == self.pending@,
                0 <= k <= s.len(),
                0 <= i <= s.len(),
                i <= k ==> due@ == s.take(i as int) && rest@.len() == 0,
                i > k ==> due@ == s.take(k as int) && rest@ == s.subrange(k as int, i as int),
                p0.len() == 256,
                programs@ == programs_after(p0, s, if i <= k { i as int } else { k as int }),
                programs@.len() == 256,
                forall|j: int| 0 <= j < s.len() ==> ((#[trigger] s[j]).at_sample <= limit <==> j < k),
                queue_sorted(s),
            decreases s.len() - i,
        {
            let e = self.pending[i];
            if i < k {
                due.push(e);
                match e.kind {
                    TimedKind::ProgramChange { channel, program } => {
                        programs.set(channel as usize, Some(program));
                    },
                    _ => {},
                }
                proof {
                    lemma_programs_len(p0, s, i + 1);
                }
                assert(due@ =~= s.take(i + 1));
            } else {
                rest.push(e);
                assert(rest@ =~= s.subrange(k as int, i + 1));
            }
            i = i + 1;
        }
        assert(due@ =~= s.take(k as int));
        assert(rest@ =~= s.skip(k as int));
        proof {
            lemma_programs_len(p0, s, k as int);
            lemma_programs_prefix(p0, s, due@, k as int);
            assert(due@.len() == k);
            assert forall|a: int, b: int| 0 <= a <= b < rest@.len() implies event_before(rest@[a], rest@[b]) by {
                assert(rest@[a] == s[k + a] && rest@[b] == s[k + b]);
            }
            assert forall|j: int| 0 <= j < rest@.len() implies (#[trigger] rest@[j]).at_sample > limit by {
                assert(rest@[j] == s[k + j]);
            }
        }
        self.pending = rest;
        self.program_by_channel = programs;
        due
    }

    /// The events due at `block_start` (removed, earliest first) and how many frames can be
    /// rendered before the next pending event, at least 1 and at most `max_chunk`.
    pub fn due_block(&mut self, block_start: u64, max_chunk: usize) -> (r: (Vec<TimedEvent>, usize))
        requires
            old(self).wf(),
            max_chunk >= 1,
        ensures
            final(self).wf(),
            ({
                let s = old(self)@.pending;
                let k = due_count(s, block_start, 0);
                &&& r.0@ == s.take(k)
                &&& final(self)@ == (SchedulerView {
                    pending: s.skip(k),
                    programs: programs_after(old(self)@.programs, r.0@, r.0@.len() as int),
                    ..old(self)@
                })
                &&& r.1 == (if final(self)@.pending.len() > 0 {
                    let gap = final(self)@.pending[0].at_sample - block_start;
                    if gap < 1 {
                        1
                    } else if gap > max_chunk {
                        max_chunk as int
                    } else {
                        gap
                    }
                } else {
                    max_chunk as int
                })
            }),
            1 <= r.1 <= max_chunk,
    {
        let due = self.pop_due(block_start);
        let chunk = match self.next_event_at() {
            Some(at) => {
                if at > block_start {
                    let gap = at - block_start;
                    if gap > max_chunk as u64 {
                        max_chunk
                    } else {
                        gap as usize
                    }
                } else {
                    1
                }
            },
            None => max_chunk,
        };
        (due, chunk)
    }

    /// Drop every pending event and forget the channel programs; the player-hit channel is
    /// set up again.
    pub fn cancel_all(&mut self)
        requires
            old(self).wf(),
        ensures
            final(self).wf(),
            final(self)@ == player_channel_ready(
                SchedulerView { pending: Seq::empty(), programs: no_programs(), ..old(self)@ },
            ),
    {
        self.pending = Vec::new();
        self.program_by_channel = no_program_table();
        self.ensure_player_drum_channel();
    }

    fn ensure_player_drum_channel(&mut self)
        requires
            old(self).program_by_channel@.len() == 256,
        ensures
            final(self)@ == player_channel_ready(old(self)@),
    {
        self.program_by_channel.set(PLAYER_DRUM_CHANNEL as usize, Some(0));
    }

    /// Set Mute Drums; returns the Main Volume messages to send.
    pub fn set_mute_drums(&mut self, muted: bool) -> (r: MutePlan)
        requires
            old(self).wf(),
        ensures
            final(self).wf(),
            final(self)@ == (SchedulerView { mute_drums: muted, ..old(self)@ }),
            r.volume == (if muted {
                0u8
            } else {
                127u8
            }),
            r.notes_off == muted,
            forall|i: int, j: int| 0 <= i < j < r.channels@.len() ==> r.channels@[i] < r.channels@[j],
            forall|ch: int| 0 <= ch < 256 ==> (mute_target(old(self)@, ch) <==> r.channels@.contains(ch as u8)),
    {
        self.mute_drums = muted;
        let mut channels: Vec<u8> = Vec::new();
        let mut c: usize = 0;
        while c < 256
            invariant
                0 <= c <= 256,
                self.drum_channels@.len() == 256,
                self.drum_channels@ == old(self)@.drum_channels,
                forall|i: int, j: int| 0 <= i < j < channels@.len() ==> channels@[i] < channels@[j],
                forall|i: int| 0 <= i < channels@.len() ==> channels@[i] < c,
                forall|ch: int| 0 <= ch < c ==> (mute_target(old(self)@, ch) <==> channels@.contains(ch as u8)),
            decreases 256 - c,
        {
            let ghost before = channels@;
            if c != PLAYER_DRUM_CHANNEL as usize && (c == GM_DRUM_CHANNEL as usize || self.drum_channels[c]) {
                channels.push(c as u8);
            }
            proof {
                assert forall|ch: int| 0 <= ch < c + 1 implies (mute_target(old(self)@, ch) <==> channels@.contains(ch as u8)) by {
                    assert((ch as u8) as int == ch);
                    if ch < c {
                        if channels@.contains(ch as u8) && !before.contains(ch as u8) {
                            let k = choose|k: int| 0 <= k < channels@.len() && channels@[k] == ch as u8;
                            assert(k == before.len());
                        }
                        if before.contains(ch as u8) {
                            let k = choose|k: int| 0 <= k < before.len() && before[k] == ch as u8;
                            assert(channels@[k] == ch as u8);
                        }
                    } else {
                        if channels@.contains(ch as u8) && !mute_target(old(self)@, ch) {
                            let k = choose|k: int| 0 <= k < channels@.len() && channels@[k] == ch as u8;
                            assert(before[k] < c);
                        }
                        if mute_target(old(self)@, ch) {
                            assert(channels@[before.len() as int] == ch as u8);
                        }
                    }
                }
            }
            c = c + 1;
        }
        MutePlan {
            channels,
            volume: if muted {
                0
            } else {
                127
            },
            notes_off: muted,
        }
    }

    /// Turn the player-hit feedback on or off; turning it on sets the channel up again.
    pub fn set_play_player_drums(&mut self, enabled: bool)
        requires
            old(self).wf(),
        ensures
            final(self).wf(),
            final(self)@ == (if enabled {
                player_channel_ready(SchedulerView { play_player_drums: true, ..old(self)@ })
            } else {
                SchedulerView { play_player_drums: false, ..old(self)@ }
            }),
    {
        self.play_player_drums = enabled;
        if enabled {
            self.ensure_player_drum_channel();
        }
    }

    /// Immediate feedback for a mapped pad: its GM key on the player channel now, with the
    /// velocity clamped to 1..=127, ended `length` samples later. `None` when the feedback is
    /// off; otherwise the key.
    pub fn play_player_drum_hit(&mut self, pad: PadId, velocity: u8, length: u64) -> (r: Option<u8>)
        requires
            old(self).wf(),
            old(self)@.sample_pos + length <= u64::MAX,
        ensures
            final(self).wf(),
            !old(self)@.play_player_drums ==> r is None && final(self)@ == old(self)@,
            old(self)@.play_player_drums ==> ({
                let note = spec_pad_to_gm_note(pad);
                let vel = if velocity < 1 {
                    1u8
                } else if velocity > 127 {
                    127u8
                } else {
                    velocity
                };
                let at = old(self)@.sample_pos;
                let v1 = pushed(
                    player_channel_ready(old(self)@),
                    at,
                    TimedKind::NoteOn { channel: PLAYER_DRUM_CHANNEL, note, velocity: vel },
                );
                &&& r == Some(note)
                &&& final(self)@ == pushed(
                    v1,
                    (at + length) as u64,
                    TimedKind::NoteOff { channel: PLAYER_DRUM_CHANNEL, note },
                )
            }),
    {
        if !self.play_player_drums {
            return None;
        }
        let note = pad_to_gm_note(pad);
        let vel = if velocity < 1 {
            1
        } else if velocity > 127 {
            127
        } else {
            velocity
        };
        self.ensure_player_drum_channel();
        let at = self.sample_pos;
        self.push_event(at, TimedKind::NoteOn { channel: PLAYER_DRUM_CHANNEL, note, velocity: vel });
        self.push_event(at + length, TimedKind::NoteOff { channel: PLAYER_DRUM_CHANNEL, note });
        Some(note)
    }

    /// Start the song clock: scheduled notes and clicks are accepted from now on.
    pub fn arm(&mut self)
        ensures
            final(self)@ == (SchedulerView { armed: true, ..old(self)@ }),
    {
        self.armed = true;
    }

    /// Schedule a metronome click whose session time falls on sample `start`; dropped when
    /// not armed or more than `tolerance` samples late, moved up to now when slightly late.
    pub fn schedule_click(&mut self, start: u64, tolerance: u64, index: u32)
        requires
            old(self).wf(),
        ensures
            final(self).wf(),
            final(self)@ == (if !old(self)@.armed || too_late(start, tolerance, old(self)@.sample_pos) {
                old(self)@
            } else {
                pushed(old(self)@, max_u64(start, old(self)@.sample_pos), TimedKind::Click { index })
            }),
    {
        if !self.armed {
            return;
        }
        if (start as u128) + (tolerance as u128) < self.sample_pos as u128 {
            return;
        }
        let at = if start >= self.sample_pos {
            start
        } else {
            self.sample_pos
        };
        self.push_event(at, TimedKind::Click { index });
    }

    /// Schedule a song note whose session time falls on sample `start`, lasting `length`
    /// samples; a program change goes `program_lead` samples ahead when the channel's program
    /// differs. Drum notes mark their channel as a drum channel and are skipped while drums
    /// are muted. Returns whether the note was queued.
    pub fn schedule_note(
        &mut self,
        note: &ScheduleNote,
        start: u64,
        tolerance: u64,
        program_lead: u64,
        length: u64,
    ) -> (r: bool)
        requires
            old(self).wf(),
            max_u64(start, old(self)@.sample_pos) + length <= u64::MAX,
        ensures
            final(self).wf(),
            ({
                let v = old(self)@;
                let v1 = if v.armed && note.role == NoteRole::Drum {
                    SchedulerView { drum_channels: v.drum_channels.update(note.channel as int, true), ..v }
                } else {
                    v
                };
                if !v.armed || (note.role == NoteRole::Drum && v.mute_drums) || too_late(start, tolerance, v.sample_pos) {
                    !r && final(self)@ == v1
                } else {
                    let s = max_u64(start, v.sample_pos);
                    let prog_at = max_u64(sat_sub(s, program_lead), v.sample_pos);
                    r && final(self)@ == note_events_pushed(v1, *note, s, prog_at, (s + length) as u64)
                }
            }),
    {
        if !self.armed {
            return false;
        }
        if note.role == NoteRole::Drum {
            self.drum_channels.set(note.channel as usize, true);
            if self.mute_drums {
                return false;
            }
        }
        if (start as u128) + (tolerance as u128) < self.sample_pos as u128 {
            return false;
        }
        let pos = self.sample_pos;
        let s = if start >= pos {
            start
        } else {
            pos
        };
        if self.program_by_channel[note.channel as usize] != Some(note.program) {
            let lead_at = if s >= program_lead {
                s - program_lead
            } else {
                0
            };
            let at = if lead_at >= pos {
                lead_at
            } else {
                pos
            };
            self.push_event(at, TimedKind::ProgramChange { channel: note.channel, program: note.program });
        }
        self.push_event(s, TimedKind::NoteOn { channel: note.channel, note: note.note, velocity: note.velocity });
        self.push_event(s + length, TimedKind::NoteOff { channel: note.channel, note: note.note });
        true
    }

    /// An immediate click (beat number 0).
    pub fn play_click(&mut self)
        requires
            old(self).wf(),
        ensures
            final(self).wf(),
            final(self)@ == pushed(old(self)@, old(self)@.sample_pos, TimedKind::Click { index: 0 }),
    {
        let at = self.sample_pos;
        self.push_event(at, TimedKind::Click { index: 0 });
    }

    /// Drop the pending clicks, keeping every other event in order.
    pub fn clear_scheduled_clicks(&mut self)
        requires
            old(self).wf(),
        ensures
            final(self).wf(),
            final(self)@ == (SchedulerView { pending: without_clicks(old(self)@.pending), ..old(self)@ }),
    {
        let ghost s = self.pending@;
        let mut kept: Vec<TimedEvent> = Vec::new();
        let mut i: usize = 0;
        while i < self.pending.len()
            invariant
                s == self.pending@,
                0 <= i <= s.len(),
                kept@ == without_clicks(s.take(i as int)),
            decreases s.len() - i,
        {
            let e = self.pending[i];
            assert(s.take(i + 1).drop_last() =~= s.take(i as int));
            match e.kind {
                TimedKind::Click { .. } => {},
                _ => {
                    kept.push(e);
                },
            }
            i = i + 1;
        }
        assert(s.take(s.len() as int) =~= s);
        proof {
            lemma_without_clicks_sorted(s);
        }
        self.pending = kept;
    }

    /// Replace pending clicks with a train of `count` clicks, `interval` samples apart,
    /// starting `lead_in` samples from now; clicks are numbered from 0.
    pub fn start_click_train(&mut self, count: u32, interval: u64, lead_in: u64)
        requires
            old(self).wf(),
            old(self)@.sample_pos + lead_in + count * interval <= u64::MAX,
        ensures
            final(self).wf(),
            final(self)@ == click_train(
                SchedulerView { pending: without_clicks(old(self)@.pending), ..old(self)@ },
                (old(self)@.sample_pos + lead_in) as u64,
                interval,
                count as int,
            ),
    {
        self.clear_scheduled_clicks();
        let base = self.sample_pos + lead_in;
        let ghost v0 = self@;
        let mut i: u32 = 0;
        while i < count
            invariant
                self.wf(),
                0 <= i <= count,
                base + count * interval <= u64::MAX,
                self@ == click_train(v0, base, interval, i as int),
            decreases count - i,
        {
            proof {
                assert(i * interval <= count * interval) by (nonlinear_arith)
                    requires i <= count;
            }
            self.push_event(base + (i as u64) * interval, TimedKind::Click { index: i });
            i = i + 1;
        }
    }

    /// Advance the sample clock by a rendered block.
    pub fn advance(&mut self, frames: u64)
        requires
            old(self)@.sample_pos + frames <= u64::MAX,
        ensures
            final(self)@ == (SchedulerView { sample_pos: (old(self)@.sample_pos + frames) as u64, ..old(self)@ }),
    {
        self.sample_pos = self.sample_pos + frames;
    }

    /// A new output stream starts at sample 0 with an empty queue; the player-hit channel is
    /// set up again.
    pub fn restart_stream(&mut self)
        requires
            old(self).wf(),
        ensures
            final(self).wf(),
            final(self)@ == player_channel_ready(
                SchedulerView { sample_pos: 0, pending: Seq::empty(), ..old(self)@ },
            ),
    {
        self.sample_pos = 0;
        self.pending = Vec::new();
        self.ensure_player_drum_channel();
    }
}

/// `count` clicks pushed at `base + i * interval`, numbered `i`.
pub open spec fn click_train(v: SchedulerView, base: u64, interval: u64, count: int) -> SchedulerView
    decreases count,
{
    if count <= 0 {
        v
    } else {
        pushed(
            click_train(v, base, interval, count - 1),
            (base + (count - 1) * interval) as u64,
            TimedKind::Click { index: (count - 1) as u32 },
        )
    }
}

proof fn lemma_programs_prefix(p: Seq<Option<u8>>, a: Seq<TimedEvent>, b: Seq<TimedEvent>, n: int)
    requires
        0 <= n <= a.len(),
        n <= b.len(),
        forall|i: int| 0 <= i < n ==> a[i] == b[i],
    ensures
        programs_after(p, a, n) == programs_after(p, b, n),
    decreases n,
{
    if n > 0 {
        lemma_programs_prefix(p, a, b, n - 1);
    }
}

fn no_program_table() -> (r: Vec<Option<u8>>)
    ensures
        r@ == no_programs(),
{
    let mut programs: Vec<Option<u8>> = Vec::new();
    let mut c: usize = 0;
    while c < 256
        invariant
            0 <= c <= 256,
            programs@ == Seq::new(c as nat, |i: int| None::<u8>),
        decreases 256 - c,
    {
        programs.push(None);
        assert(programs@ =~= Seq::new((c + 1) as nat, |i: int| None::<u8>));
        c = c + 1;
    }
    programs
}

fn before_or_same(a: TimedEvent, b: TimedEvent) -> (r: bool)
    ensures
        r == event_before(a, b),
{
    a.at_sample < b.at_sample || (a.at_sample == b.at_sample && a.seq <= b.seq)
}


// ----- output devices -----

/// An output device as offered to the UI: its identifier, name and host.
#[derive(Debug, Clone)]
pub struct AudioDeviceInfo {
    pub id: String,
    pub name: String,
    pub host: String,
}

impl AudioDeviceInfo {
    /// The entry for device `name` of `host`, identified by `host::name`.
    pub fn new(host: String, name: String) -> (r: AudioDeviceInfo)
        ensures
            r.id@ == spec_device_id(host@, name@),
            r.name == name,
            r.host == host,
    {
        let id = device_id(host.as_str(), name.as_str());
        AudioDeviceInfo { id, name, host }
    }
}

/// Buffer sizes a device supports.
#[derive(Debug, Clone, Copy, PartialEq, Eq, Structural)]
pub enum SupportedBufferSize {
    Range { min: u32, max: u32 },
    Unknown,
}

/// Buffer size requested for a stream.
#[derive(Debug, Clone, Copy, PartialEq, Eq, Structural)]
pub enum BufferSize {
    Default,
    Fixed(u32),
}

/// A fixed buffer of `target` frames, clamped into the supported range when one is known.
pub fn pick_buffer_size(supported: SupportedBufferSize, target: u32) -> (r: BufferSize)
    requires
        supported matches SupportedBufferSize::Range { min, max } ==> min <= max,
    ensures
        r == match supported {
            SupportedBufferSize::Range { min, max } => BufferSize::Fixed(
                if target < min {
                    min
                } else if target > max {
                    max
                } else {
                    target
                },
            ),
            SupportedBufferSize::Unknown => BufferSize::Fixed(target),
        },
{
    match supported {
        SupportedBufferSize::Range { min, max } => BufferSize::Fixed(
            if target < min {
                min
            } else if target > max {
                max
            } else {
                target
            },
        ),
        SupportedBufferSize::Unknown => BufferSize::Fixed(target),
    }
}

/// Listing order of audio hosts: the platform default host first, then the low-latency
/// hosts, then the rest.
pub open spec fn spec_host_sort_key(host: Seq<char>) -> u8 {
    if host == "wasapi"@ || host == "coreaudio"@ || host == "alsa"@ {
        0
    } else if host == "asio"@ || host == "jack"@ {
        1
    } else {
        2
    }
}

pub fn host_sort_key(host: &str) -> (r: u8)
    ensures
        r == spec_host_sort_key(host@),
{
    if text_eq(host, "wasapi") || text_eq(host, "coreaudio") || text_eq(host, "alsa") {
        0
    } else if text_eq(host, "asio") || text_eq(host, "jack") {
        1
    } else {
        2
    }
}

/// Whether two strings hold the same characters.
pub fn text_eq(a: &str, b: &str) -> (r: bool)
    ensures
        r == (a@ == b@),
{
    let x = str_chars(a);
    let y = str_chars(b);
    if x.len() != y.len() {
        return false;
    }
    let mut i: usize = 0;
    while i < x.len()
        invariant
            x@ == a@,
            y@ == b@,
            x@.len() == y@.len(),
            0 <= i <= x@.len(),
            forall|k: int| 0 <= k < i ==> x@[k] == y@[k],
        decreases x@.len() - i,
    {
        if x[i] != y[i] {
            return false;
        }
        i = i + 1;
    }
    assert(x@ =~= y@);
    true
}

/// Identifier of an output device: host name, `::`, device name.
pub open spec fn spec_device_id(host: Seq<char>, name: Seq<char>) -> Seq<char> {
    host + "::"@ + name
}

pub fn device_id(host: &str, name: &str) -> (r: String)
    ensures
        r@ == spec_device_id(host@, name@),
{
    concat3(host, "::", name)
}

/// Index of the first `::` in `s` from `i` on, or -1.
pub open spec fn find_separator(s: Seq<char>, i: int) -> int
    decreases s.len() - i,
{
    if i < 0 || i + 1 >= s.len() {
        -1
    } else if s[i] == ':' && s[i + 1] == ':' {
        i
    } else {
        find_separator(s, i + 1)
    }
}

/// Split a device identifier at its first `::` into host and device name.
pub fn split_device_id(id: &str) -> (r: Result<(String, String), String>)
    ensures
        match r {
            Ok((host, name)) => {
                let k = find_separator(id@, 0);
                &&& k >= 0
                &&& host@ == id@.take(k)
                &&& name@ == id@.skip(k + 2)
            },
            Err(e) => find_separator(id@, 0) < 0 && e@ == "invalid audio device id: "@ + id@,
        },
{
    let c = str_chars(id);
    let mut i: usize = 0;
    while i < c.len() && c.len() - i > 1
        invariant
            c@ == id@,
            0 <= i <= c@.len(),
            find_separator(id@, i as int) == find_separator(id@, 0),
        decreases c@.len() - i,
    {
        if c[i] == ':' && c[i + 1] == ':' {
            let mut host: Vec<char> = Vec::new();
            let mut name: Vec<char> = Vec::new();
            let mut j: usize = 0;
            while j < c.len()
                invariant
                    c@ == id@,
                    i + 1 < c@.len(),
                    0 <= j <= c@.len(),
                    host@ == c@.take(if j < i { j as int } else { i as int }),
                    name@ == (if j <= i + 2 { Seq::<char>::empty() } else { c@.subrange(i + 2, j as int) }),
                decreases c@.len() - j,
            {
                if j < i {
                    host.push(c[j]);
                    assert(host@ =~= c@.take(j + 1));
                } else if j >= i + 2 {
                    name.push(c[j]);
                    assert(name@ =~= c@.subrange(i + 2, j + 1));
                }
                j = j + 1;
            }
            assert(name@ =~= c@.skip(i + 2));
            return Ok((string_from_chars(host), string_from_chars(name)));
        }
        i = i + 1;
    }
    Err(concat2("invalid audio device id: ", id))
}

/// A host name in which every `:` is followed by another character that is not `:`.
pub open spec fn separator_free(host: Seq<char>) -> bool {
    forall|i: int| 0 <= i < host.len() && #[trigger] host[i] == ':' ==> i + 1 < host.len() && host[i + 1] != ':'
}

/// A device identifier splits back into the host and device name it was made of, for
/// every host name whose `:` characters are each followed by a character other than `:`.
pub proof fn lemma_device_id_round_trip(host: Seq<char>, name: Seq<char>)
    requires
        separator_free(host),
    ensures
        find_separator(spec_device_id(host, name), 0) == host.len(),
        spec_device_id(host, name).take(host.len() as int) == host,
        spec_device_id(host, name).skip(host.len() as int + 2) == name,
{
    let id = spec_device_id(host, name);
    reveal_strlit("::");
    assert(id[host.len() as int] == ':' && id[host.len() as int + 1] == ':');
    lemma_no_separator_before(host, name, 0);
    assert(id.take(host.len() as int) =~= host);
    assert(id.skip(host.len() as int + 2) =~= name);
}

proof fn lemma_no_separator_before(host: Seq<char>, name: Seq<char>, i: int)
    requires
        separator_free(host),
        0 <= i <= host.len(),
    ensures
        find_separator(spec_device_id(host, name), i) == host.len(),
    decreases host.len() - i,
{
    let id = spec_device_id(host, name);
    reveal_strlit("::");
    assert(id.len() == host.len() + 2 + name.len());
    assert(id[host.len() as int] == ':' && id[host.len() as int + 1] == ':');
    if i < host.len() {
        assert(id[i] == host[i]);
        if host[i] == ':' {
            assert(id[i + 1] == host[i + 1]);
        }
        lemma_no_separator_before(host, name, i + 1);
    }
}


// ----- device listing order -----

/// Whether text `a` comes strictly before text `b`, given that they agree before
/// position `i`: characters compare by code point, and a text comes before its
/// proper extensions.
pub open spec fn text_less_from(a: Seq<char>, b: Seq<char>, i: int) -> bool
    decreases a.len() - i,
{
    if i >= a.len() {
        i < b.len()
    } else if i >= b.len() {
        false
    } else if a[i] != b[i] {
        (a[i] as u32) < (b[i] as u32)
    } else {
        text_less_from(a, b, i + 1)
    }
}

/// Lexicographic order of texts by code point (the order of `str` comparison).
pub open spec fn text_less(a: Seq<char>, b: Seq<char>) -> bool {
    text_less_from(a, b, 0)
}

/// Whether device `a` is listed before device `b`: by host rank, then by the
/// lower-case device name.
pub open spec fn listed_before(a: AudioDeviceInfo, b: AudioDeviceInfo) -> bool {
    let ka = spec_host_sort_key(a.host@);
    let kb = spec_host_sort_key(b.host@);
    ka < kb || (ka == kb && text_less(lowercase_text(a.name@), lowercase_text(b.name@)))
}

/// Where `x` enters the listing `s`, searching from `i`: before the first entry
/// that it is listed before, else at the end.
pub open spec fn listing_slot(s: Seq<AudioDeviceInfo>, x: AudioDeviceInfo, i: int) -> int
    decreases s.len() - i,
{
    if i >= s.len() {
        s.len() as int
    } else if listed_before(x, s[i]) {
        i
    } else {
        listing_slot(s, x, i + 1)
    }
}

/// Devices in listing order: each device in turn enters after every device that it
/// is not listed before, so devices with equal keys keep the order in which they came.
pub open spec fn listing_order(s: Seq<AudioDeviceInfo>) -> Seq<AudioDeviceInfo>
    decreases s.len(),
{
    if s.len() == 0 {
        s
    } else {
        let r = listing_order(s.drop_last());
        r.insert(listing_slot(r, s.last(), 0), s.last())
    }
}

fn key_before(ka: u8, na: &Vec<char>, kb: u8, nb: &Vec<char>) -> (r: bool)
    ensures
        r == (ka < kb || (ka == kb && text_less(na@, nb@))),
{
    if ka != kb {
        return ka < kb;
    }
    let mut i: usize = 0;
    while i < na.len() && i < nb.len()
        invariant
            ka == kb,
            0 <= i <= na@.len(),
            i <= nb@.len(),
            text_less_from(na@, nb@, i as int) == text_less(na@, nb@),
        decreases na@.len() - i,
    {
        if na[i] != nb[i] {
            return (na[i] as u32) < (nb[i] as u32);
        }
        i = i + 1;
    }
    i < nb.len()
}

fn listing_key(d: &AudioDeviceInfo) -> (r: (u8, Vec<char>))
    ensures
        r.0 == spec_host_sort_key(d.host@),
        r.1@ == lowercase_text(d.name@),
{
    let lower = to_lowercase(d.name.as_str());
    (host_sort_key(d.host.as_str()), str_chars(lower.as_str()))
}

/// Output devices in listing order: by host rank, then by lower-case name, devices
/// with equal keys in the order given.
pub fn order_devices(devices: Vec<AudioDeviceInfo>) -> (r: Vec<AudioDeviceInfo>)
    ensures
        r@ == listing_order(devices@),
{
    let ghost input = devices@;
    let mut rest = devices;
    let mut out: Vec<AudioDeviceInfo> = Vec::new();
    let mut ranks: Vec<u8> = Vec::new();
    let mut names: Vec<Vec<char>> = Vec::new();
    assert(input.take(0) =~= Seq::<AudioDeviceInfo>::empty());
    while rest.len() > 0
        invariant
            rest@.len() <= input.len(),
            rest@ == input.skip(input.len() - rest@.len()),
            out@ == listing_order(input.take(input.len() - rest@.len())),
            ranks@.len() == out@.len(),
            names@.len() == out@.len(),
            forall|j: int| 0 <= j < out@.len() ==> #[trigger] ranks@[j] == spec_host_sort_key(out@[j].host@),
            forall|j: int| 0 <= j < out@.len() ==> #[trigger] names@[j]@ == lowercase_text(out@[j].name@),
        decreases rest@.len(),
    {
        let ghost k: int = input.len() - rest@.len();
        let ghost before_out = out@;
        let x = rest.remove(0);
        assert(x == input[k]);
        let (rx, nx) = listing_key(&x);
        let mut p: usize = 0;
        while p < out.len() && !key_before(rx, &nx, ranks[p], &names[p])
            invariant
                out@ == before_out,
                ranks@.len() == out@.len(),
                names@.len() == out@.len(),
                forall|j: int| 0 <= j < out@.len() ==> #[trigger] ranks@[j] == spec_host_sort_key(out@[j].host@),
                forall|j: int| 0 <= j < out@.len() ==> #[trigger] names@[j]@ == lowercase_text(out@[j].name@),
                rx == spec_host_sort_key(x.host@),
                nx@ == lowercase_text(x.name@),
                0 <= p <= out@.len(),
                listing_slot(out@, x, p as int) == listing_slot(out@, x, 0),
            decreases out@.len() - p,
        {
            p = p + 1;
        }
        let ghost old_ranks = ranks@;
        let ghost old_names = names@;
        out.insert(p, x);
        ranks.insert(p, rx);
        names.insert(p, nx);
        assert(input.take(k + 1).drop_last() =~= input.take(k));
        assert(rest@ =~= input.skip(k + 1));
        assert forall|j: int| 0 <= j < out@.len() implies #[trigger] ranks@[j] == spec_host_sort_key(
            out@[j].host@,
        ) && names@[j]@ == lowercase_text(out@[j].name@) by {
            if j < p {
                assert(ranks@[j] == old_ranks[j] && names@[j] == old_names[j]);
                assert(out@[j] == before_out[j]);
            } else if j > p {
                assert(ranks@[j] == old_ranks[j - 1] && names@[j] == old_names[j - 1]);
                assert(out@[j] == before_out[j - 1]);
            }
        }
    }
    assert(input.take(input.len() as int) =~= input);
    out
}

proof fn lemma_text_less_irreflexive(a: Seq<char>, i: int)
    requires
        0 <= i,
    ensures
        !text_less_from(a, a, i),
    decreases a.len() - i,
{
    if i < a.len() {
        lemma_text_less_irreflexive(a, i + 1);
    }
}

proof fn lemma_text_less_transitive(a: Seq<char>, b: Seq<char>, c: Seq<char>, i: int)
    requires
        0 <= i,
        text_less_from(a, b, i),
        text_less_from(b, c, i),
    ensures
        text_less_from(a, c, i),
    decreases a.len() - i,
{
    if i < a.len() && i < b.len() && i < c.len() && a[i] == b[i] && b[i] == c[i] {
        lemma_text_less_transitive(a, b, c, i + 1);
    }
}

proof fn lemma_listed_before_order(a: AudioDeviceInfo, b: AudioDeviceInfo, c: AudioDeviceInfo)
    ensures
        !listed_before(a, a),
        listed_before(a, b) && listed_before(b, c) ==> listed_before(a, c),
{
    lemma_text_less_irreflexive(lowercase_text(a.name@), 0);
    if listed_before(a, b) && listed_before(b, c) {
        let (na, nb, nc) = (lowercase_text(a.name@), lowercase_text(b.name@), lowercase_text(c.name@));
        if text_less(na, nb) && text_less(nb, nc) {
            lemma_text_less_transitive(na, nb, nc, 0);
        }
    }
}

proof fn lemma_listing_slot(s: Seq<AudioDeviceInfo>, x: AudioDeviceInfo, i: int)
    requires
        0 <= i <= s.len(),
    ensures
        i <= listing_slot(s, x, i) <= s.len(),
        forall|j: int| i <= j < listing_slot(s, x, i) ==> !listed_before(x, #[trigger] s[j]),
        listing_slot(s, x, i) < s.len() ==> listed_before(x, s[listing_slot(s, x, i)]),
    decreases s.len() - i,
{
    if i < s.len() && !listed_before(x, s[i]) {
        lemma_listing_slot(s, x, i + 1);
    }
}

/// The listing order holds the devices it was given, each as often, and lists no
/// device after one that it is listed before.
pub proof fn lemma_listing_order_sorted(s: Seq<AudioDeviceInfo>)
    ensures
        listing_order(s).to_multiset() == s.to_multiset(),
        listing_order(s).len() == s.len(),
        forall|i: int, j: int|
            0 <= i < j < s.len() ==> !listed_before(
                #[trigger] listing_order(s)[j],
                #[trigger] listing_order(s)[i],
            ),
    decreases s.len(),
{
    broadcast use vstd::seq_lib::group_to_multiset_ensures;

    if s.len() > 0 {
        let t = s.drop_last();
        let x = s.last();
        lemma_listing_order_sorted(t);
        let r = listing_order(t);
        let p = listing_slot(r, x, 0);
        lemma_listing_slot(r, x, 0);
        let q = r.insert(p, x);
        r.insert_ensures(p, x);
        assert(q =~= listing_order(s));
        assert(q.remove(p) =~= r);
        assert(q.to_multiset().count(x) > 0) by {
            assert(q[p] == x);
            assert(q.contains(x));
        }
        assert(q.to_multiset() =~= r.to_multiset().insert(x)) by {
            assert(q.remove(p).to_multiset() =~= q.to_multiset().remove(x));
        }
        assert(s =~= t.push(x));
        assert forall|i: int, j: int| 0 <= i < j < s.len() implies !listed_before(
            #[trigger] q[j],
            #[trigger] q[i],
        ) by {
            if i < p && j < p {
                assert(q[i] == r[i] && q[j] == r[j]);
            } else if i < p && j == p {
                assert(q[i] == r[i]);
            } else if i < p {
                assert(q[i] == r[i] && q[j] == r[j - 1]);
            } else if i == p {
                assert(q[j] == r[j - 1]);
                lemma_listed_before_order(q[j], x, r[p]);
                lemma_listed_before_order(r[p], r[p], r[p]);
                if j - 1 > p {
                    assert(!listed_before(r[j - 1], r[p]));
                }
            } else {
                assert(q[i] == r[i - 1] && q[j] == r[j - 1]);
            }
        }
    }
}

} // verus!
