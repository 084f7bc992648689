//! Playback schedule: every note of every track, with its start, length, channel and
//! program, for the synthesizer.

use vstd::prelude::*;

use crate::domain::{NoteRole, ScheduleNote};
use crate::smf::{event_in_range, file_in_range, file_tracks, midly_parse, ChannelMessage, MidiEvent, MidiFile, Timing};
use crate::song::{load_midi, max_end_tick, song_duration_ms, spec_song_duration, MidiError};
use crate::tempo::{
    build_tempo_map, spec_tempo_map, spec_tick_to_ms, spec_ticks_per_beat, tick_to_ms,
    ticks_per_beat, ticks_through, track_end_tick, TempoPoint,
};
use crate::tempo::{lemma_file_tracks_in_range, lemma_tempo_map_bounded, lemma_tick_to_ms_bound, MAX_TIMELINE_MS};

verus! {

broadcast use vstd::seq_lib::group_to_multiset_ensures;

/// Length given to a note still sounding when its track ends.
pub const DEFAULT_NOTE_DURATION_MS: u64 = 250;

/// A sounding note waiting for its note-off.
#[derive(Debug, Clone, Copy, PartialEq, Eq, Structural)]
pub struct ActiveNote {
    pub channel: u8,
    pub note: u8,
    pub start_tick: u32,
    pub velocity: u8,
    pub program: u8,
}

/// Index of the last open note on (`channel`, `note`) among the first `n`, or -1.
pub open spec fn last_open(active: Seq<ActiveNote>, channel: u8, note: u8, n: int) -> int
    decreases n,
{
    if n <= 0 {
        -1
    } else if active[n - 1].channel == channel && active[n - 1].note == note {
        n - 1
    } else {
        last_open(active, channel, note, n - 1)
    }
}

pub open spec fn sat_sub_u64(a: u64, b: u64) -> u64 {
    if a >= b {
        (a - b) as u64
    } else {
        0
    }
}

pub open spec fn at_least(x: u64, lo: u64) -> u64 {
    if x < lo {
        lo
    } else {
        x
    }
}

/// Schedule entry of an open note that ends at `end_tick`, at least `min_ms` long.
pub open spec fn finished_note(
    a: ActiveNote,
    uid: u64,
    track_id: u16,
    role: NoteRole,
    end_tick: u32,
    min_ms: u64,
    tpb: u32,
    m: Seq<TempoPoint>,
) -> ScheduleNote {
    let when = spec_tick_to_ms(a.start_tick, tpb, m);
    let end = spec_tick_to_ms(end_tick, tpb, m);
    ScheduleNote {
        uid,
        track_id,
        role,
        channel: a.channel,
        program: a.program,
        note: a.note,
        velocity: a.velocity,
        when_ms: when,
        duration_ms: at_least(sat_sub_u64(end, when), min_ms),
    }
}

/// Close the most recent open note on (`channel`, `note`), if any: it leaves the open
/// list and joins the schedule, numbered by its place there, at least 1 ms long.
pub open spec fn close_spec(
    active: Seq<ActiveNote>,
    notes: Seq<ScheduleNote>,
    track_id: u16,
    role: NoteRole,
    channel: u8,
    note: u8,
    end_tick: u32,
    tpb: u32,
    m: Seq<TempoPoint>,
) -> (Seq<ActiveNote>, Seq<ScheduleNote>) {
    let i = last_open(active, channel, note, active.len() as int);
    if i < 0 {
        (active, notes)
    } else {
        (
            active.remove(i),
            notes.push(finished_note(active[i], notes.len() as u64, track_id, role, end_tick, 1, tpb, m)),
        )
    }
}

/// Programs of the 16 channels at the start of a track.
pub open spec fn initial_programs() -> Seq<u8> {
    Seq::new(16, |i: int| 0u8)
}

/// Open notes, channel programs and schedule after the first `n` events of a track,
/// starting from the schedule `notes0`.
pub open spec fn play_events(
    track: Seq<MidiEvent>,
    n: int,
    track_id: u16,
    role: NoteRole,
    tpb: u32,
    m: Seq<TempoPoint>,
    notes0: Seq<ScheduleNote>,
) -> (Seq<ActiveNote>, Seq<u8>, Seq<ScheduleNote>)
    decreases n,
{
    if n <= 0 {
        (Seq::empty(), initial_programs(), notes0)
    } else {
        let (active, programs, notes) = play_events(track, n - 1, track_id, role, tpb, m, notes0);
        let t = ticks_through(track, n);
        match track[n - 1].channel {
            Some((ch, ChannelMessage::ProgramChange { program })) => (
                active,
                programs.update(ch as int, program),
                notes,
            ),
            Some((ch, ChannelMessage::NoteOn { key, vel })) => {
                let (a2, n2) = close_spec(active, notes, track_id, role, ch, key, t, tpb, m);
                if vel == 0 {
                    (a2, programs, n2)
                } else {
                    (
                        a2.push(
                            ActiveNote {
                                channel: ch,
                                note: key,
                                start_tick: t,
                                velocity: vel,
                                program: programs[ch as int],
                            },
                        ),
                        programs,
                        n2,
                    )
                }
            },
            Some((ch, ChannelMessage::NoteOff { key, vel })) => {
                let (a2, n2) = close_spec(active, notes, track_id, role, ch, key, t, tpb, m);
                (a2, programs, n2)
            },
            _ => (active, programs, notes),
        }
    }
}

/// The schedule after ending the first `k` notes still open at the end of a track, in the
/// order they were opened, each at least 250 ms long.
pub open spec fn flush_open(
    active: Seq<ActiveNote>,
    k: int,
    notes: Seq<ScheduleNote>,
    track_id: u16,
    role: NoteRole,
    end_tick: u32,
    tpb: u32,
    m: Seq<TempoPoint>,
) -> Seq<ScheduleNote>
    decreases k,
{
    if k <= 0 {
        notes
    } else {
        let prev = flush_open(active, k - 1, notes, track_id, role, end_tick, tpb, m);
        prev.push(
            finished_note(active[k - 1], prev.len() as u64, track_id, role, end_tick, DEFAULT_NOTE_DURATION_MS, tpb, m),
        )
    }
}

/// The schedule after one whole track, appended to `notes0`.
pub open spec fn track_schedule(
    track: Seq<MidiEvent>,
    track_id: u16,
    role: NoteRole,
    tpb: u32,
    m: Seq<TempoPoint>,
    notes0: Seq<ScheduleNote>,
) -> Seq<ScheduleNote> {
    let (active, programs, notes) = play_events(track, track.len() as int, track_id, role, tpb, m, notes0);
    flush_open(active, active.len() as int, notes, track_id, role, track_end_tick(track), tpb, m)
}

/// Role of a track given the drum track's id.
pub open spec fn role_of(track_id: u16, drum_track_id: u16) -> NoteRole {
    if track_id == drum_track_id {
        NoteRole::Drum
    } else {
        NoteRole::Backing
    }
}

/// The schedule of the first `k` tracks, track after track, in generation order.
pub open spec fn file_schedule(
    tracks: Seq<Seq<MidiEvent>>,
    k: int,
    drum_track_id: u16,
    tpb: u32,
    m: Seq<TempoPoint>,
) -> Seq<ScheduleNote>
    decreases k,
{
    if k <= 0 {
        Seq::empty()
    } else {
        track_schedule(
            tracks[k - 1],
            (k - 1) as u16,
            role_of((k - 1) as u16, drum_track_id),
            tpb,
            m,
            file_schedule(tracks, k - 1, drum_track_id, tpb, m),
        )
    }
}

/// Entry `i` of a schedule is numbered `i`, lasts at least 1 ms, and is a drum note
/// exactly when it comes from the drum track.
pub open spec fn schedule_entry_ok(s: Seq<ScheduleNote>, i: int, drum_track_id: u16) -> bool {
    &&& s[i].uid == i as u64
    &&& s[i].duration_ms >= 1
    &&& (s[i].role == NoteRole::Drum <==> s[i].track_id == drum_track_id)
}

pub open spec fn schedule_ok(s: Seq<ScheduleNote>, drum_track_id: u16) -> bool {
    forall|i: int| 0 <= i < s.len() ==> #[trigger] schedule_entry_ok(s, i, drum_track_id)
}

proof fn lemma_push_ok(s: Seq<ScheduleNote>, e: ScheduleNote, drum_track_id: u16)
    requires
        schedule_ok(s, drum_track_id),
        e.uid == s.len() as u64,
        e.duration_ms >= 1,
        e.role == role_of(e.track_id, drum_track_id),
    ensures
        schedule_ok(s.push(e), drum_track_id),
{
    assert forall|i: int| 0 <= i < s.push(e).len() implies #[trigger] schedule_entry_ok(s.push(e), i, drum_track_id) by {
        if i < s.len() {
            assert(schedule_entry_ok(s, i, drum_track_id));
        }
    }
}

proof fn lemma_close_ok(
    active: Seq<ActiveNote>,
    notes: Seq<ScheduleNote>,
    track_id: u16,
    drum_track_id: u16,
    channel: u8,
    note: u8,
    end_tick: u32,
    tpb: u32,
    m: Seq<TempoPoint>,
)
    requires
        schedule_ok(notes, drum_track_id),
    ensures
        schedule_ok(
            close_spec(active, notes, track_id, role_of(track_id, drum_track_id), channel, note, end_tick, tpb, m).1,
            drum_track_id,
        ),
{
    let role = role_of(track_id, drum_track_id);
    let i = last_open(active, channel, note, active.len() as int);
    if i >= 0 {
        lemma_push_ok(notes, finished_note(active[i], notes.len() as u64, track_id, role, end_tick, 1, tpb, m), drum_track_id);
    }
}

proof fn lemma_play_ok(
    track: Seq<MidiEvent>,
    n: int,
    track_id: u16,
    drum_track_id: u16,
    tpb: u32,
    m: Seq<TempoPoint>,
    notes0: Seq<ScheduleNote>,
)
    requires
        schedule_ok(notes0, drum_track_id),
    ensures
        schedule_ok(play_events(track, n, track_id, role_of(track_id, drum_track_id), tpb, m, notes0).2, drum_track_id),
    decreases n,
{
    if n > 0 {
        let role = role_of(track_id, drum_track_id);
        lemma_play_ok(track, n - 1, track_id, drum_track_id, tpb, m, notes0);
        let (active, programs, notes) = play_events(track, n - 1, track_id, role, tpb, m, notes0);
        let t = ticks_through(track, n);
        match track[n - 1].channel {
            Some((ch, ChannelMessage::NoteOn { key, vel })) => {
                lemma_close_ok(active, notes, track_id, drum_track_id, ch, key, t, tpb, m);
            },
            Some((ch, ChannelMessage::NoteOff { key, vel })) => {
                lemma_close_ok(active, notes, track_id, drum_track_id, ch, key, t, tpb, m);
            },
            _ => {},
        }
    }
}

proof fn lemma_flush_ok(
    active: Seq<ActiveNote>,
    k: int,
    notes: Seq<ScheduleNote>,
    track_id: u16,
    drum_track_id: u16,
    end_tick: u32,
    tpb: u32,
    m: Seq<TempoPoint>,
)
    requires
        schedule_ok(notes, drum_track_id),
    ensures
        schedule_ok(flush_open(active, k, notes, track_id, role_of(track_id, drum_track_id), end_tick, tpb, m), drum_track_id),
    decreases k,
{
    if k > 0 {
        let role = role_of(track_id, drum_track_id);
        lemma_flush_ok(active, k - 1, notes, track_id, drum_track_id, end_tick, tpb, m);
        let prev = flush_open(active, k - 1, notes, track_id, role, end_tick, tpb, m);
        lemma_push_ok(
            prev,
            finished_note(active[k - 1], prev.len() as u64, track_id, role, end_tick, DEFAULT_NOTE_DURATION_MS, tpb, m),
            drum_track_id,
        );
    }
}

/// In the playback schedule of a file, before sorting, the note at position `i` has uid
/// `i`, so uids are distinct; every note lasts at least 1 ms; and a note is marked as a
/// drum note exactly when it comes from the drum track.
pub proof fn lemma_playback_schedule(
    tracks: Seq<Seq<MidiEvent>>,
    k: int,
    drum_track_id: u16,
    tpb: u32,
    m: Seq<TempoPoint>,
)
    ensures
        forall|i: int|
            0 <= i < file_schedule(tracks, k, drum_track_id, tpb, m).len() ==> (#[trigger] file_schedule(
                tracks,
                k,
                drum_track_id,
                tpb,
                m,
            )[i]).uid == i as u64 && file_schedule(tracks, k, drum_track_id, tpb, m)[i].duration_ms >= 1
                && (file_schedule(tracks, k, drum_track_id, tpb, m)[i].role == NoteRole::Drum
                <==> file_schedule(tracks, k, drum_track_id, tpb, m)[i].track_id == drum_track_id),
        forall|i: int, j: int|
            0 <= i < j < file_schedule(tracks, k, drum_track_id, tpb, m).len() && j <= u64::MAX ==> (#[trigger] file_schedule(tracks, k, drum_track_id, tpb, m)[i]).uid
                != (#[trigger] file_schedule(tracks, k, drum_track_id, tpb, m)[j]).uid,
{
    let s = file_schedule(tracks, k, drum_track_id, tpb, m);
    assert(schedule_ok(s, drum_track_id)) by {
        lemma_schedule_ok(tracks, k, drum_track_id, tpb, m);
    }
    assert forall|i: int| 0 <= i < s.len() implies {
        &&& (#[trigger] s[i]).uid == i as u64
        &&& s[i].duration_ms >= 1
        &&& (s[i].role == NoteRole::Drum <==> s[i].track_id == drum_track_id)
    } by {
        assert(schedule_entry_ok(s, i, drum_track_id));
    }
    assert forall|i: int, j: int| 0 <= i < j < s.len() && j <= u64::MAX implies (#[trigger] s[i]).uid != (#[trigger] s[j]).uid by {
        assert(schedule_entry_ok(s, i, drum_track_id));
        assert(schedule_entry_ok(s, j, drum_track_id));
    }
}

proof fn lemma_schedule_ok(tracks: Seq<Seq<MidiEvent>>, k: int, drum_track_id: u16, tpb: u32, m: Seq<TempoPoint>)
    ensures
        schedule_ok(file_schedule(tracks, k, drum_track_id, tpb, m), drum_track_id),
    decreases k,
{
    if k > 0 {
        lemma_schedule_ok(tracks, k - 1, drum_track_id, tpb, m);
        let prev = file_schedule(tracks, k - 1, drum_track_id, tpb, m);
        let track = tracks[k - 1];
        let id = (k - 1) as u16;
        let role = role_of(id, drum_track_id);
        lemma_play_ok(track, track.len() as int, id, drum_track_id, tpb, m, prev);
        let (active, programs, notes) = play_events(track, track.len() as int, id, role, tpb, m, prev);
        lemma_flush_ok(active, active.len() as int, notes, id, drum_track_id, track_end_tick(track), tpb, m);
    } else {
        assert(schedule_ok(Seq::<ScheduleNote>::empty(), drum_track_id));
    }
}

/// Order of the playback timeline: by start time, then by uid.
pub open spec fn note_before(a: ScheduleNote, b: ScheduleNote) -> bool {
    a.when_ms < b.when_ms || (a.when_ms == b.when_ms && a.uid <= b.uid)
}

pub open spec fn notes_sorted(s: Seq<ScheduleNote>) -> bool {
    forall|i: int, j: int| 0 <= i <= j < s.len() ==> note_before(s[i], s[j])
}

/// `<[ScheduleNote]>::sort_by_key` on (start time, uid): ascending order, same elements.
#[verifier::external_body]
fn sort_schedule(v: &mut Vec<ScheduleNote>)
    ensures
        notes_sorted(final(v)@),
        final(v)@.to_multiset() == old(v)@.to_multiset(),
{
    v.sort_by_key(|n| (n.when_ms, n.uid));
}

proof fn lemma_last_open_range(active: Seq<ActiveNote>, channel: u8, note: u8, n: int)
    requires
        0 <= n <= active.len(),
    ensures
        -1 <= last_open(active, channel, note, n) < n,
        last_open(active, channel, note, n) >= 0 ==> ({
            let i = last_open(active, channel, note, n);
            active[i].channel == channel && active[i].note == note
        }),
    decreases n,
{
    if n > 0 {
        lemma_last_open_range(active, channel, note, n - 1);
    }
}

/// Position of the most recent open note on (`channel`, `note`).
fn find_last_open(active: &Vec<ActiveNote>, channel: u8, note: u8) -> (r: Option<usize>)
    ensures
        match r {
            Some(i) => i as int == last_open(active@, channel, note, active@.len() as int),
            None => last_open(active@, channel, note, active@.len() as int) < 0,
        },
{
    let mut j: usize = active.len();
    while j > 0
        invariant
            j <= active@.len(),
            last_open(active@, channel, note, active@.len() as int) == last_open(active@, channel, note, j as int),
        decreases j,
    {
        if active[j - 1].channel == channel && active[j - 1].note == note {
            return Some(j - 1);
        }
        j = j - 1;
    }
    None
}

fn finish_note(
    a: ActiveNote,
    uid: u64,
    track_id: u16,
    role: NoteRole,
    end_tick: u32,
    min_ms: u64,
    tpb: u32,
    tempo_map: &[TempoPoint],
) -> (r: ScheduleNote)
    ensures
        r == finished_note(a, uid, track_id, role, end_tick, min_ms, tpb, tempo_map@),
{
    let when_ms = tick_to_ms(a.start_tick, tpb, tempo_map);
    let end_ms = tick_to_ms(end_tick, tpb, tempo_map);
    let length = end_ms.saturating_sub(when_ms);
    ScheduleNote {
        uid,
        track_id,
        role,
        channel: a.channel,
        program: a.program,
        note: a.note,
        velocity: a.velocity,
        when_ms,
        duration_ms: if length < min_ms {
            min_ms
        } else {
            length
        },
    }
}

/// End the most recent open note on (`channel`, `note`) at `end_tick`, if there is one.
fn close_active_note(
    active: &mut Vec<ActiveNote>,
    notes: &mut Vec<ScheduleNote>,
    track_id: u16,
    role: NoteRole,
    channel: u8,
    note: u8,
    end_tick: u32,
    tpb: u32,
    tempo_map: &[TempoPoint],
)
    ensures
        (final(active)@, final(notes)@) == close_spec(
            old(active)@,
            old(notes)@,
            track_id,
            role,
            channel,
            note,
            end_tick,
            tpb,
            tempo_map@,
        ),
{
    proof {
        lemma_last_open_range(active@, channel, note, active@.len() as int);
    }
    match find_last_open(active, channel, note) {
        None => {},
        Some(i) => {
            let a = active.remove(i);
            let uid = notes.len() as u64;
            let entry = finish_note(a, uid, track_id, role, end_tick, 1, tpb, tempo_map);
            notes.push(entry);
        },
    }
}

/// Play one track: appends its schedule to `notes`.
fn schedule_track(
    track: &Vec<MidiEvent>,
    track_id: u16,
    role: NoteRole,
    tpb: u32,
    tempo_map: &[TempoPoint],
    notes: &mut Vec<ScheduleNote>,
)
    requires
        forall|i: int| 0 <= i < track@.len() ==> event_in_range(#[trigger] track@[i]),
    ensures
        final(notes)@ == track_schedule(track@, track_id, role, tpb, tempo_map@, old(notes)@),
{
    let ghost m = tempo_map@;
    let ghost notes0 = notes@;
    let mut active: Vec<ActiveNote> = Vec::new();
    let mut programs: Vec<u8> = Vec::new();
    let mut c: usize = 0;
    while c < 16
        invariant
            0 <= c <= 16,
            programs@ == Seq::new(c as nat, |i: int| 0u8),
        decreases 16 - c,
    {
        programs.push(0);
        assert(programs@ =~= Seq::new((c + 1) as nat, |i: int| 0u8));
        c = c + 1;
    }
    assert(programs@ =~= initial_programs());
    let mut abs_tick: u32 = 0;
    let mut i: usize = 0;
    while i < track.len()
        invariant
            m == tempo_map@,
            0 <= i <= track@.len(),
            forall|k: int| 0 <= k < track@.len() ==> event_in_range(#[trigger] track@[k]),
            abs_tick == ticks_through(track@, i as int),
            programs@.len() == 16,
            (active@, programs@, notes@) == play_events(track@, i as int, track_id, role, tpb, m, notes0),
        decreases track@.len() - i,
    {
        abs_tick = abs_tick.saturating_add(track[i].delta);
        assert(event_in_range(track@[i as int]));
        match track[i].channel {
            Some((ch, ChannelMessage::ProgramChange { program })) => {
                programs.set(ch as usize, program);
            },
            Some((ch, ChannelMessage::NoteOn { key, vel })) => {
                close_active_note(&mut active, notes, track_id, role, ch, key, abs_tick, tpb, tempo_map);
                if vel != 0 {
                    let program = programs[ch as usize];
                    active.push(
                        ActiveNote { channel: ch, note: key, start_tick: abs_tick, velocity: vel, program },
                    );
                }
            },
            Some((ch, ChannelMessage::NoteOff { key, vel })) => {
                close_active_note(&mut active, notes, track_id, role, ch, key, abs_tick, tpb, tempo_map);
            },
            _ => {},
        }
        i = i + 1;
    }
    let ghost after = notes@;
    let mut j: usize = 0;
    while j < active.len()
        invariant
            m == tempo_map@,
            abs_tick == track_end_tick(track@),
            0 <= j <= active@.len(),
            notes@ == flush_open(active@, j as int, after, track_id, role, abs_tick, tpb, m),
        decreases active@.len() - j,
    {
        let uid = notes.len() as u64;
        let entry = finish_note(active[j], uid, track_id, role, abs_tick, DEFAULT_NOTE_DURATION_MS, tpb, tempo_map);
        notes.push(entry);
        j = j + 1;
    }
}

/// `notes` is the playback schedule of the file sorted by start time then uid, and `dur`
/// the song duration (within `MAX_TIMELINE_MS`).
pub open spec fn playback_ok(notes: Seq<ScheduleNote>, dur: u64, timing: Timing, tracks: Seq<Seq<MidiEvent>>, drum_track_id: u16) -> bool {
    let tpb = spec_ticks_per_beat(timing);
    let m = spec_tempo_map(tracks);
    &&& notes_sorted(notes)
    &&& notes.to_multiset() == file_schedule(tracks, tracks.len() as int, drum_track_id, tpb, m).to_multiset()
    &&& dur == spec_song_duration(timing, tracks)
    &&& dur <= MAX_TIMELINE_MS
}

/// Playback notes of every track (the drum track marked as such), sorted by start time then
/// uid, with the song duration. Uids number the notes in the order they were completed,
/// track after track.
pub fn build_playback_notes(bytes: &[u8], drum_track_id: u16) -> (r: Result<(Vec<ScheduleNote>, u64), MidiError>)
    ensures
        match midly_parse(bytes@) {
            None => r matches Err(MidiError::Parse(_)),
            Some((timing, tracks)) => if drum_track_id as int >= tracks.len() {
                r matches Err(MidiError::TrackOutOfRange(id)) && id == drum_track_id
            } else {
                r matches Ok((notes, dur)) && playback_ok(notes@, dur, timing, tracks, drum_track_id)
            },
        },
{
    let file = load_midi(bytes)?;
    playback_notes_of(&file, drum_track_id)
}

/// The playback schedule of a parsed file with its duration (see `build_playback_notes`).
pub fn playback_notes_of(file: &MidiFile, drum_track_id: u16) -> (r: Result<(Vec<ScheduleNote>, u64), MidiError>)
    requires
        file_in_range(file),
    ensures
        if drum_track_id as int >= file.tracks@.len() {
            r matches Err(MidiError::TrackOutOfRange(id)) && id == drum_track_id
        } else {
            r matches Ok((notes, dur)) && playback_ok(notes@, dur, file.timing, file_tracks(file), drum_track_id)
        },
{
    if drum_track_id as usize >= file.tracks.len() {
        return Err(MidiError::TrackOutOfRange(drum_track_id));
    }
    let ghost tracks = file_tracks(file);
    let tpb = ticks_per_beat(file.timing);
    let tempo_map = build_tempo_map(file);
    let ghost m = tempo_map@;
    let mut notes: Vec<ScheduleNote> = Vec::new();
    let mut k: usize = 0;
    while k < file.tracks.len()
        invariant
            tracks == file_tracks(file),
            file_in_range(file),
            m == tempo_map@,
            0 <= k <= tracks.len(),
            notes@ == file_schedule(tracks, k as int, drum_track_id, tpb, m),
        decreases tracks.len() - k,
    {
        let track_id = k as u16;
        let role = if track_id == drum_track_id {
            NoteRole::Drum
        } else {
            NoteRole::Backing
        };
        let track = &file.tracks[k];
        assert(track@ == tracks[k as int]);
        schedule_track(track, track_id, role, tpb, tempo_map.as_slice(), &mut notes);
        k = k + 1;
    }
    sort_schedule(&mut notes);
    let duration_ms = song_duration_ms(file, tpb, tempo_map.as_slice());
    proof {
        lemma_file_tracks_in_range(file);
        lemma_tempo_map_bounded(m, tracks);
        lemma_tick_to_ms_bound(max_end_tick(tracks, tracks.len() as int), tpb, m);
    }
    Ok((notes, duration_ms))
}

} // verus!
