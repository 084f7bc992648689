//! Standard MIDI File access: the library's own model of a parsed file and the
//! calls into `midly` that produce it.

use vstd::prelude::*;

use midly::MetaMessage as X;
use midly::MidiMessage as M;

verus! {

#[verifier::external_type_specification]
#[verifier::external_body]
pub struct ExSmf<'a>(midly::Smf<'a>);

/// SMPTE frame rates.
#[derive(Debug, Clone, Copy, PartialEq, Eq, Structural)]
pub enum Fps {
    Fps24,
    Fps25,
    Fps29,
    Fps30,
}

/// File timing: ticks per quarter note, or SMPTE frames and subframes.
#[derive(Debug, Clone, Copy, PartialEq, Eq, Structural)]
pub enum Timing {
    Metrical(u16),
    Timecode(Fps, u8),
}

/// A channel voice message (channel carried beside it).
#[derive(Debug, Clone, Copy, PartialEq, Eq, Structural)]
pub enum ChannelMessage {
    NoteOff { key: u8, vel: u8 },
    NoteOn { key: u8, vel: u8 },
    Controller { controller: u8, value: u8 },
    ProgramChange { program: u8 },
    Other,
}

/// The meta messages the song analysis reads.
#[derive(Debug, Clone, PartialEq, Eq)]
pub enum MetaEvent {
    TrackName(Vec<u8>),
    InstrumentName(Vec<u8>),
    Tempo(u32),
    TimeSignature(u8, u8),
    Other,
}

/// One track event: delta ticks, plus a channel message or a meta message (or neither).
#[derive(Debug, Clone)]
pub struct MidiEvent {
    pub delta: u32,
    pub channel: Option<(u8, ChannelMessage)>,
    pub meta: Option<MetaEvent>,
}

/// A parsed file in the library's own terms.
#[derive(Debug, Clone)]
pub struct MidiFile {
    pub timing: Timing,
    pub tracks: Vec<Vec<MidiEvent>>,
}

/// The tracks of a file as sequences of events.
pub open spec fn file_tracks(f: &MidiFile) -> Seq<Seq<MidiEvent>> {
    f.tracks@.map_values(|t: Vec<MidiEvent>| t@)
}

/// Contents of a `midly` parse: the event sequences of its tracks.
pub uninterp spec fn smf_tracks(smf: midly::Smf) -> Seq<Seq<MidiEvent>>;

/// Timing field of a `midly` parse.
pub uninterp spec fn smf_timing(smf: midly::Smf) -> Timing;

/// What `midly::Smf::parse` makes of these bytes: timing and tracks, or `None` on failure.
pub uninterp spec fn midly_parse(bytes: Seq<u8>) -> Option<(Timing, Seq<Seq<MidiEvent>>)>;

pub open spec fn message_in_range(m: ChannelMessage) -> bool {
    match m {
        ChannelMessage::NoteOff { key, vel } => key < 128 && vel < 128,
        ChannelMessage::NoteOn { key, vel } => key < 128 && vel < 128,
        ChannelMessage::Controller { controller, value } => controller < 128 && value < 128,
        ChannelMessage::ProgramChange { program } => program < 128,
        ChannelMessage::Other => true,
    }
}

/// Bounds that the `midly` value types (u28, u4, u7, u24, u15) guarantee.
pub open spec fn event_in_range(e: MidiEvent) -> bool {
    &&& e.delta < 0x1000_0000
    &&& match e.channel {
        Some((ch, m)) => ch < 16 && message_in_range(m),
        None => true,
    }
    &&& match e.meta {
        Some(MetaEvent::Tempo(us)) => us < 0x100_0000,
        _ => true,
    }
}

pub open spec fn timing_in_range(t: Timing) -> bool {
    match t {
        Timing::Metrical(n) => n < 0x8000,
        Timing::Timecode(_, _) => true,
    }
}

/// `midly::Smf::parse`: the parsed file on success, the error's text on failure.
#[verifier::external_body]
fn smf_parse(bytes: &[u8]) -> (r: Result<midly::Smf<'_>, String>)
    ensures
        match r {
            Ok(s) => midly_parse(bytes@) == Some((smf_timing(s), smf_tracks(s))),
            Err(_) => midly_parse(bytes@) is None,
        },
        r matches Ok(s) ==> forall|t: int|
            0 <= t < smf_tracks(s).len() ==> (#[trigger] smf_tracks(s)[t]).len() <= bytes@.len(),
{
    match midly::Smf::parse(bytes) {
        Ok(s) => Ok(s),
        Err(e) => Err(e.to_string()),
    }
}

/// `header.timing` of a parsed file.
#[verifier::external_body]
fn smf_header_timing(smf: &midly::Smf) -> (r: Timing)
    ensures
        r == smf_timing(*smf),
        timing_in_range(r),
{
    match smf.header.timing {
        midly::Timing::Metrical(t) => Timing::Metrical(t.as_int()),
        midly::Timing::Timecode(fps, sub) => Timing::Timecode(
            match fps {
                midly::Fps::Fps24 => Fps::Fps24,
                midly::Fps::Fps25 => Fps::Fps25,
                midly::Fps::Fps29 => Fps::Fps29,
                midly::Fps::Fps30 => Fps::Fps30,
            },
            sub,
        ),
    }
}

/// Number of tracks of a parsed file.
#[verifier::external_body]
fn smf_track_count(smf: &midly::Smf) -> (r: usize)
    ensures
        r == smf_tracks(*smf).len(),
{
    smf.tracks.len()
}

/// Number of events in one track.
#[verifier::external_body]
fn smf_track_len(smf: &midly::Smf, track: usize) -> (r: usize)
    requires
        track < smf_tracks(*smf).len(),
    ensures
        r == smf_tracks(*smf)[track as int].len(),
{
    smf.tracks[track].len()
}

/// Delta time (`u28`) of one event.
#[verifier::external_body]
fn smf_event_delta(smf: &midly::Smf, track: usize, index: usize) -> (r: u32)
    requires
        track < smf_tracks(*smf).len(),
        index < smf_tracks(*smf)[track as int].len(),
    ensures
        r == smf_tracks(*smf)[track as int][index as int].delta,
        r < 0x1000_0000,
{
    smf.tracks[track][index].delta.as_int()
}

/// Channel (`u4`) and message of a channel event, `None` for other events.
#[verifier::external_body]
fn smf_event_channel(smf: &midly::Smf, track: usize, index: usize) -> (r: Option<(u8, ChannelMessage)>)
    requires
        track < smf_tracks(*smf).len(),
        index < smf_tracks(*smf)[track as int].len(),
    ensures
        r == smf_tracks(*smf)[track as int][index as int].channel,
        r matches Some((ch, m)) ==> ch < 16 && message_in_range(m),
{
    match smf.tracks[track][index].kind {
        midly::TrackEventKind::Midi { channel, message } => Some((channel.as_int(), match message {
            M::NoteOff { key, vel } => ChannelMessage::NoteOff { key: key.as_int(), vel: vel.as_int() },
            M::NoteOn { key, vel } => ChannelMessage::NoteOn { key: key.as_int(), vel: vel.as_int() },
            M::Controller { controller, value } => ChannelMessage::Controller { controller: controller.as_int(), value: value.as_int() },
            M::ProgramChange { program } => ChannelMessage::ProgramChange { program: program.as_int() },
            _ => ChannelMessage::Other,
        })),
        _ => None,
    }
}

/// Meta message of a meta event, `None` for other events.
#[verifier::external_body]
fn smf_event_meta(smf: &midly::Smf, track: usize, index: usize) -> (r: Option<MetaEvent>)
    requires
        track < smf_tracks(*smf).len(),
        index < smf_tracks(*smf)[track as int].len(),
    ensures
        r == smf_tracks(*smf)[track as int][index as int].meta,
        r matches Some(MetaEvent::Tempo(us)) ==> us < 0x100_0000,
{
    match smf.tracks[track][index].kind {
        midly::TrackEventKind::Meta(X::TrackName(b)) => Some(MetaEvent::TrackName(b.to_vec())),
        midly::TrackEventKind::Meta(X::InstrumentName(b)) => Some(MetaEvent::InstrumentName(b.to_vec())),
        midly::TrackEventKind::Meta(X::Tempo(t)) => Some(MetaEvent::Tempo(t.as_int())),
        midly::TrackEventKind::Meta(X::TimeSignature(n, d, _, _)) => Some(MetaEvent::TimeSignature(n, d)),
        midly::TrackEventKind::Meta(_) => Some(MetaEvent::Other),
        _ => None,
    }
}

/// Every event and the timing of a file lie within the `midly` value ranges.
pub open spec fn file_in_range(f: &MidiFile) -> bool {
    &&& timing_in_range(f.timing)
    &&& forall|t: int, i: int|
        0 <= t < f.tracks@.len() && 0 <= i < f.tracks@[t]@.len() ==> event_in_range(
            #[trigger] f.tracks@[t]@[i],
        )
}

fn read_track(smf: &midly::Smf, track: usize) -> (r: Vec<MidiEvent>)
    requires
        track < smf_tracks(*smf).len(),
    ensures
        r@ == smf_tracks(*smf)[track as int],
        forall|i: int| 0 <= i < r@.len() ==> event_in_range(#[trigger] r@[i]),
{
    let n = smf_track_len(smf, track);
    let mut events: Vec<MidiEvent> = Vec::new();
    let mut i: usize = 0;
    while i < n
        invariant
            track < smf_tracks(*smf).len(),
            n == smf_tracks(*smf)[track as int].len(),
            0 <= i <= n,
            events@ == smf_tracks(*smf)[track as int].take(i as int),
            forall|k: int| 0 <= k < events@.len() ==> event_in_range(#[trigger] events@[k]),
        decreases n - i,
    {
        let delta = smf_event_delta(smf, track, i);
        let channel = smf_event_channel(smf, track, i);
        let meta = smf_event_meta(smf, track, i);
        let ev = MidiEvent { delta, channel, meta };
        proof {
            let m = smf_tracks(*smf)[track as int][i as int];
            assert(ev == m);
        }
        events.push(ev);
        assert(events@ =~= smf_tracks(*smf)[track as int].take(i + 1));
        i = i + 1;
    }
    assert(smf_tracks(*smf)[track as int].take(n as int) =~= smf_tracks(*smf)[track as int]);
    events
}

/// Parse Standard MIDI File bytes into the library's model.
pub fn parse_midi_bytes(bytes: &[u8]) -> (r: Result<MidiFile, String>)
    ensures
        match r {
            Ok(f) => midly_parse(bytes@) == Some((f.timing, file_tracks(&f))) && file_in_range(&f),
            Err(_) => midly_parse(bytes@) is None,
        },
        r matches Ok(f) ==> forall|t: int|
            0 <= t < f.tracks@.len() ==> (#[trigger] f.tracks@[t])@.len() <= bytes@.len(),
{
    let smf = match smf_parse(bytes) {
        Ok(s) => s,
        Err(e) => return Err(e),
    };
    let timing = smf_header_timing(&smf);
    let count = smf_track_count(&smf);
    let mut tracks: Vec<Vec<MidiEvent>> = Vec::new();
    let mut t: usize = 0;
    while t < count
        invariant
            count == smf_tracks(smf).len(),
            0 <= t <= count,
            tracks@.len() == t,
            forall|k: int| 0 <= k < t ==> (#[trigger] tracks@[k])@ == smf_tracks(smf)[k],
            forall|k: int| 0 <= k < smf_tracks(smf).len() ==> (#[trigger] smf_tracks(smf)[k]).len() <= bytes@.len(),
            forall|k: int, i: int|
                0 <= k < tracks@.len() && 0 <= i < tracks@[k]@.len() ==> event_in_range(
                    #[trigger] tracks@[k]@[i],
                ),
        decreases count - t,
    {
        let tr = read_track(&smf, t);
        tracks.push(tr);
        t = t + 1;
    }
    let f = MidiFile { timing, tracks };
    assert(file_tracks(&f) =~= smf_tracks(smf));
    Ok(f)
}

} // verus!
