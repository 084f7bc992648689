use drumentor::domain::{NoteRole, PadId};
use drumentor::playback::{build_playback_notes, playback_notes_of};
use drumentor::smf::{ChannelMessage, MetaEvent, MidiEvent, MidiFile, Timing};
use drumentor::song::{
    build_expected_hits, build_metronome_beats, expected_hits_of, metronome_beats_of,
    quarter_ms_at, quarter_ms_in_file, summarize_file, summarize_midi, MidiError,
};
use drumentor::tempo::{bar_ticks, tick_to_ms, TempoPoint, TimeSignaturePoint};
use drumentor::text::decode_midi_text;

/// Minimal Type-0 SMF: 96 tpq, no tempo meta → defaults to 120 BPM.
fn midi_no_tempo() -> Vec<u8> {
    vec![
        0x4D, 0x54, 0x68, 0x64, // MThd
        0x00, 0x00, 0x00, 0x06, // header length
        0x00, 0x00, // format 0
        0x00, 0x01, // 1 track
        0x00, 0x60, // 96 tpq
        0x4D, 0x54, 0x72, 0x6B, // MTrk
        0x00, 0x00, 0x00, 0x04, // track length
        0x00, 0xFF, 0x2F, 0x00, // end of track
    ]
}

/// 120 BPM at tick 0, then 60 BPM (1_000_000 µs/q) at tick 96 (= 500 ms).
fn midi_tempo_change() -> Vec<u8> {
    vec![
        0x4D, 0x54, 0x68, 0x64, // MThd
        0x00, 0x00, 0x00, 0x06, 0x00, 0x00, // format 0
        0x00, 0x01, // 1 track
        0x00, 0x60, // 96 tpq
        0x4D, 0x54, 0x72, 0x6B, // MTrk
        0x00, 0x00, 0x00, 0x14, // track length = 20
        // delta 0, tempo 500_000 (120 BPM)
        0x00, 0xFF, 0x51, 0x03, 0x07, 0xA1, 0x20,
        // delta 96 (0x60), tempo 1_000_000 (60 BPM)
        0x60, 0xFF, 0x51, 0x03, 0x0F, 0x42, 0x40, // delta 0, end of track
        0x00, 0xFF, 0x2F, 0x00,
    ]
}

/// Format 1: CC7 on conductor track for channel 0, notes on a separate track.
fn midi_cc7_on_conductor() -> Vec<u8> {
    vec![
        0x4D, 0x54, 0x68, 0x64, // MThd
        0x00, 0x00, 0x00, 0x06, 0x00, 0x01, // format 1
        0x00, 0x02, // 2 tracks
        0x00, 0x60, // 96 tpq
        // --- Track 0 (conductor): CC7 channel 0 value 64 ---
        0x4D, 0x54, 0x72, 0x6B, 0x00, 0x00, 0x00, 0x08, 0x00, 0xB0, 0x07,
        0x40, // CC7 = 64 on ch 0
        0x00, 0xFF, 0x2F, 0x00, // --- Track 1 (notes on ch 0) ---
        0x4D, 0x54, 0x72, 0x6B, 0x00, 0x00, 0x00, 0x0B, 0x00, 0x90, 0x3C,
        0x40, // NoteOn C4 vel 64
        0x60, 0x80, 0x3C, 0x40, // NoteOff after 96 ticks
        0x00, 0xFF, 0x2F, 0x00,
    ]
}

/// A format-1 file at 96 ticks per quarter with the given track bodies (each ends with
/// an end-of-track event added here).
fn smf(tracks: &[Vec<u8>]) -> Vec<u8> {
    let mut out = vec![0x4D, 0x54, 0x68, 0x64, 0, 0, 0, 6, 0, 1];
    out.push((tracks.len() >> 8) as u8);
    out.push(tracks.len() as u8);
    out.extend_from_slice(&[0x00, 0x60]);
    for body in tracks {
        let mut t = body.clone();
        t.extend_from_slice(&[0x00, 0xFF, 0x2F, 0x00]);
        out.extend_from_slice(&[0x4D, 0x54, 0x72, 0x6B]);
        out.extend_from_slice(&(t.len() as u32).to_be_bytes());
        out.extend_from_slice(&t);
    }
    out
}

/// Backing track: program 5 on channel 0, C4 for a quarter, then D4 left open for two
/// eighths until the track ends.
fn backing_track() -> Vec<u8> {
    vec![
        0x00, 0xC0, 0x05, // program change ch0 → 5
        0x00, 0x90, 0x3C, 0x64, // note on C4 vel 100
        0x60, 0x80, 0x3C, 0x40, // note off C4 at tick 96
        0x00, 0x90, 0x3E, 0x5A, // note on D4 vel 90 at tick 96
        0x60, 0xFF, 0x01, 0x00, // empty text meta at tick 192
    ]
}

/// Drum track on channel 10: kick at 0, snare at tick 48, an unmapped key and a
/// zero-velocity note-on.
fn drum_track() -> Vec<u8> {
    vec![
        0x00, 0xFF, 0x03, 0x05, b'D', b'r', b'u', b'm', b's', // track name
        0x00, 0x99, 0x24, 0x64, // kick vel 100
        0x30, 0x99, 0x26, 0x50, // snare vel 80 at tick 48
        0x00, 0x99, 0x14, 0x5A, // key 20, unmapped
        0x00, 0x99, 0x2A, 0x00, // closed hi-hat with velocity 0
        0x00, 0x89, 0x24, 0x40, // kick off at 48
    ]
}

#[test]
fn quarter_ms_defaults_to_500_at_120bpm() {
    let bytes = midi_no_tempo();
    assert_eq!(quarter_ms_at(&bytes, 0).unwrap(), 500);
    assert_eq!(quarter_ms_at(&bytes, 10_000).unwrap(), 500);
}

#[test]
fn quarter_ms_follows_tempo_map() {
    let bytes = midi_tempo_change();
    // Before the change (at 0 ms): 120 BPM → 500 ms
    assert_eq!(quarter_ms_at(&bytes, 0).unwrap(), 500);
    assert_eq!(quarter_ms_at(&bytes, 499).unwrap(), 500);
    // At/after tick 96 (= 500 ms): 60 BPM → 1000 ms
    assert_eq!(quarter_ms_at(&bytes, 500).unwrap(), 1000);
    assert_eq!(quarter_ms_at(&bytes, 2_000).unwrap(), 1000);
}

#[test]
fn bar_grid_defaults_to_four_four() {
    let signatures = vec![TimeSignaturePoint {
        tick: 0,
        numerator: 4,
        denominator_pow: 2,
    }];
    assert_eq!(bar_ticks(&signatures, 96, 960), vec![0, 384, 768, 960]);
}

#[test]
fn bar_grid_handles_three_four_and_signature_change() {
    let signatures = vec![
        TimeSignaturePoint {
            tick: 0,
            numerator: 3,
            denominator_pow: 2,
        },
        TimeSignaturePoint {
            tick: 576,
            numerator: 4,
            denominator_pow: 2,
        },
    ];
    assert_eq!(
        bar_ticks(&signatures, 96, 1_200),
        vec![0, 288, 576, 960, 1_200]
    );
}

#[test]
fn bar_boundaries_follow_tempo_changes() {
    let tempo = vec![
        TempoPoint {
            tick: 0,
            us_per_quarter: 500_000,
        },
        TempoPoint {
            tick: 384,
            us_per_quarter: 1_000_000,
        },
    ];
    let signatures = vec![TimeSignaturePoint {
        tick: 0,
        numerator: 4,
        denominator_pow: 2,
    }];
    let times: Vec<u64> = bar_ticks(&signatures, 96, 768)
        .into_iter()
        .map(|tick| tick_to_ms(tick, 96, &tempo))
        .collect();
    assert_eq!(times, vec![0, 2_000, 6_000]);
}

#[test]
fn track_volume_from_conductor_cc7() {
    let summary = summarize_midi(&midi_cc7_on_conductor(), "test.mid").unwrap();
    assert_eq!(summary.tracks.len(), 2);
    assert_eq!(summary.tracks[0].volume, 64); // conductor itself saw local CC7
    assert_eq!(summary.tracks[1].note_count, 1);
    assert_eq!(
        summary.tracks[1].volume, 64,
        "note track should inherit channel 0 CC7 from conductor"
    );
}

#[test]
fn summary_names_duration_and_drum_hints() {
    let bytes = smf(&[backing_track(), drum_track()]);
    let summary = summarize_midi(&bytes, "/songs/demo/groove.mid").unwrap();
    assert_eq!(summary.path, "groove.mid");
    assert_eq!(summary.track_count, 2);
    // The backing track ends at tick 192 = 1000 ms at 120 BPM.
    assert_eq!(summary.duration_ms, 1000);
    assert_eq!(summary.tracks[0].name, "Track 0");
    assert!(!summary.tracks[0].name_suggests_drums);
    assert_eq!(summary.tracks[0].note_count, 2);
    assert_eq!(summary.tracks[0].percussion_notes, 2);
    assert_eq!(summary.tracks[0].channel10_notes, 0);
    assert_eq!(summary.tracks[0].volume, 100);
    assert_eq!(summary.tracks[1].name, "Drums");
    assert!(summary.tracks[1].name_suggests_drums);
    assert_eq!(summary.tracks[1].note_count, 3);
    assert_eq!(summary.tracks[1].percussion_notes, 2);
    assert_eq!(summary.tracks[1].channel10_notes, 3);
    // One 4/4 bar is 384 ticks, longer than the song: only the start and the end.
    assert_eq!(summary.bar_boundaries_ms, vec![0, 1000]);
}

#[test]
fn summary_of_empty_song_has_single_bar_line() {
    let summary = summarize_midi(&midi_no_tempo(), "empty.mid").unwrap();
    assert_eq!(summary.duration_ms, 0);
    assert_eq!(summary.bar_boundaries_ms, vec![0]);
}

#[test]
fn expected_hits_map_drum_keys_and_skip_silent_notes() {
    let bytes = smf(&[backing_track(), drum_track()]);
    let (hits, duration) = build_expected_hits(&bytes, 1).unwrap();
    assert_eq!(duration, 1000);
    assert_eq!(hits.len(), 2);
    assert_eq!(hits[0].pad_id, PadId::Kick);
    assert_eq!(hits[0].time_ms, 0);
    assert_eq!(hits[0].velocity, 100);
    assert_eq!(hits[0].uid, 0);
    assert_eq!(hits[1].pad_id, PadId::Snare);
    assert_eq!(hits[1].time_ms, 250);
    assert_eq!(hits[1].velocity, 80);
    assert_eq!(hits[1].uid, 1);
}

#[test]
fn expected_hits_reject_missing_track() {
    let bytes = smf(&[backing_track(), drum_track()]);
    match build_expected_hits(&bytes, 5) {
        Err(e) => {
            assert!(matches!(e, MidiError::TrackOutOfRange(5)));
            assert_eq!(e.message(), "track 5 out of range");
        }
        Ok(_) => panic!("track 5 does not exist"),
    }
}

#[test]
fn garbage_is_a_parse_error() {
    let bytes = vec![1, 2, 3, 4, 5];
    match build_expected_hits(&bytes, 0) {
        Err(e) => {
            assert!(matches!(e, MidiError::Parse(_)));
            assert!(e.message().starts_with("failed to parse MIDI file: "));
        }
        Ok(_) => panic!("not a MIDI file"),
    }
    assert!(quarter_ms_at(&bytes, 0).is_err());
    assert!(build_metronome_beats(&bytes).is_err());
    assert!(build_playback_notes(&bytes, 0).is_err());
}

#[test]
fn playback_notes_have_lengths_programs_and_roles() {
    let bytes = smf(&[backing_track(), drum_track()]);
    let (notes, duration) = build_playback_notes(&bytes, 1).unwrap();
    assert_eq!(duration, 1000);
    // Backing: C4 (closed at 500 ms) and D4 (open until the track end at 1000 ms).
    // Drums: snare, unmapped key and kick are left open or closed as the events say.
    let c4 = notes.iter().find(|n| n.note == 60).unwrap();
    assert_eq!(c4.when_ms, 0);
    assert_eq!(c4.duration_ms, 500);
    assert_eq!(c4.program, 5);
    assert_eq!(c4.role, NoteRole::Backing);
    assert_eq!(c4.track_id, 0);
    let d4 = notes.iter().find(|n| n.note == 62).unwrap();
    assert_eq!(d4.when_ms, 500);
    assert_eq!(d4.duration_ms, 500);
    assert_eq!(d4.velocity, 90);
    let kick = notes.iter().find(|n| n.note == 36).unwrap();
    assert_eq!(kick.role, NoteRole::Drum);
    assert_eq!(kick.channel, 9);
    assert_eq!(kick.when_ms, 0);
    assert_eq!(kick.duration_ms, 250);
    // The snare is never released: it lasts from 250 ms to the track end at 250 ms,
    // so it gets the 250 ms fallback length.
    let snare = notes.iter().find(|n| n.note == 38).unwrap();
    assert_eq!(snare.when_ms, 250);
    assert_eq!(snare.duration_ms, 250);
    // A zero-velocity note-on opens nothing.
    assert!(notes.iter().all(|n| n.note != 42));
    // Sorted by start time, uids distinct.
    for w in notes.windows(2) {
        assert!((w[0].when_ms, w[0].uid) <= (w[1].when_ms, w[1].uid));
    }
    let mut uids: Vec<u64> = notes.iter().map(|n| n.uid).collect();
    uids.sort();
    uids.dedup();
    assert_eq!(uids.len(), notes.len());
    assert_eq!(notes.len(), 5);
}

#[test]
fn playback_notes_reject_missing_drum_track() {
    let bytes = smf(&[backing_track()]);
    match build_playback_notes(&bytes, 1) {
        Err(e) => assert_eq!(e.message(), "track 1 out of range"),
        Ok(_) => panic!("track 1 does not exist"),
    }
}

#[test]
fn metronome_beats_follow_quarters_until_song_end() {
    let bytes = smf(&[backing_track(), drum_track()]);
    assert_eq!(build_metronome_beats(&bytes).unwrap(), vec![0, 500, 1000]);
    // With a tempo change the beats stretch.
    let beats = build_metronome_beats(&smf(&[vec![
        0x00, 0xFF, 0x51, 0x03, 0x0F, 0x42, 0x40, // 60 BPM
        0x83, 0x00, 0xFF, 0x01, 0x00, // text meta at tick 384
    ]]))
    .unwrap();
    assert_eq!(beats, vec![0, 1000, 2000, 3000, 4000]);
}

#[test]
fn tick_to_ms_rounds_half_up() {
    let tempo = vec![TempoPoint {
        tick: 0,
        us_per_quarter: 500_000,
    }];
    // 1 tick at 96 tpq and 120 BPM = 5.208 ms.
    assert_eq!(tick_to_ms(1, 96, &tempo), 5);
    // 3 ticks at 1000 tpq and 500 µs per quarter... 1.5 ms rounds to 2.
    let fast = vec![TempoPoint {
        tick: 0,
        us_per_quarter: 500,
    }];
    assert_eq!(tick_to_ms(3000, 1000, &fast), 2);
    assert_eq!(tick_to_ms(3000, 0, &fast), 0);
}

#[test]
fn midi_text_is_trimmed_and_nul_free() {
    assert_eq!(decode_midi_text(b"Drums\0\0\0"), Some("Drums".to_string()));
    assert_eq!(decode_midi_text(b"  Lead \t Guitar "), Some("Lead Guitar".to_string()));
    assert_eq!(decode_midi_text(b"\0\0  "), None);
    assert_eq!(decode_midi_text(&[0xFF, 0xFE]), None);
}

#[test]
fn later_tempo_wins_on_the_same_tick() {
    // Within one track: 120 BPM then 60 BPM, both at tick 0.
    let one_track = smf(&[vec![
        0x00, 0xFF, 0x51, 0x03, 0x07, 0xA1, 0x20, // 120 BPM
        0x00, 0xFF, 0x51, 0x03, 0x0F, 0x42, 0x40, // 60 BPM
    ]]);
    assert_eq!(quarter_ms_at(&one_track, 0).unwrap(), 1000);
    // Across tracks the later track wins.
    let two_tracks = smf(&[
        vec![0x00, 0xFF, 0x51, 0x03, 0x0F, 0x42, 0x40],
        vec![0x00, 0xFF, 0x51, 0x03, 0x07, 0xA1, 0x20],
    ]);
    assert_eq!(quarter_ms_at(&two_tracks, 0).unwrap(), 500);
}

#[test]
fn default_tempo_holds_until_the_first_change() {
    // First tempo event at tick 96 (60 BPM): 120 BPM applies before it.
    let bytes = smf(&[vec![0x60, 0xFF, 0x51, 0x03, 0x0F, 0x42, 0x40]]);
    assert_eq!(quarter_ms_at(&bytes, 0).unwrap(), 500);
    assert_eq!(quarter_ms_at(&bytes, 500).unwrap(), 1000);
}

#[test]
fn out_of_range_track_numbers_are_written_in_decimal() {
    let bytes = smf(&[backing_track(), drum_track()]);
    match build_expected_hits(&bytes, 1207) {
        Err(e) => assert_eq!(e.message(), "track 1207 out of range"),
        Ok(_) => panic!("track 1207 does not exist"),
    }
    match build_expected_hits(&bytes, 60) {
        Err(e) => assert_eq!(e.message(), "track 60 out of range"),
        Ok(_) => panic!("track 60 does not exist"),
    }
}

#[test]
fn summary_is_shown_under_the_file_name() {
    let bytes = smf(&[backing_track(), drum_track()]);
    let s = summarize_midi(&bytes, "songs/rock/groove.mid").unwrap();
    assert_eq!(s.path, "groove.mid");
    let s = summarize_midi(&bytes, "").unwrap();
    assert_eq!(s.path, "");
}

fn ev(delta: u32, channel: Option<(u8, ChannelMessage)>, meta: Option<MetaEvent>) -> MidiEvent {
    MidiEvent { delta, channel, meta }
}

/// A parsed file at 96 ticks per quarter and 60 BPM: kick at tick 0, snare at tick 96,
/// track end at tick 192.
fn parsed_drum_file() -> MidiFile {
    MidiFile {
        timing: Timing::Metrical(96),
        tracks: vec![vec![
            ev(0, None, Some(MetaEvent::Tempo(1_000_000))),
            ev(0, Some((9, ChannelMessage::NoteOn { key: 36, vel: 100 })), None),
            ev(96, Some((9, ChannelMessage::NoteOn { key: 38, vel: 80 })), None),
            ev(96, None, Some(MetaEvent::Other)),
        ]],
    }
}

#[test]
fn parsed_file_gives_hits_beats_and_quarters() {
    let file = parsed_drum_file();
    assert_eq!(quarter_ms_in_file(&file, 0), 1000);
    assert_eq!(metronome_beats_of(&file), vec![0, 1000, 2000]);
    let (hits, dur) = expected_hits_of(&file, 0).unwrap();
    assert_eq!(dur, 2000);
    assert_eq!(hits.len(), 2);
    assert_eq!((hits[0].uid, hits[0].pad_id, hits[0].time_ms), (0, PadId::Kick, 0));
    assert_eq!((hits[1].uid, hits[1].pad_id, hits[1].time_ms), (1, PadId::Snare, 1000));
    assert!(matches!(expected_hits_of(&file, 3), Err(MidiError::TrackOutOfRange(3))));
}

#[test]
fn parsed_file_gives_summary_and_schedule() {
    let file = parsed_drum_file();
    let s = summarize_file(&file, "kit.mid".to_string());
    assert_eq!(s.path, "kit.mid");
    assert_eq!(s.track_count, 1);
    assert_eq!(s.duration_ms, 2000);
    assert_eq!(s.bar_boundaries_ms, vec![0, 2000]);
    let (notes, dur) = playback_notes_of(&file, 0).unwrap();
    assert_eq!(dur, 2000);
    assert_eq!(notes.len(), 2);
    assert!(notes.iter().all(|n| n.role == NoteRole::Drum && n.channel == 9));
    assert_eq!((notes[0].note, notes[0].when_ms), (36, 0));
    assert_eq!((notes[1].note, notes[1].when_ms), (38, 1000));
    assert!(matches!(playback_notes_of(&file, 1), Err(MidiError::TrackOutOfRange(1))));
}
