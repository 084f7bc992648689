use drumentor::domain::{Judgement, PadBinding, PadId, PadMapProfile};
use drumentor::transport::{SessionState, Status, TickOutcome};

fn smf(tracks: &[Vec<u8>]) -> Vec<u8> {
    let mut out = vec![0x4D, 0x54, 0x68, 0x64, 0, 0, 0, 6, 0, 1];
    out.push((tracks.len() >> 8) as u8);
    out.push(tracks.len() as u8);
    out.extend_from_slice(&[0x00, 0x60]);
    for body in tracks {
        let mut t = body.clone();
        t.extend_from_slice(&[0x00, 0xFF, 0x2F, 0x00]);
        out.extend_from_slice(&[0x4D, 0x54, 0x72, 0x6B]);
        out.extend_from_slice(&(t.len() as u32).to_be_bytes());
        out.extend_from_slice(&t);
    }
    out
}

/// Backing track lasting 192 ticks (1000 ms at 120 BPM).
fn backing_track() -> Vec<u8> {
    vec![
        0x00, 0xC0, 0x05, // program change ch0 → 5
        0x00, 0x90, 0x3C, 0x64, // note on C4
        0x60, 0x80, 0x3C, 0x40, // note off C4 at tick 96
        0x00, 0x90, 0x3E, 0x5A, // note on D4
        0x60, 0xFF, 0x01, 0x00, // empty text meta at tick 192
    ]
}

/// Drum track: kick at 0 ms, snare at 250 ms.
fn drum_track() -> Vec<u8> {
    vec![
        0x00, 0x99, 0x24, 0x64, // kick
        0x30, 0x99, 0x26, 0x50, // snare at tick 48
    ]
}

/// Drum track: kick at 0 ms, splash at 250 ms.
fn splash_track() -> Vec<u8> {
    vec![
        0x00, 0x99, 0x24, 0x64, // kick
        0x30, 0x99, 0x37, 0x50, // splash at tick 48
    ]
}

fn loaded_session() -> SessionState {
    let mut s = SessionState::new();
    let summary = s.load_song(smf(&[backing_track(), drum_track()]), "dir/song.mid").unwrap();
    assert_eq!(summary.path, "song.mid");
    assert_eq!(summary.duration_ms, 1000);
    s.set_drum_track(1, None).unwrap();
    s
}

#[test]
fn new_session_is_stopped_at_zero() {
    let s = SessionState::new();
    let snap = s.snapshot(12345);
    assert_eq!(snap.status, Status::Stopped);
    assert_eq!(snap.position_ms, 0);
    assert_eq!(snap.duration_ms, 0);
    assert_eq!(snap.speed_pct, 100);
    assert_eq!(Status::Stopped.as_str(), "stopped");
    assert_eq!(Status::Playing.as_str(), "playing");
    assert_eq!(Status::Paused.as_str(), "paused");
}

#[test]
fn commands_need_a_song_and_a_drum_track() {
    let mut s = SessionState::new();
    assert_eq!(s.play(0, "0".into()).unwrap_err(), "no MIDI file loaded");
    assert_eq!(s.seek(0, 10).unwrap_err(), "no MIDI file loaded");
    assert_eq!(s.set_drum_track(0, None).unwrap_err(), "no MIDI file loaded");
    assert!(s
        .load_song(vec![0, 1, 2], "bad.mid")
        .unwrap_err()
        .starts_with("failed to parse MIDI file: "));
    s.load_song(smf(&[backing_track(), drum_track()]), "song.mid").unwrap();
    assert_eq!(s.play(0, "0".into()).unwrap_err(), "no drum track selected");
    assert_eq!(s.set_drum_track(9, None).unwrap_err(), "track 9 out of range");
    assert_eq!(s.drum_track_id(), None);
}

#[test]
fn practice_run_judges_hits_misses_and_finishes() {
    let mut s = loaded_session();
    assert_eq!(s.expected_hits().len(), 2);
    let plan = s.play(1000, "start".into()).unwrap();
    assert!(!plan.already_playing);
    assert_eq!(plan.count_in_interval_ms, None);
    assert_eq!(plan.position_ms, 0);
    assert_eq!(plan.live_counts.unwrap().perfect, 0);
    assert_eq!(plan.snapshot.status, Status::Playing);
    let g = plan.generation;
    assert!(s.is_current(g));

    // Playing again changes nothing.
    let again = s.play(1050, "again".into()).unwrap();
    assert!(again.already_playing);
    assert_eq!(again.snapshot.position_ms, 50);

    let t = s.tick(g, 1050, "end".into());
    assert_eq!(t.outcome, TickOutcome::Running);
    assert_eq!(t.position_ms, 50);
    assert_eq!(t.highlights.len(), 1);
    assert_eq!(t.highlights[0].pad_id, PadId::Kick);
    assert_eq!(t.due_notes.len(), 2);
    assert!(t.misses.is_empty());
    assert!(t.due_clicks.is_empty());

    let hit = s.handle_incoming_hit(1250, PadId::Snare, 90, 38, 9);
    assert_eq!(hit.incoming.time_ms, 250);
    let ev = hit.judgement.unwrap();
    assert_eq!(ev.judgement, Judgement::Perfect);
    assert_eq!(ev.delta_ms, Some(0));
    assert_eq!(hit.counts.unwrap().perfect, 1);

    let t = s.tick(g, 1400, "end".into());
    assert_eq!(t.position_ms, 400);
    assert_eq!(t.misses.len(), 1);
    assert_eq!(t.misses[0].pad_id, PadId::Kick);
    assert_eq!(t.misses[0].judgement, Judgement::Miss);
    assert_eq!(t.miss_counts.unwrap().miss, 1);
    assert_eq!(t.highlights.len(), 1);
    assert_eq!(t.highlights[0].pad_id, PadId::Snare);

    let t = s.tick(g, 2100, "end".into());
    assert_eq!(t.outcome, TickOutcome::Finished);
    assert_eq!(t.snapshot.status, Status::Stopped);
    assert_eq!(t.snapshot.position_ms, 1000);
    let summary = t.summary.unwrap();
    assert_eq!(summary.total_expected, 2);
    assert_eq!(summary.note_hits, 1);
    assert_eq!(summary.score_percent, 50);
    assert_eq!(summary.started_at, "start");
    assert_eq!(summary.ended_at, "end");
    assert_eq!(summary.song_path.as_deref(), Some("song.mid"));
    assert_eq!(summary.drum_track_id, Some(1));
    assert!(!s.is_current(g));
    assert_eq!(s.tick(g, 2200, "x".into()).outcome, TickOutcome::Exit);
}

#[test]
fn hits_while_not_playing_are_shown_but_not_judged() {
    let mut s = loaded_session();
    s.seek(0, 300).unwrap();
    let hit = s.handle_incoming_hit(5000, PadId::Kick, 100, 36, 9);
    assert_eq!(hit.incoming.time_ms, 300);
    assert!(hit.judgement.is_none());
    assert!(hit.counts.is_none());
}

#[test]
fn latency_offset_shifts_hit_times() {
    let mut s = loaded_session();
    s.set_latency_offset(-30);
    s.play(0, "t".into()).unwrap();
    let hit = s.handle_incoming_hit(280, PadId::Snare, 90, 38, 9);
    assert_eq!(hit.incoming.time_ms, 250);
    assert_eq!(hit.judgement.unwrap().judgement, Judgement::Perfect);
    s.set_latency_offset(-1000);
    let hit = s.handle_incoming_hit(300, PadId::Kick, 90, 36, 9);
    assert_eq!(hit.incoming.time_ms, 0);
}

#[test]
fn speed_pause_and_seek_move_the_playhead() {
    let mut s = loaded_session();
    s.play(0, "t".into()).unwrap();
    let sp = s.set_speed(200, 50);
    assert!(sp.playing);
    assert_eq!(sp.speed_pct, 50);
    assert_eq!(sp.snapshot.position_ms, 200);
    assert_eq!(s.snapshot(600).position_ms, 400);
    let snap = s.pause(600);
    assert_eq!(snap.status, Status::Paused);
    assert_eq!(snap.position_ms, 400);
    assert_eq!(s.snapshot(9000).position_ms, 400);
    // Seeking past the end stops at the end; a paused transport stays paused.
    let seek = s.seek(9000, 5000).unwrap();
    assert_eq!(seek.snapshot.position_ms, 1000);
    assert_eq!(seek.snapshot.status, Status::Paused);
    assert!(!seek.playing);
    // Rates are clamped to 10..=100 hundredths.
    assert_eq!(s.set_speed(9000, 5).speed_pct, 10);
    assert_eq!(s.set_speed(9000, 250).speed_pct, 100);
}

#[test]
fn seek_from_stop_pauses_and_play_from_end_restarts() {
    let mut s = loaded_session();
    let seek = s.seek(0, 300).unwrap();
    assert_eq!(seek.snapshot.status, Status::Paused);
    assert_eq!(seek.snapshot.position_ms, 300);
    s.seek(0, 1000).unwrap();
    let plan = s.play(50, "again".into()).unwrap();
    assert_eq!(plan.position_ms, 0);
    assert_eq!(plan.live_counts.unwrap().miss, 0);
}

#[test]
fn seek_while_playing_keeps_judged_hits() {
    let mut s = loaded_session();
    let plan = s.play(0, "t".into()).unwrap();
    s.handle_incoming_hit(0, PadId::Kick, 100, 36, 9);
    let seek = s.seek(100, 600).unwrap();
    assert!(seek.playing);
    assert_ne!(seek.generation, plan.generation);
    assert_eq!(seek.live_counts.unwrap().perfect, 1);
    assert_eq!(seek.snapshot.position_ms, 600);
    // The snare (250 ms) was skipped by the seek: no miss for it.
    let t = s.tick(seek.generation, 500, "e".into());
    assert_eq!(t.position_ms, 1000);
    assert_eq!(t.outcome, TickOutcome::Finished);
    let summary = t.summary.unwrap();
    assert_eq!(summary.hit_counts.miss, 0);
    assert_eq!(summary.total_expected, 1);
}

#[test]
fn stop_discards_an_idle_run_and_rewinds() {
    let mut s = loaded_session();
    s.play(0, "t".into()).unwrap();
    let stop = s.stop(10, "e".into());
    assert!(stop.summary.is_none());
    assert_eq!(stop.snapshot.status, Status::Stopped);
    assert_eq!(stop.snapshot.position_ms, 0);
}

#[test]
fn stop_after_activity_returns_summary() {
    let mut s = loaded_session();
    s.play(0, "t".into()).unwrap();
    s.handle_incoming_hit(10, PadId::Kick, 100, 36, 9);
    let stop = s.stop(20, "e".into());
    let summary = stop.summary.unwrap();
    assert_eq!(summary.hit_counts.perfect, 1);
    // The snare never came: it counts as missed.
    assert_eq!(summary.hit_counts.miss, 1);
    assert_eq!(summary.id.len(), 36);
}

#[test]
fn metronome_count_in_freezes_then_clicks() {
    let mut s = loaded_session();
    s.set_metronome_enabled(0, true);
    assert!(s.metronome_enabled());
    let plan = s.play(1000, "t".into()).unwrap();
    assert_eq!(plan.count_in_interval_ms, Some(500));
    let g = plan.generation;
    let t = s.tick(g, 2000, "e".into());
    assert_eq!(t.outcome, TickOutcome::CountIn);
    assert_eq!(t.snapshot.position_ms, 0);
    let hit = s.handle_incoming_hit(2500, PadId::Kick, 100, 36, 9);
    assert!(hit.judgement.is_none());
    // 30 ms lead-in plus four clicks of 500 ms.
    let t = s.tick(g, 3030, "e".into());
    assert_eq!(t.outcome, TickOutcome::Running);
    assert!(t.rearm);
    assert_eq!(t.position_ms, 0);
    assert_eq!(t.due_clicks, vec![(0, 0)]);
    let t = s.tick(g, 3530, "e".into());
    assert_eq!(t.due_clicks, vec![(500, 1)]);
    // At half speed the clicks are twice as far apart.
    let mut slow = loaded_session();
    slow.set_metronome_enabled(0, true);
    slow.set_speed(0, 50);
    assert_eq!(slow.play(0, "t".into()).unwrap().count_in_interval_ms, Some(1000));
}

fn profile(bindings: Vec<PadBinding>) -> PadMapProfile {
    PadMapProfile {
        id: "p".into(),
        name: "kit".into(),
        device_name_hint: None,
        schema_version: 1,
        bindings,
        created_at: "1".into(),
        updated_at: "1".into(),
    }
}

#[test]
fn optional_pads_fold_to_stand_ins() {
    let mut s = SessionState::new();
    s.load_song(smf(&[splash_track()]), "splash.mid").unwrap();
    s.set_drum_track(0, None).unwrap();
    assert_eq!(s.expected_hits()[1].pad_id, PadId::Crash);
    let with_splash = profile(vec![PadBinding {
        pad_id: PadId::Splash,
        midi_note: 55,
        channel: None,
    }]);
    s.apply_pad_map_fold(0, Some(&with_splash));
    assert_eq!(s.expected_hits()[1].pad_id, PadId::Splash);
    s.apply_pad_map_fold(0, None);
    assert_eq!(s.expected_hits()[1].pad_id, PadId::Crash);
    // Selecting the track with the profile folds right away.
    s.set_drum_track(0, Some(&with_splash)).unwrap();
    assert_eq!(s.expected_hits()[1].pad_id, PadId::Splash);
}
