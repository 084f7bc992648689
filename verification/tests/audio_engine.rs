use drumentor::audio_engine::{
    device_id, host_sort_key, order_devices, pick_buffer_size, split_device_id, AudioDeviceInfo,
    AudioScheduler, BufferSize,
    SupportedBufferSize, TimedKind, PLAYER_DRUM_CHANNEL,
};
use drumentor::domain::{NoteRole, PadId, ScheduleNote};

#[test]
fn device_id_roundtrip() {
    let id = device_id("wasapi", "Speakers");
    let (h, n) = split_device_id(&id).unwrap();
    assert_eq!(h, "wasapi");
    assert_eq!(n, "Speakers");
}

#[test]
fn device_id_splits_at_first_separator() {
    assert_eq!(device_id("alsa", "hw:0"), "alsa::hw:0");
    let (h, n) = split_device_id("jack::system::playback").unwrap();
    assert_eq!(h, "jack");
    assert_eq!(n, "system::playback");
    assert_eq!(
        split_device_id("no separator").unwrap_err(),
        "invalid audio device id: no separator"
    );
    assert_eq!(
        split_device_id("single:colon").unwrap_err(),
        "invalid audio device id: single:colon"
    );
}

#[test]
fn hosts_sort_default_first() {
    assert_eq!(host_sort_key("wasapi"), 0);
    assert_eq!(host_sort_key("coreaudio"), 0);
    assert_eq!(host_sort_key("alsa"), 0);
    assert_eq!(host_sort_key("asio"), 1);
    assert_eq!(host_sort_key("jack"), 1);
    assert_eq!(host_sort_key("default"), 2);
    assert_eq!(host_sort_key("WASAPI"), 2);
}

#[test]
fn buffer_size_clamps_into_supported_range() {
    assert_eq!(
        pick_buffer_size(SupportedBufferSize::Range { min: 512, max: 4096 }, 256),
        BufferSize::Fixed(512)
    );
    assert_eq!(
        pick_buffer_size(SupportedBufferSize::Range { min: 64, max: 128 }, 256),
        BufferSize::Fixed(128)
    );
    assert_eq!(
        pick_buffer_size(SupportedBufferSize::Range { min: 64, max: 1024 }, 256),
        BufferSize::Fixed(256)
    );
    assert_eq!(
        pick_buffer_size(SupportedBufferSize::Unknown, 256),
        BufferSize::Fixed(256)
    );
}

#[test]
fn queue_pops_due_events_in_time_order() {
    let mut s = AudioScheduler::new();
    s.push_event(300, TimedKind::Click { index: 2 });
    s.push_event(100, TimedKind::Click { index: 0 });
    s.push_event(100, TimedKind::Click { index: 1 });
    s.push_event(50, TimedKind::ProgramChange { channel: 3, program: 7 });
    assert_eq!(s.next_event_at(), Some(50));
    let due = s.pop_due(100);
    let kinds: Vec<TimedKind> = due.iter().map(|e| e.kind).collect();
    assert_eq!(
        kinds,
        vec![
            TimedKind::ProgramChange { channel: 3, program: 7 },
            TimedKind::Click { index: 0 },
            TimedKind::Click { index: 1 },
        ]
    );
    assert_eq!(s.next_event_at(), Some(300));
    assert!(s.pop_due(299).is_empty());
    assert_eq!(s.pop_due(300).len(), 1);
    assert_eq!(s.next_event_at(), None);
}

#[test]
fn chunks_stop_at_next_event() {
    let mut s = AudioScheduler::new();
    s.push_event(0, TimedKind::Click { index: 0 });
    s.push_event(40, TimedKind::Click { index: 1 });
    let (due, chunk) = s.due_block(0, 256);
    assert_eq!(due.len(), 1);
    assert_eq!(chunk, 40);
    let (due, chunk) = s.due_block(40, 216);
    assert_eq!(due.len(), 1);
    assert_eq!(chunk, 216);
    s.push_event(10_000, TimedKind::Click { index: 2 });
    let (_, chunk) = s.due_block(256, 64);
    assert_eq!(chunk, 64);
}

fn note(role: NoteRole, channel: u8, program: u8) -> ScheduleNote {
    ScheduleNote {
        uid: 0,
        track_id: 0,
        role,
        channel,
        program,
        note: 60,
        velocity: 100,
        when_ms: 0,
        duration_ms: 500,
    }
}

#[test]
fn notes_need_arming_and_send_program_changes_once() {
    let mut s = AudioScheduler::new();
    assert!(!s.schedule_note(&note(NoteRole::Backing, 0, 5), 1000, 2205, 88, 22050));
    s.arm();
    assert!(s.schedule_note(&note(NoteRole::Backing, 0, 5), 1000, 2205, 88, 22050));
    let due = s.pop_due(u64::MAX);
    let kinds: Vec<(u64, TimedKind)> = due.iter().map(|e| (e.at_sample, e.kind)).collect();
    assert_eq!(
        kinds,
        vec![
            (912, TimedKind::ProgramChange { channel: 0, program: 5 }),
            (1000, TimedKind::NoteOn { channel: 0, note: 60, velocity: 100 }),
            (23050, TimedKind::NoteOff { channel: 0, note: 60 }),
        ]
    );
    // The program is now known: no second program change.
    assert!(s.schedule_note(&note(NoteRole::Backing, 0, 5), 30000, 2205, 88, 100));
    assert_eq!(s.pop_due(u64::MAX).len(), 2);
}

#[test]
fn late_notes_are_dropped_or_moved_up() {
    let mut s = AudioScheduler::new();
    s.arm();
    s.advance(10_000);
    // More than the tolerance in the past: dropped.
    assert!(!s.schedule_note(&note(NoteRole::Backing, 1, 0), 1000, 2205, 88, 100));
    // Slightly late: starts now.
    assert!(s.schedule_note(&note(NoteRole::Backing, 1, 0), 9000, 2205, 88, 100));
    let due = s.pop_due(u64::MAX);
    assert_eq!(due[0].at_sample, 10_000);
    assert_eq!(due[1].at_sample, 10_000);
    assert_eq!(due[2].at_sample, 10_100);
}

#[test]
fn muted_drums_spare_the_player_channel() {
    let mut s = AudioScheduler::new();
    s.arm();
    assert!(s.schedule_note(&note(NoteRole::Drum, 9, 0), 0, 2205, 88, 100));
    assert!(s.schedule_note(&note(NoteRole::Drum, 4, 0), 0, 2205, 88, 100));
    let plan = s.set_mute_drums(true);
    assert_eq!(plan.channels, vec![4, 9]);
    assert_eq!(plan.volume, 0);
    assert!(plan.notes_off);
    assert!(!plan.channels.contains(&PLAYER_DRUM_CHANNEL));
    // Muted drums are not scheduled, backing still is.
    assert!(!s.schedule_note(&note(NoteRole::Drum, 9, 0), 0, 2205, 88, 100));
    assert!(s.schedule_note(&note(NoteRole::Backing, 0, 0), 0, 2205, 88, 100));
    let plan = s.set_mute_drums(false);
    assert_eq!(plan.volume, 127);
    assert!(!plan.notes_off);
}

#[test]
fn player_hits_use_the_gm_key_and_clamped_velocity() {
    let mut s = AudioScheduler::new();
    s.advance(500);
    assert_eq!(s.play_player_drum_hit(PadId::Snare, 0, 15435), Some(38));
    let due = s.pop_due(u64::MAX);
    assert_eq!(due.len(), 2);
    assert_eq!(due[0].at_sample, 500);
    assert_eq!(
        due[0].kind,
        TimedKind::NoteOn { channel: PLAYER_DRUM_CHANNEL, note: 38, velocity: 1 }
    );
    assert_eq!(due[1].at_sample, 15935);
    s.set_play_player_drums(false);
    assert_eq!(s.play_player_drum_hit(PadId::Kick, 200, 100), None);
    assert_eq!(s.next_event_at(), None);
}

#[test]
fn click_train_replaces_pending_clicks_only() {
    let mut s = AudioScheduler::new();
    s.arm();
    s.schedule_click(100, 2205, 7);
    s.push_event(150, TimedKind::NoteOn { channel: 0, note: 60, velocity: 1 });
    s.start_click_train(4, 1000, 30);
    let due = s.pop_due(u64::MAX);
    let kinds: Vec<(u64, TimedKind)> = due.iter().map(|e| (e.at_sample, e.kind)).collect();
    assert_eq!(
        kinds,
        vec![
            (30, TimedKind::Click { index: 0 }),
            (150, TimedKind::NoteOn { channel: 0, note: 60, velocity: 1 }),
            (1030, TimedKind::Click { index: 1 }),
            (2030, TimedKind::Click { index: 2 }),
            (3030, TimedKind::Click { index: 3 }),
        ]
    );
}

#[test]
fn clearing_clicks_keeps_notes_and_cancel_clears_all() {
    let mut s = AudioScheduler::new();
    s.arm();
    s.schedule_click(10, 0, 0);
    s.push_event(20, TimedKind::NoteOff { channel: 2, note: 40 });
    s.play_click();
    s.clear_scheduled_clicks();
    let due = s.pop_due(u64::MAX);
    assert_eq!(due.len(), 1);
    assert_eq!(due[0].kind, TimedKind::NoteOff { channel: 2, note: 40 });
    s.push_event(20, TimedKind::NoteOff { channel: 2, note: 40 });
    s.cancel_all();
    assert_eq!(s.next_event_at(), None);
    // Clicks are not scheduled before arming.
    let mut idle = AudioScheduler::new();
    idle.schedule_click(10, 0, 0);
    assert_eq!(idle.next_event_at(), None);
}

#[test]
fn restart_rewinds_the_sample_clock() {
    let mut s = AudioScheduler::new();
    s.advance(1234);
    s.push_event(2000, TimedKind::Click { index: 0 });
    s.restart_stream();
    assert_eq!(s.sample_pos(), 0);
    assert_eq!(s.next_event_at(), None);
}

#[test]
fn device_info_carries_its_identifier() {
    let info = drumentor::audio_engine::AudioDeviceInfo::new("asio".into(), "Focusrite USB".into());
    assert_eq!(info.id, "asio::Focusrite USB");
    assert_eq!(info.name, "Focusrite USB");
    assert_eq!(info.host, "asio");
}

fn dev(host: &str, name: &str) -> AudioDeviceInfo {
    AudioDeviceInfo::new(host.to_string(), name.to_string())
}

#[test]
fn devices_list_by_host_rank_then_lowercase_name() {
    let listed = order_devices(vec![
        dev("default", "Zeta"),
        dev("jack", "system"),
        dev("alsa", "speakers"),
        dev("alsa", "Headphones"),
        dev("asio", "ASIO4ALL"),
        dev("alsa", "HDMI"),
    ]);
    let order: Vec<(String, String)> =
        listed.iter().map(|d| (d.host.clone(), d.name.clone())).collect();
    let expected = vec![
        ("alsa", "HDMI"),
        ("alsa", "Headphones"),
        ("alsa", "speakers"),
        ("asio", "ASIO4ALL"),
        ("jack", "system"),
        ("default", "Zeta"),
    ];
    let expected: Vec<(String, String)> =
        expected.into_iter().map(|(h, n)| (h.to_string(), n.to_string())).collect();
    assert_eq!(order, expected);
    assert_eq!(listed[0].id, "alsa::HDMI");
}

#[test]
fn devices_with_equal_keys_keep_their_order() {
    let listed = order_devices(vec![
        dev("pulse", "Out"),
        dev("other", "out"),
        dev("alsa", "b"),
        dev("pulse", "OUT"),
    ]);
    let names: Vec<&str> = listed.iter().map(|d| d.name.as_str()).collect();
    assert_eq!(names, vec!["b", "Out", "out", "OUT"]);
    assert!(order_devices(Vec::new()).is_empty());
}

#[test]
fn a_name_precedes_its_extensions() {
    let listed = order_devices(vec![dev("alsa", "Speakers 2"), dev("alsa", "speakers")]);
    assert_eq!(listed[0].name, "speakers");
    assert_eq!(listed[1].name, "Speakers 2");
}
