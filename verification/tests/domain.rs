use drumentor::domain::{
    fold_expected_hits, fold_pad_for_device_map, gm_note_to_pad, pad_to_gm_note, required_pads,
    ExpectedHit, HitCounts, Judgement, PadBinding, PadId, PadMapProfile,
};

const ALL_PADS: [PadId; 12] = [
    PadId::Kick,
    PadId::Snare,
    PadId::HiHatClosed,
    PadId::HiHatOpen,
    PadId::HiHatPedal,
    PadId::TomHigh,
    PadId::TomMid,
    PadId::FloorTom,
    PadId::Crash,
    PadId::Ride,
    PadId::RideBell,
    PadId::Splash,
];

fn binding(pad: PadId, note: u8, channel: Option<u8>) -> PadBinding {
    PadBinding {
        pad_id: pad,
        midi_note: note,
        channel,
    }
}

fn profile(bindings: Vec<PadBinding>) -> PadMapProfile {
    PadMapProfile {
        id: "kit".into(),
        name: "My kit".into(),
        device_name_hint: Some("TD-17".into()),
        schema_version: 1,
        bindings,
        created_at: "100".into(),
        updated_at: "100".into(),
    }
}

#[test]
fn gm_keys_round_trip() {
    for pad in ALL_PADS {
        let note = pad_to_gm_note(pad);
        assert!((35..=81).contains(&note));
        assert_eq!(gm_note_to_pad(note), Some(pad));
    }
    assert_eq!(gm_note_to_pad(44), Some(PadId::HiHatPedal));
    assert_eq!(gm_note_to_pad(42), Some(PadId::HiHatClosed));
    assert_eq!(gm_note_to_pad(35), Some(PadId::Kick));
    assert_eq!(gm_note_to_pad(40), Some(PadId::Snare));
    assert_eq!(gm_note_to_pad(57), Some(PadId::Crash));
    assert_eq!(gm_note_to_pad(34), None);
    assert_eq!(gm_note_to_pad(82), None);
}

#[test]
fn required_pads_are_the_nine_core_pads() {
    let req = required_pads();
    assert_eq!(req.len(), 9);
    for pad in ALL_PADS {
        assert_eq!(pad.is_required(), req.contains(&pad));
    }
    assert!(!PadId::Splash.is_required());
    assert!(!PadId::RideBell.is_required());
    assert!(!PadId::HiHatPedal.is_required());
}

#[test]
fn optional_pads_fold_once() {
    assert_eq!(fold_pad_for_device_map(PadId::Splash, &[]), PadId::Crash);
    assert_eq!(fold_pad_for_device_map(PadId::RideBell, &[PadId::Ride]), PadId::Ride);
    assert_eq!(
        fold_pad_for_device_map(PadId::Splash, &[PadId::Splash]),
        PadId::Splash
    );
    for pad in ALL_PADS {
        let once = fold_pad_for_device_map(pad, &[PadId::Kick]);
        assert_eq!(fold_pad_for_device_map(once, &[PadId::Kick]), once);
    }
    assert_eq!(fold_pad_for_device_map(PadId::HiHatPedal, &[]), PadId::HiHatPedal);
}

#[test]
fn expected_hits_fold_for_profile() {
    let hits = vec![
        ExpectedHit { uid: 0, pad_id: PadId::Splash, time_ms: 10, velocity: 90 },
        ExpectedHit { uid: 1, pad_id: PadId::RideBell, time_ms: 20, velocity: 80 },
        ExpectedHit { uid: 2, pad_id: PadId::Kick, time_ms: 30, velocity: 70 },
    ];
    let folded = fold_expected_hits(&hits, None);
    assert_eq!(folded[0].pad_id, PadId::Crash);
    assert_eq!(folded[1].pad_id, PadId::Ride);
    assert_eq!(folded[2].pad_id, PadId::Kick);
    assert_eq!(folded[0].time_ms, 10);
    assert_eq!(folded[1].uid, 1);
    let p = profile(vec![binding(PadId::RideBell, 53, None)]);
    let folded = fold_expected_hits(&hits, Some(&p));
    assert_eq!(folded[0].pad_id, PadId::Crash);
    assert_eq!(folded[1].pad_id, PadId::RideBell);
}

#[test]
fn channel_specific_binding_wins_and_last_binding_counts() {
    let p = profile(vec![
        binding(PadId::Snare, 38, None),
        binding(PadId::TomHigh, 38, Some(2)),
        binding(PadId::Kick, 36, None),
        binding(PadId::FloorTom, 36, None),
    ]);
    assert_eq!(p.map_note(38, 2), Some(PadId::TomHigh));
    assert_eq!(p.map_note(38, 9), Some(PadId::Snare));
    assert_eq!(p.map_note(36, 9), Some(PadId::FloorTom));
    assert_eq!(p.map_note(40, 9), None);
}

#[test]
fn practice_needs_every_required_pad() {
    let mut bindings: Vec<PadBinding> = required_pads()
        .into_iter()
        .map(|pad| binding(pad, pad_to_gm_note(pad), None))
        .collect();
    assert!(profile(bindings.clone()).is_valid_for_practice());
    bindings.retain(|b| b.pad_id != PadId::Ride);
    bindings.push(binding(PadId::RideBell, 53, None));
    assert!(!profile(bindings).is_valid_for_practice());
    assert!(!profile(Vec::new()).is_valid_for_practice());
}

#[test]
fn judgement_windows() {
    assert_eq!(Judgement::from_abs_delta(0), Some(Judgement::Perfect));
    assert_eq!(Judgement::from_abs_delta(20), Some(Judgement::Perfect));
    assert_eq!(Judgement::from_abs_delta(21), Some(Judgement::Good));
    assert_eq!(Judgement::from_abs_delta(50), Some(Judgement::Good));
    assert_eq!(Judgement::from_abs_delta(51), Some(Judgement::Okay));
    assert_eq!(Judgement::from_abs_delta(80), Some(Judgement::Okay));
    assert_eq!(Judgement::from_abs_delta(81), None);
}

#[test]
fn counts_start_at_zero() {
    let c = HitCounts::default();
    assert_eq!(c, HitCounts::zero());
    assert_eq!(c.perfect + c.good + c.ok + c.miss + c.wrong + c.extra, 0);
}

#[test]
fn saved_profiles_get_ids_versions_and_stamps() {
    let mut p = profile(Vec::new());
    p.id = String::new();
    p.schema_version = 0;
    p.created_at = String::new();
    let saved = p.prepared_for_save("200".into());
    assert_eq!(saved.id.len(), 36);
    assert_eq!(saved.schema_version, 1);
    assert_eq!(saved.created_at, "200");
    assert_eq!(saved.updated_at, "200");
    assert_eq!(saved.name, "My kit");
    let again = saved.clone().prepared_for_save("300".into());
    assert_eq!(again.id, saved.id);
    assert_eq!(again.created_at, "200");
    assert_eq!(again.updated_at, "300");
    assert_eq!(again.schema_version, 1);
}
