use drumentor::domain::{ExpectedHit, Judgement, PadId};
use drumentor::hit_matcher::HitMatcher;

fn hit(uid: u64, pad: PadId, time_ms: u64) -> ExpectedHit {
    ExpectedHit {
        uid,
        pad_id: pad,
        time_ms,
        velocity: 100,
    }
}

fn matcher_at(hits: Vec<ExpectedHit>, pos: u64) -> HitMatcher {
    HitMatcher::start(&hits, pos, "0".into(), None, Some(0))
}

#[test]
fn exact_pad_delta_0_perfect() {
    let mut m = matcher_at(vec![hit(1, PadId::Snare, 1000)], 0);
    let ev = m.on_incoming(PadId::Snare, 1000);
    assert_eq!(ev.judgement, Judgement::Perfect);
    assert_eq!(ev.delta_ms, Some(0));
}

#[test]
fn delta_20_perfect_21_good() {
    let mut m = matcher_at(vec![hit(1, PadId::Snare, 1000)], 0);
    assert_eq!(
        m.on_incoming(PadId::Snare, 1020).judgement,
        Judgement::Perfect
    );

    let mut m = matcher_at(vec![hit(1, PadId::Snare, 1000)], 0);
    assert_eq!(m.on_incoming(PadId::Snare, 1021).judgement, Judgement::Good);
}

#[test]
fn delta_80_ok_81_no_match() {
    let mut m = matcher_at(vec![hit(1, PadId::Snare, 1000)], 0);
    assert_eq!(m.on_incoming(PadId::Snare, 1080).judgement, Judgement::Okay);

    let mut m = matcher_at(vec![hit(1, PadId::Snare, 1000)], 0);
    // Outside window with no nearby other: Extra
    assert_eq!(m.on_incoming(PadId::Snare, 1081).judgement, Judgement::Extra);
    // Original still open: Miss after expire
    let misses = m.expire_misses(1081);
    assert_eq!(misses.len(), 1);
    assert_eq!(misses[0].judgement, Judgement::Miss);
}

#[test]
fn two_expected_nearest() {
    let mut m = matcher_at(
        vec![hit(1, PadId::Snare, 1000), hit(2, PadId::Snare, 1100)],
        0,
    );
    let e1 = m.on_incoming(PadId::Snare, 1040);
    assert_eq!(e1.expected_uid, Some(1));
    let e2 = m.on_incoming(PadId::Snare, 1090);
    assert_eq!(e2.expected_uid, Some(2));
}

#[test]
fn extra_in_gap_not_miss() {
    let mut m = matcher_at(vec![hit(1, PadId::Snare, 1000)], 0);
    let ev = m.on_incoming(PadId::Snare, 500);
    assert_eq!(ev.judgement, Judgement::Extra);
    assert_eq!(m.live_counts().extra, 1);
    assert_eq!(m.live_counts().miss, 0);
}

#[test]
fn wrong_does_not_close_expected() {
    let mut m = matcher_at(vec![hit(1, PadId::Snare, 1000)], 0);
    let ev = m.on_incoming(PadId::Kick, 1005);
    assert_eq!(ev.judgement, Judgement::Wrong);
    assert_eq!(m.live_counts().wrong, 1);
    // Snare still open: can still hit
    let hit_ev = m.on_incoming(PadId::Snare, 1010);
    assert_eq!(hit_ev.judgement, Judgement::Perfect);
    assert_eq!(hit_ev.expected_uid, Some(1));
}

#[test]
fn wrong_then_miss_if_never_hit() {
    let mut m = matcher_at(vec![hit(1, PadId::Snare, 1000)], 0);
    let _ = m.on_incoming(PadId::Kick, 1005);
    let misses = m.expire_misses(1081);
    assert_eq!(misses.len(), 1);
    assert_eq!(m.live_counts().miss, 1);
    assert_eq!(m.live_counts().wrong, 1);
}

#[test]
fn seek_skips_without_miss() {
    let mut m = matcher_at(
        vec![hit(1, PadId::Snare, 1000), hit(2, PadId::Kick, 2000)],
        0,
    );
    m.reset_open_from(1500);
    let summary = m.finalize("1".into());
    // First skipped, second expired as Miss
    assert_eq!(summary.hit_counts.miss, 1);
    assert_eq!(summary.total_expected, 1);
}

#[test]
fn score_percent_weights() {
    let mut m = matcher_at(
        vec![hit(1, PadId::Snare, 1000), hit(2, PadId::Snare, 2000)],
        0,
    );
    let _ = m.on_incoming(PadId::Snare, 1000); // Perfect
    let _ = m.on_incoming(PadId::Snare, 2050); // Good (50ms)
    let summary = m.finalize("1".into());
    // points = 100 + 70 = 170; max = 200; pct = 85
    assert_eq!(summary.score_percent, 85);
    let note_accuracy = summary.note_hits as f64 / summary.total_expected as f64;
    assert!((note_accuracy - 1.0).abs() < f64::EPSILON);
}

#[test]
fn equal_distance_prefers_earlier_expected() {
    let mut m = matcher_at(
        vec![hit(7, PadId::Snare, 1040), hit(3, PadId::Snare, 960)],
        0,
    );
    let ev = m.on_incoming(PadId::Snare, 1000);
    assert_eq!(ev.expected_uid, Some(3));
    assert_eq!(ev.delta_ms, Some(40));
    assert_eq!(ev.judgement, Judgement::Good);
}

#[test]
fn matched_expected_is_closed_once() {
    let mut m = matcher_at(vec![hit(1, PadId::Kick, 1000)], 0);
    assert_eq!(m.on_incoming(PadId::Kick, 1000).expected_uid, Some(1));
    // The only kick is closed; a second kick nearby is Extra, not a second match.
    let ev = m.on_incoming(PadId::Kick, 1001);
    assert_eq!(ev.judgement, Judgement::Extra);
    assert_eq!(ev.expected_uid, None);
    assert!(m.expire_misses(5000).is_empty());
}

#[test]
fn start_skips_hits_before_position() {
    let mut m = matcher_at(
        vec![hit(1, PadId::Snare, 100), hit(2, PadId::Snare, 900)],
        500,
    );
    let misses = m.expire_misses(10_000);
    assert_eq!(misses.len(), 1);
    assert_eq!(misses[0].expected_uid, Some(2));
}

#[test]
fn wrong_and_misses_lower_score() {
    let mut m = matcher_at(
        vec![
            hit(1, PadId::Snare, 1000),
            hit(2, PadId::Kick, 2000),
            hit(3, PadId::Kick, 3000),
        ],
        0,
    );
    assert_eq!(m.on_incoming(PadId::Snare, 1070).judgement, Judgement::Okay);
    assert_eq!(m.on_incoming(PadId::Snare, 2000).judgement, Judgement::Wrong);
    let summary = m.finalize("9".into());
    // points = 40 - 20 = 20; max = 300; 6.67% -> 7
    assert_eq!(summary.total_expected, 3);
    assert_eq!(summary.hit_counts.miss, 2);
    assert_eq!(summary.score_percent, 7);
    assert_eq!(summary.timing_samples, 1);
    assert_eq!(summary.timing_sum_ms, 70);
    assert_eq!(summary.timing_abs_sum_ms, 70);
    assert_eq!(summary.id.len(), 36);
    let id: Vec<char> = summary.id.chars().collect();
    for (i, c) in id.iter().enumerate() {
        if [8, 13, 18, 23].contains(&i) {
            assert_eq!(*c, '-');
        } else {
            assert!(c.is_ascii_digit() || ('a'..='f').contains(c));
        }
    }
    assert_eq!(id[14], '4');
    assert!(['8', '9', 'a', 'b'].contains(&id[19]));
    assert!(!m.is_active());
}

#[test]
fn negative_points_floor_at_zero() {
    let mut m = matcher_at(vec![hit(1, PadId::Snare, 1000)], 0);
    let _ = m.on_incoming(PadId::Kick, 1000);
    let summary = m.finalize("2".into());
    assert_eq!(summary.score_percent, 0);
    assert_eq!(summary.note_hits, 0);
}

#[test]
fn any_hit_fits_a_fresh_run() {
    let m = matcher_at(vec![hit(0, PadId::Kick, 1000)], 0);
    assert!(m.can_tally(PadId::Kick, 1000));
    assert!(m.can_tally(PadId::Snare, 1000));
    assert!(m.can_tally(PadId::Snare, 5000));
}
