//! Matching of incoming pad hits against the expected timeline, and session scoring.

use vstd::prelude::*;

use crate::domain::{
    is_uuid_v4_text, new_uuid_v4, spec_from_abs_delta, zero_counts, ExpectedHit, HitCounts, Judgement, JudgementEvent, PadId,
    WINDOW_OK_MS,
};

verus! {

/// Lifecycle of one expected hit inside a practice run.
#[derive(Debug, Clone, Copy, PartialEq, Eq, Structural)]
pub enum SlotState {
    Open,
    Matched,
    Missed,
    Skipped,
}

/// One expected hit together with its matching state.
#[derive(Debug, Clone, Copy, PartialEq, Eq, Structural)]
pub struct ExpectedSlot {
    pub uid: u64,
    pub pad_id: PadId,
    pub time_ms: u64,
    pub state: SlotState,
}

/// Abstract state of a matcher.
pub struct MatcherView {
    pub slots: Seq<ExpectedSlot>,
    pub counts: HitCounts,
    pub deltas: Seq<i64>,
    pub active: bool,
    pub started_at: Seq<char>,
    pub song_path: Option<Seq<char>>,
    pub drum_track_id: Option<u16>,
}

/// Matches incoming pad hits against the expected timeline.
#[derive(Debug)]
pub struct HitMatcher {
    slots: Vec<ExpectedSlot>,
    counts: HitCounts,
    timing_deltas: Vec<i64>,
    started_at: String,
    song_path: Option<String>,
    drum_track_id: Option<u16>,
    active: bool,
}

pub open spec fn opt_view(s: Option<String>) -> Option<Seq<char>> {
    match s {
        Some(v) => Some(v@),
        None => None,
    }
}

impl View for HitMatcher {
    type V = MatcherView;

    closed spec fn view(&self) -> MatcherView {
        MatcherView {
            slots: self.slots@,
            counts: self.counts,
            deltas: self.timing_deltas@,
            active: self.active,
            started_at: self.started_at@,
            song_path: opt_view(self.song_path),
            drum_track_id: self.drum_track_id,
        }
    }
}

pub open spec fn abs_int(x: int) -> int {
    if x < 0 {
        -x
    } else {
        x
    }
}

/// Signed timing error of a hit at `t` against a slot.
pub open spec fn slot_delta(slot: ExpectedSlot, t: u64) -> int {
    t as int - slot.time_ms as int
}

/// An open slot of the same pad within the Ok window.
pub open spec fn is_candidate(slot: ExpectedSlot, pad: PadId, t: u64) -> bool {
    &&& slot.state == SlotState::Open
    &&& slot.pad_id == pad
    &&& abs_int(slot_delta(slot, t)) <= WINDOW_OK_MS
}

/// Slot `i` is at least as good a match as slot `j`: nearer, then earlier, then lower index.
pub open spec fn no_worse(slots: Seq<ExpectedSlot>, t: u64, i: int, j: int) -> bool {
    let ai = abs_int(slot_delta(slots[i], t));
    let aj = abs_int(slot_delta(slots[j], t));
    ||| ai < aj
    ||| ai == aj && slots[i].time_ms < slots[j].time_ms
    ||| ai == aj && slots[i].time_ms == slots[j].time_ms && i <= j
}

/// Slot `i` is the match an incoming hit on `pad` at `t` closes.
pub open spec fn is_best(slots: Seq<ExpectedSlot>, pad: PadId, t: u64, i: int) -> bool {
    &&& 0 <= i < slots.len()
    &&& is_candidate(slots[i], pad, t)
    &&& forall|j: int| 0 <= j < slots.len() && is_candidate(slots[j], pad, t) ==> no_worse(slots, t, i, j)
}

pub open spec fn has_candidate(slots: Seq<ExpectedSlot>, pad: PadId, t: u64) -> bool {
    exists|i: int| 0 <= i < slots.len() && is_candidate(slots[i], pad, t)
}

/// The slot an incoming hit closes (meaningful when a candidate exists).
pub open spec fn best_index(slots: Seq<ExpectedSlot>, pad: PadId, t: u64) -> int {
    choose|i: int| is_best(slots, pad, t, i)
}

/// An open slot of another pad lies within the Ok window of `t`.
pub open spec fn wrong_nearby(slots: Seq<ExpectedSlot>, pad: PadId, t: u64) -> bool {
    exists|i: int|
        0 <= i < slots.len() && slots[i].state == SlotState::Open && slots[i].pad_id != pad
            && abs_int(#[trigger] slot_delta(slots[i], t)) <= WINDOW_OK_MS
}

/// The judgement a match earns (a match always lies within the Ok window).
pub open spec fn match_judgement(abs_delta: int) -> Judgement {
    match spec_from_abs_delta(abs_delta) {
        Some(j) => j,
        None => Judgement::Okay,
    }
}

/// Tallies after one more judgement.
pub open spec fn bump_counts(c: HitCounts, j: Judgement) -> HitCounts {
    match j {
        Judgement::Perfect => HitCounts { perfect: (c.perfect + 1) as u32, ..c },
        Judgement::Good => HitCounts { good: (c.good + 1) as u32, ..c },
        Judgement::Okay => HitCounts { ok: (c.ok + 1) as u32, ..c },
        Judgement::Miss => HitCounts { miss: (c.miss + 1) as u32, ..c },
        Judgement::Wrong => HitCounts { wrong: (c.wrong + 1) as u32, ..c },
        Judgement::Extra => HitCounts { extra: (c.extra + 1) as u32, ..c },
    }
}

/// Number of slots in a given state.
pub open spec fn count_state(slots: Seq<ExpectedSlot>, st: SlotState) -> nat
    decreases slots.len(),
{
    if slots.len() == 0 {
        0
    } else {
        count_state(slots.drop_last(), st) + if slots.last().state == st {
            1nat
        } else {
            0nat
        }
    }
}

/// Largest slot time for which the timing arithmetic stays inside `i64`.
pub open spec fn time_fits(t: u64) -> bool {
    t as int + WINDOW_OK_MS + 1 <= i64::MAX
}

/// Initial state of a slot for a run that starts at `position_ms`.
pub open spec fn start_slot(h: ExpectedHit, position_ms: u64) -> ExpectedSlot {
    ExpectedSlot {
        uid: h.uid,
        pad_id: h.pad_id,
        time_ms: h.time_ms,
        state: if h.time_ms < position_ms {
            SlotState::Skipped
        } else {
            SlotState::Open
        },
    }
}

/// Slot state after a seek to `position_ms`: closed slots keep their judgement.
pub open spec fn reset_slot(s: ExpectedSlot, position_ms: u64) -> ExpectedSlot {
    match s.state {
        SlotState::Matched | SlotState::Missed => s,
        _ => ExpectedSlot {
            state: if s.time_ms < position_ms {
                SlotState::Skipped
            } else {
                SlotState::Open
            },
            ..s
        },
    }
}

/// An open slot is overdue once `now` passes its time plus the Ok window.
pub open spec fn overdue(s: ExpectedSlot, now: u64) -> bool {
    s.state == SlotState::Open && now as int > s.time_ms as int + WINDOW_OK_MS
}

pub open spec fn expire_slot(s: ExpectedSlot, now: u64) -> ExpectedSlot {
    if overdue(s, now) {
        ExpectedSlot { state: SlotState::Missed, ..s }
    } else {
        s
    }
}

pub open spec fn miss_event(s: ExpectedSlot) -> JudgementEvent {
    JudgementEvent {
        expected_uid: Some(s.uid),
        pad_id: s.pad_id,
        judgement: Judgement::Miss,
        delta_ms: None,
    }
}

/// Miss events, in slot order, for the slots overdue at `now`.
pub open spec fn expired_events(slots: Seq<ExpectedSlot>, now: u64) -> Seq<JudgementEvent>
    decreases slots.len(),
{
    if slots.len() == 0 {
        Seq::empty()
    } else if overdue(slots.last(), now) {
        expired_events(slots.drop_last(), now).push(miss_event(slots.last()))
    } else {
        expired_events(slots.drop_last(), now)
    }
}

/// Sum of a sequence of timing deltas.
pub open spec fn sum_deltas(d: Seq<i64>) -> int
    decreases d.len(),
{
    if d.len() == 0 {
        0
    } else {
        sum_deltas(d.drop_last()) + d.last()
    }
}

/// Sum of the absolute timing deltas.
pub open spec fn sum_abs_deltas(d: Seq<i64>) -> int
    decreases d.len(),
{
    if d.len() == 0 {
        0
    } else {
        sum_abs_deltas(d.drop_last()) + abs_int(d.last() as int)
    }
}

/// Weighted points: Perfect 100, Good 70, Ok 40, Miss 0, Wrong -20.
pub open spec fn score_points(c: HitCounts) -> int {
    c.perfect * 100 + c.good * 70 + c.ok * 40 - c.wrong * 20
}

/// `clamp(0, 100, round(100 * points / (total * 100)))`, rounding halves away from zero.
pub open spec fn spec_score_percent(points: int, total: int) -> int {
    if total <= 0 || points <= 0 {
        0
    } else if (2 * points + total) / (2 * total) > 100 {
        100
    } else {
        (2 * points + total) / (2 * total)
    }
}

/// Matcher after a seek to `position_ms`.
pub open spec fn reset_view(m: MatcherView, position_ms: u64) -> MatcherView {
    MatcherView { slots: m.slots.map_values(|s: ExpectedSlot| reset_slot(s, position_ms)), ..m }
}

/// Matcher after expiring the slots overdue at `now`.
pub open spec fn expire_view(m: MatcherView, now: u64) -> MatcherView {
    MatcherView {
        slots: m.slots.map_values(|s: ExpectedSlot| expire_slot(s, now)),
        counts: HitCounts { miss: (m.counts.miss + expired_events(m.slots, now).len()) as u32, ..m.counts },
        ..m
    }
}

/// Matcher and judgement after a hit on `pad_id` at session time `t`: the nearest open slot
/// of that pad within the Ok window is matched; otherwise Wrong when another pad's open slot
/// is that near, else Extra.
pub open spec fn judged_view(m: MatcherView, pad_id: PadId, t: u64) -> (MatcherView, JudgementEvent) {
    let slots = m.slots;
    if has_candidate(slots, pad_id, t) {
        let i = best_index(slots, pad_id, t);
        let d = slot_delta(slots[i], t);
        let j = match_judgement(abs_int(d));
        (
            MatcherView {
                slots: slots.update(i, ExpectedSlot { state: SlotState::Matched, ..slots[i] }),
                counts: bump_counts(m.counts, j),
                deltas: m.deltas.push(d as i64),
                ..m
            },
            JudgementEvent { expected_uid: Some(slots[i].uid), pad_id, judgement: j, delta_ms: Some(d as i64) },
        )
    } else {
        let j = if wrong_nearby(slots, pad_id, t) {
            Judgement::Wrong
        } else {
            Judgement::Extra
        };
        (
            MatcherView { counts: bump_counts(m.counts, j), ..m },
            JudgementEvent { expected_uid: None, pad_id, judgement: j, delta_ms: None },
        )
    }
}

/// A hit on `pad_id` at `t` would be judged Wrong.
pub open spec fn wrong_would_count(m: MatcherView, pad_id: PadId, t: u64) -> bool {
    !has_candidate(m.slots, pad_id, t) && wrong_nearby(m.slots, pad_id, t)
}

/// A hit on `pad_id` at `t` would be judged Extra.
pub open spec fn extra_would_count(m: MatcherView, pad_id: PadId, t: u64) -> bool {
    !has_candidate(m.slots, pad_id, t) && !wrong_nearby(m.slots, pad_id, t)
}

/// Matcher after the run is finalized: what is still open is missed, and it is no longer active.
pub open spec fn finalized_view(m: MatcherView) -> MatcherView {
    MatcherView {
        slots: m.slots.map_values(
            |s: ExpectedSlot|
                if s.state == SlotState::Open {
                    ExpectedSlot { state: SlotState::Missed, ..s }
                } else {
                    s
                },
        ),
        counts: HitCounts { miss: (m.counts.miss + count_state(m.slots, SlotState::Open)) as u32, ..m.counts },
        active: false,
        ..m
    }
}

/// A run stays active through hits, expiries and seeks (and `start` makes it active);
/// finalizing ends it.
pub proof fn lemma_active_until_finalized(m: MatcherView, pad_id: PadId, t: u64, now: u64, position_ms: u64)
    ensures
        judged_view(m, pad_id, t).0.active == m.active,
        expire_view(m, now).active == m.active,
        reset_view(m, position_ms).active == m.active,
        !finalized_view(m).active,
{
}

/// A call on a running matcher other than `finalize`: a hit, an expiry, a seek, or reading
/// the tallies.
#[derive(Debug, Clone, Copy)]
pub enum MatcherStep {
    Hit(PadId, u64),
    Expire(u64),
    Seek(u64),
    ReadCounts,
}

/// Matcher state after one step (as `on_incoming`, `expire_misses`, `reset_open_from` and
/// `live_counts` state it).
pub open spec fn after_step(m: MatcherView, step: MatcherStep) -> MatcherView {
    match step {
        MatcherStep::Hit(pad_id, t) => judged_view(m, pad_id, t).0,
        MatcherStep::Expire(now) => expire_view(m, now),
        MatcherStep::Seek(position_ms) => reset_view(m, position_ms),
        MatcherStep::ReadCounts => m,
    }
}

/// Matcher state after a sequence of steps, in order.
pub open spec fn after_steps(m: MatcherView, steps: Seq<MatcherStep>) -> MatcherView
    decreases steps.len(),
{
    if steps.len() == 0 {
        m
    } else {
        after_step(after_steps(m, steps.drop_last()), steps.last())
    }
}

/// Over any sequence of hits, expiries, seeks and tally reads a run keeps its active flag
/// (a run made by `start` stays active), and finalizing afterwards ends it.
pub proof fn lemma_active_through_steps(m: MatcherView, steps: Seq<MatcherStep>)
    ensures
        after_steps(m, steps).active == m.active,
        !finalized_view(after_steps(m, steps)).active,
    decreases steps.len(),
{
    if steps.len() > 0 {
        lemma_active_through_steps(m, steps.drop_last());
    }
}

/// The summary a run in state `m` yields when finalized at `ended_at`.
pub open spec fn summary_of(r: SessionSummary, m: MatcherView, ended_at: Seq<char>) -> bool {
    let f = finalized_view(m);
    let c = f.counts;
    &&& r.hit_counts == c
    &&& r.total_expected == c.perfect + c.good + c.ok + c.miss
    &&& r.note_hits == c.perfect + c.good + c.ok
    &&& r.timing_samples == m.deltas.len()
    &&& r.timing_sum_ms == sum_deltas(m.deltas)
    &&& r.timing_abs_sum_ms == sum_abs_deltas(m.deltas)
    &&& r.score_percent == spec_score_percent(score_points(c), r.total_expected as int)
    &&& 0 <= r.score_percent <= 100
    &&& r.started_at@ == m.started_at
    &&& opt_view(r.song_path) == m.song_path
    &&& r.drum_track_id == m.drum_track_id
    &&& r.ended_at@ == ended_at
    &&& is_uuid_v4_text(r.id@)
}

/// Final numbers of a practice run. Ratios are given as numerator and denominator.
#[derive(Debug, Clone)]
pub struct SessionSummary {
    pub id: String,
    pub song_path: Option<String>,
    pub drum_track_id: Option<u16>,
    pub started_at: String,
    pub ended_at: String,
    pub total_expected: u32,
    pub hit_counts: HitCounts,
    /// Perfect + Good + Ok; note accuracy is `note_hits / total_expected` (0 when no hits expected).
    pub note_hits: u32,
    /// Number of timed hits; timing means are the sums divided by this (none when zero).
    pub timing_samples: u64,
    pub timing_sum_ms: i64,
    pub timing_abs_sum_ms: i64,
    pub score_percent: u32,
}

impl HitMatcher {
    /// Internal consistency: every judgement tally matches the slots it closed.
    pub closed spec fn wf(&self) -> bool {
        &&& self.slots@.len() <= u32::MAX
        &&& forall|i: int| 0 <= i < self.slots@.len() ==> time_fits(#[trigger] self.slots@[i].time_ms)
        &&& self.counts.perfect + self.counts.good + self.counts.ok == count_state(
            self.slots@,
            SlotState::Matched,
        )
        &&& self.counts.miss == count_state(self.slots@, SlotState::Missed)
        &&& self.timing_deltas@.len() == count_state(self.slots@, SlotState::Matched)
        &&& forall|k: int|
            0 <= k < self.timing_deltas@.len() ==> -WINDOW_OK_MS <= #[trigger] self.timing_deltas@[k]
                <= WINDOW_OK_MS
    }

    /// Judgement tallies equal the number of slots matched and missed.
    pub proof fn lemma_counts_match_slots(&self)
        requires
            self.wf(),
        ensures
            self@.counts.perfect + self@.counts.good + self@.counts.ok == count_state(
                self@.slots,
                SlotState::Matched,
            ),
            self@.counts.miss == count_state(self@.slots, SlotState::Missed),
            self@.deltas.len() == count_state(self@.slots, SlotState::Matched),
            self@.slots.len() <= u32::MAX,
            forall|i: int| 0 <= i < self@.slots.len() ==> time_fits(#[trigger] self@.slots[i].time_ms),
            forall|k: int|
                0 <= k < self@.deltas.len() ==> -WINDOW_OK_MS <= #[trigger] self@.deltas[k]
                    <= WINDOW_OK_MS,
    {
    }

    /// Start a practice run at `position_ms`; hits before it are skipped.
    pub fn start(
        expected: &[ExpectedHit],
        position_ms: u64,
        started_at: String,
        song_path: Option<String>,
        drum_track_id: Option<u16>,
    ) -> (r: HitMatcher)
        requires
            expected@.len() <= u32::MAX,
            forall|i: int| 0 <= i < expected@.len() ==> time_fits(#[trigger] expected@[i].time_ms),
        ensures
            r.wf(),
            r@.slots.len() == expected@.len(),
            forall|i: int| 0 <= i < expected@.len() ==> r@.slots[i] == start_slot(expected@[i], position_ms),
            r@.counts == zero_counts(),
            r@.deltas.len() == 0,
            r@.active,
            r@.started_at == started_at@,
            r@.song_path == opt_view(song_path),
            r@.drum_track_id == drum_track_id,
    {
        let mut slots: Vec<ExpectedSlot> = Vec::new();
        let mut i: usize = 0;
        while i < expected.len()
            invariant
                0 <= i <= expected@.len(),
                slots@.len() == i,
                forall|k: int| 0 <= k < i ==> slots@[k] == start_slot(expected@[k], position_ms),
                count_state(slots@, SlotState::Matched) == 0,
                count_state(slots@, SlotState::Missed) == 0,
            decreases expected@.len() - i,
        {
            let h = expected[i];
            let slot = ExpectedSlot {
                uid: h.uid,
                pad_id: h.pad_id,
                time_ms: h.time_ms,
                state: if h.time_ms < position_ms {
                    SlotState::Skipped
                } else {
                    SlotState::Open
                },
            };
            let ghost before = slots@;
            slots.push(slot);
            assert(slots@.drop_last() =~= before);
            i = i + 1;
        }
        HitMatcher {
            slots,
            counts: HitCounts::zero(),
            timing_deltas: Vec::new(),
            started_at,
            song_path,
            drum_track_id,
            active: true,
        }
    }

    /// Whether the run is still live (not yet finalized).
    pub fn is_active(&self) -> (r: bool)
        ensures
            r == self@.active,
    {
        self.active
    }

    /// Current judgement tallies.
    pub fn live_counts(&self) -> (r: HitCounts)
        ensures
            r == self@.counts,
    {
        self.counts
    }

    /// Seek: keep past judgements; re-open or skip the rest relative to the new position.
    pub fn reset_open_from(&mut self, position_ms: u64)
        requires
            old(self).wf(),
        ensures
            final(self).wf(),
            final(self)@.slots.len() == old(self)@.slots.len(),
            forall|i: int|
                0 <= i < old(self)@.slots.len() ==> final(self)@.slots[i] == reset_slot(
                    old(self)@.slots[i],
                    position_ms,
                ),
            final(self)@.counts == old(self)@.counts,
            final(self)@.deltas == old(self)@.deltas,
            final(self)@.active == old(self)@.active,
            final(self)@.started_at == old(self)@.started_at,
            final(self)@.song_path == old(self)@.song_path,
            final(self)@.drum_track_id == old(self)@.drum_track_id,
            final(self)@ == reset_view(old(self)@, position_ms),
    {
        let mut i: usize = 0;
        while i < self.slots.len()
            invariant
                0 <= i <= self.slots@.len(),
                self.slots@.len() == old(self).slots@.len(),
                forall|k: int| 0 <= k < i ==> self.slots@[k] == reset_slot(old(self).slots@[k], position_ms),
                forall|k: int| i <= k < self.slots@.len() ==> self.slots@[k] == old(self).slots@[k],
                count_state(self.slots@, SlotState::Matched) == count_state(old(self).slots@, SlotState::Matched),
                count_state(self.slots@, SlotState::Missed) == count_state(old(self).slots@, SlotState::Missed),
                self.counts == old(self).counts,
                self.timing_deltas == old(self).timing_deltas,
                self.active == old(self).active,
                self.started_at == old(self).started_at,
                self.song_path == old(self).song_path,
                self.drum_track_id == old(self).drum_track_id,
            decreases self.slots@.len() - i,
        {
            let slot = self.slots[i];
            let new_slot = match slot.state {
                SlotState::Matched | SlotState::Missed => slot,
                SlotState::Open | SlotState::Skipped => {
                    if slot.time_ms < position_ms {
                        ExpectedSlot { state: SlotState::Skipped, ..slot }
                    } else {
                        ExpectedSlot { state: SlotState::Open, ..slot }
                    }
                },
            };
            proof {
                lemma_count_update(self.slots@, i as int, new_slot, SlotState::Matched);
                lemma_count_update(self.slots@, i as int, new_slot, SlotState::Missed);
            }
            self.slots.set(i, new_slot);
            i = i + 1;
        }
        assert(self.slots@ =~= old(self).slots@.map_values(|s: ExpectedSlot| reset_slot(s, position_ms)));
    }

    /// Judge one incoming hit on `pad_id` at session time `session_time_ms`.
    pub fn on_incoming(&mut self, pad_id: PadId, session_time_ms: u64) -> (ev: JudgementEvent)
        requires
            old(self).wf(),
            session_time_ms <= i64::MAX,
            wrong_would_count(old(self)@, pad_id, session_time_ms) ==> old(self)@.counts.wrong < u32::MAX,
            extra_would_count(old(self)@, pad_id, session_time_ms) ==> old(self)@.counts.extra < u32::MAX,
        ensures
            final(self).wf(),
            final(self)@.active == old(self)@.active,
            final(self)@.started_at == old(self)@.started_at,
            final(self)@.song_path == old(self)@.song_path,
            final(self)@.drum_track_id == old(self)@.drum_track_id,
            (final(self)@, ev) == judged_view(old(self)@, pad_id, session_time_ms),
            ({
                let slots = old(self)@.slots;
                let t = session_time_ms;
                if has_candidate(slots, pad_id, t) {
                    let i = best_index(slots, pad_id, t);
                    let d = slot_delta(slots[i], t);
                    let j = match_judgement(abs_int(d));
                    &&& is_best(slots, pad_id, t, i)
                    &&& ev == JudgementEvent {
                        expected_uid: Some(slots[i].uid),
                        pad_id,
                        judgement: j,
                        delta_ms: Some(d as i64),
                    }
                    &&& final(self)@.slots == slots.update(
                        i,
                        ExpectedSlot { state: SlotState::Matched, ..slots[i] },
                    )
                    &&& final(self)@.counts == bump_counts(old(self)@.counts, j)
                    &&& final(self)@.deltas == old(self)@.deltas.push(d as i64)
                } else {
                    let j = if wrong_nearby(slots, pad_id, t) {
                        Judgement::Wrong
                    } else {
                        Judgement::Extra
                    };
                    &&& ev == JudgementEvent {
                        expected_uid: None,
                        pad_id,
                        judgement: j,
                        delta_ms: None,
                    }
                    &&& final(self)@.slots == slots
                    &&& final(self)@.counts == bump_counts(old(self)@.counts, j)
                    &&& final(self)@.deltas == old(self)@.deltas
                }
            }),
    {
        let t_in = session_time_ms as i64;
        let window = WINDOW_OK_MS;
        let ghost slots = self.slots@;
        let mut best: Option<(usize, i64)> = None;
        let mut idx: usize = 0;
        while idx < self.slots.len()
            invariant
                self.wf(),
                self.slots@ == slots,
                t_in as int == session_time_ms as int,
                window == WINDOW_OK_MS,
                0 <= idx <= slots.len(),
                best is None ==> forall|j: int| 0 <= j < idx ==> !is_candidate(#[trigger] slots[j], pad_id, session_time_ms),
                best matches Some((b, d)) ==> {
                    &&& b < idx
                    &&& is_candidate(slots[b as int], pad_id, session_time_ms)
                    &&& d as int == slot_delta(slots[b as int], session_time_ms)
                    &&& forall|j: int|
                        0 <= j < idx && is_candidate(slots[j], pad_id, session_time_ms) ==> no_worse(
                            slots,
                            session_time_ms,
                            b as int,
                            j,
                        )
                },
            decreases slots.len() - idx,
        {
            let slot = self.slots[idx];
            assert(time_fits(slots[idx as int].time_ms));
            if slot.state == SlotState::Open && slot.pad_id == pad_id {
                let delta = t_in - slot.time_ms as i64;
                let abs = if delta < 0 {
                    -delta
                } else {
                    delta
                };
                if abs <= window {
                    match best {
                        None => {
                            best = Some((idx, delta));
                        },
                        Some((best_idx, best_delta)) => {
                            let best_abs = if best_delta < 0 {
                                -best_delta
                            } else {
                                best_delta
                            };
                            let ghost b = best_idx as int;
                            if abs < best_abs || (abs == best_abs && slot.time_ms
                                < self.slots[best_idx].time_ms) {
                                proof {
                                    assert forall|j: int|
                                        0 <= j < idx + 1 && is_candidate(
                                            slots[j],
                                            pad_id,
                                            session_time_ms,
                                        ) implies no_worse(slots, session_time_ms, idx as int, j) by {
                                        if j < idx {
                                            assert(no_worse(slots, session_time_ms, b, j));
                                        }
                                    }
                                }
                                best = Some((idx, delta));
                            } else {
                                proof {
                                    assert(no_worse(slots, session_time_ms, b, idx as int));
                                    assert forall|j: int|
                                        0 <= j < idx + 1 && is_candidate(
                                            slots[j],
                                            pad_id,
                                            session_time_ms,
                                        ) implies no_worse(slots, session_time_ms, b, j) by {
                                        if j < idx {
                                            assert(no_worse(slots, session_time_ms, b, j));
                                        }
                                    }
                                }
                            }
                        },
                    }
                }
            }
            idx = idx + 1;
        }
        if let Some((bi, delta)) = best {
            proof {
                assert(is_best(slots, pad_id, session_time_ms, bi as int));
                lemma_best_unique(slots, pad_id, session_time_ms, bi as int);
            }
            let abs = if delta < 0 {
                -delta
            } else {
                delta
            };
            let judgement = match Judgement::from_abs_delta(abs) {
                Some(j) => j,
                None => Judgement::Okay,
            };
            let uid = self.slots[bi].uid;
            let old_slot = self.slots[bi];
            let new_slot = ExpectedSlot { state: SlotState::Matched, ..old_slot };
            proof {
                lemma_count_update(slots, bi as int, new_slot, SlotState::Matched);
                lemma_count_update(slots, bi as int, new_slot, SlotState::Missed);
                lemma_count_update(slots, bi as int, new_slot, SlotState::Open);
                lemma_count_le_len(slots, SlotState::Matched);
                lemma_count_partition(slots);
            }
            self.slots.set(bi, new_slot);
            self.bump(judgement);
            let ghost dl = self.timing_deltas@;
            self.timing_deltas.push(delta);
            proof {
                assert forall|k: int| 0 <= k < self.timing_deltas@.len() implies -WINDOW_OK_MS
                    <= #[trigger] self.timing_deltas@[k] <= WINDOW_OK_MS by {
                    if k < dl.len() {
                        assert(self.timing_deltas@[k] == dl[k]);
                    }
                }
                assert forall|i: int| 0 <= i < self.slots@.len() implies time_fits(
                    #[trigger] self.slots@[i].time_ms,
                ) by {
                    assert(time_fits(slots[i].time_ms));
                }
            }
            return JudgementEvent {
                expected_uid: Some(uid),
                pad_id,
                judgement,
                delta_ms: Some(delta),
            };
        }
        let nearby_other = self.any_other_open_nearby(pad_id, t_in);
        if nearby_other {
            self.bump(Judgement::Wrong);
            JudgementEvent { expected_uid: None, pad_id, judgement: Judgement::Wrong, delta_ms: None }
        } else {
            self.bump(Judgement::Extra);
            JudgementEvent { expected_uid: None, pad_id, judgement: Judgement::Extra, delta_ms: None }
        }
    }

    /// Whether a hit on `pad_id` at `t` can be tallied: when it would be judged Wrong or
    /// Extra, that counter is still below its limit (matches always fit).
    pub fn can_tally(&self, pad_id: PadId, t: u64) -> (r: bool)
        requires
            self.wf(),
            t <= i64::MAX,
        ensures
            r == ((wrong_would_count(self@, pad_id, t) ==> self@.counts.wrong < u32::MAX) && (
            extra_would_count(self@, pad_id, t) ==> self@.counts.extra < u32::MAX)),
    {
        if self.any_candidate(pad_id, t as i64) {
            return true;
        }
        if self.any_other_open_nearby(pad_id, t as i64) {
            self.counts.wrong < u32::MAX
        } else {
            self.counts.extra < u32::MAX
        }
    }

    fn any_candidate(&self, pad_id: PadId, t_in: i64) -> (r: bool)
        requires
            self.wf(),
            t_in >= 0,
        ensures
            r == has_candidate(self@.slots, pad_id, t_in as u64),
    {
        let mut i: usize = 0;
        while i < self.slots.len()
            invariant
                self.wf(),
                t_in >= 0,
                0 <= i <= self.slots@.len(),
                forall|k: int| 0 <= k < i ==> !is_candidate(#[trigger] self.slots@[k], pad_id, t_in as u64),
            decreases self.slots@.len() - i,
        {
            let slot = self.slots[i];
            assert(time_fits(self.slots@[i as int].time_ms));
            if slot.state == SlotState::Open && slot.pad_id == pad_id {
                let d = t_in - slot.time_ms as i64;
                let a = if d < 0 {
                    -d
                } else {
                    d
                };
                if a <= WINDOW_OK_MS {
                    assert(slot_delta(self.slots@[i as int], t_in as u64) == d);
                    assert(is_candidate(self.slots@[i as int], pad_id, t_in as u64));
                    return true;
                }
            }
            i = i + 1;
        }
        false
    }

    fn any_other_open_nearby(&self, pad_id: PadId, t_in: i64) -> (r: bool)
        requires
            self.wf(),
            t_in >= 0,
        ensures
            r == wrong_nearby(self@.slots, pad_id, t_in as u64),
    {
        let mut i: usize = 0;
        while i < self.slots.len()
            invariant
                self.wf(),
                t_in >= 0,
                0 <= i <= self.slots@.len(),
                forall|k: int|
                    0 <= k < i ==> !(self.slots@[k].state == SlotState::Open && self.slots@[k].pad_id
                        != pad_id && abs_int(#[trigger] slot_delta(self.slots@[k], t_in as u64))
                        <= WINDOW_OK_MS),
            decreases self.slots@.len() - i,
        {
            let slot = self.slots[i];
            assert(time_fits(self.slots@[i as int].time_ms));
            if slot.state == SlotState::Open && slot.pad_id != pad_id {
                let d = t_in - slot.time_ms as i64;
                let a = if d < 0 {
                    -d
                } else {
                    d
                };
                if a <= WINDOW_OK_MS {
                    assert(slot_delta(self.slots@[i as int], t_in as u64) == d);
                    return true;
                }
            }
            i = i + 1;
        }
        false
    }

    /// Expire overdue open slots as Miss and return their events in slot order.
    pub fn expire_misses(&mut self, now_ms: u64) -> (events: Vec<JudgementEvent>)
        requires
            old(self).wf(),
            now_ms <= i64::MAX,
        ensures
            final(self).wf(),
            final(self)@.slots.len() == old(self)@.slots.len(),
            forall|i: int|
                0 <= i < old(self)@.slots.len() ==> final(self)@.slots[i] == expire_slot(
                    old(self)@.slots[i],
                    now_ms,
                ),
            events@ == expired_events(old(self)@.slots, now_ms),
            final(self)@ == expire_view(old(self)@, now_ms),
            final(self)@.counts == (HitCounts {
                miss: (old(self)@.counts.miss + events@.len()) as u32,
                ..old(self)@.counts
            }),
            final(self)@.deltas == old(self)@.deltas,
            final(self)@.active == old(self)@.active,
            final(self)@.started_at == old(self)@.started_at,
            final(self)@.song_path == old(self)@.song_path,
            final(self)@.drum_track_id == old(self)@.drum_track_id,
    {
        let mut events: Vec<JudgementEvent> = Vec::new();
        let now = now_ms as i64;
        let ghost old_slots = self.slots@;
        let mut i: usize = 0;
        proof {
            lemma_count_partition(old_slots);
        }
        while i < self.slots.len()
            invariant
                0 <= i <= self.slots@.len(),
                now as int == now_ms as int,
                self.slots@.len() == old_slots.len(),
                old_slots == old(self).slots@,
                old_slots.len() <= u32::MAX,
                forall|k: int| 0 <= k < old_slots.len() ==> time_fits(#[trigger] old_slots[k].time_ms),
                forall|k: int| 0 <= k < i ==> self.slots@[k] == expire_slot(old_slots[k], now_ms),
                forall|k: int| i <= k < self.slots@.len() ==> self.slots@[k] == old_slots[k],
                events@ == expired_events(old_slots.take(i as int), now_ms),
                count_state(self.slots@, SlotState::Matched) == count_state(old_slots, SlotState::Matched),
                count_state(self.slots@, SlotState::Missed) == count_state(old_slots, SlotState::Missed) + events@.len(),
                count_state(self.slots@, SlotState::Missed) + count_state(self.slots@, SlotState::Open) <= old_slots.len(),
                self.counts == (HitCounts { miss: (old(self).counts.miss + events@.len()) as u32, ..old(self).counts }),
                old(self).counts.miss == count_state(old_slots, SlotState::Missed),
                self.timing_deltas == old(self).timing_deltas,
                self.active == old(self).active,
                self.started_at == old(self).started_at,
                self.song_path == old(self).song_path,
                self.drum_track_id == old(self).drum_track_id,
            decreases self.slots@.len() - i,
        {
            let slot = self.slots[i];
            assert(old_slots.take(i + 1).drop_last() =~= old_slots.take(i as int));
            assert(time_fits(old_slots[i as int].time_ms));
            if slot.state == SlotState::Open && now > slot.time_ms as i64 + WINDOW_OK_MS {
                let new_slot = ExpectedSlot { state: SlotState::Missed, ..slot };
                proof {
                    lemma_count_update(self.slots@, i as int, new_slot, SlotState::Matched);
                    lemma_count_update(self.slots@, i as int, new_slot, SlotState::Missed);
                    lemma_count_update(self.slots@, i as int, new_slot, SlotState::Open);
                }
                self.slots.set(i, new_slot);
                self.counts.miss = self.counts.miss + 1;
                events.push(
                    JudgementEvent {
                        expected_uid: Some(slot.uid),
                        pad_id: slot.pad_id,
                        judgement: Judgement::Miss,
                        delta_ms: None,
                    },
                );
            }
            i = i + 1;
        }
        assert(old_slots.take(old_slots.len() as int) =~= old_slots);
        assert(self.slots@ =~= old_slots.map_values(|s: ExpectedSlot| expire_slot(s, now_ms)));
        events
    }

    /// Expire what is still open as Miss, build the summary and deactivate the run.
    pub fn finalize(&mut self, ended_at: String) -> (r: SessionSummary)
        requires
            old(self).wf(),
        ensures
            final(self).wf(),
            !final(self)@.active,
            count_state(final(self)@.slots, SlotState::Open) == 0,
            final(self)@.slots.len() == old(self)@.slots.len(),
            forall|i: int|
                0 <= i < old(self)@.slots.len() ==> final(self)@.slots[i] == (if old(self)@.slots[i].state
                    == SlotState::Open {
                    ExpectedSlot { state: SlotState::Missed, ..old(self)@.slots[i] }
                } else {
                    old(self)@.slots[i]
                }),
            final(self)@.deltas == old(self)@.deltas,
            final(self)@.counts == (HitCounts {
                miss: (old(self)@.counts.miss + count_state(old(self)@.slots, SlotState::Open)) as u32,
                ..old(self)@.counts
            }),
            ({
                let c = final(self)@.counts;
                &&& r.hit_counts == c
                &&& r.total_expected == c.perfect + c.good + c.ok + c.miss
                &&& r.total_expected == count_state(final(self)@.slots, SlotState::Matched)
                    + count_state(final(self)@.slots, SlotState::Missed)
                &&& r.note_hits == c.perfect + c.good + c.ok
                &&& r.timing_samples == final(self)@.deltas.len()
                &&& r.timing_sum_ms == sum_deltas(final(self)@.deltas)
                &&& r.timing_abs_sum_ms == sum_abs_deltas(final(self)@.deltas)
                &&& r.score_percent == spec_score_percent(
                    score_points(c),
                    r.total_expected as int,
                )
            }),
            0 <= r.score_percent <= 100,
            r.started_at@ == old(self)@.started_at,
            opt_view(r.song_path) == old(self)@.song_path,
            r.drum_track_id == old(self)@.drum_track_id,
            r.ended_at == ended_at,
            is_uuid_v4_text(r.id@),
            final(self)@ == finalized_view(old(self)@),
            summary_of(r, old(self)@, ended_at@),
    {
        let end_ms = self.latest_time_plus_window();
        let ghost before = self.slots@;
        let _ = self.expire_misses(end_ms);
        proof {
            lemma_expired_count(before, end_ms);
            lemma_count_partition(self.slots@);
            assert forall|i: int| 0 <= i < before.len() implies self.slots@[i] == (if before[i].state
                == SlotState::Open {
                ExpectedSlot { state: SlotState::Missed, ..before[i] }
            } else {
                before[i]
            }) by {
                assert(time_fits(before[i].time_ms));
            }
            lemma_no_open_after_expire(before, self.slots@, end_ms);
        }
        let total_expected = self.counts.perfect + self.counts.good + self.counts.ok
            + self.counts.miss;
        let note_hits = self.counts.perfect + self.counts.good + self.counts.ok;
        let (sum, abs_sum) = self.delta_sums();
        let points: i64 = self.counts.perfect as i64 * 100 + self.counts.good as i64 * 70
            + self.counts.ok as i64 * 40 + self.counts.miss as i64 * 0 + self.counts.wrong as i64
            * -20;
        let score_percent = score_percent_of(points, total_expected);
        self.active = false;
        assert(self.slots@ =~= finalized_view(old(self)@).slots);
        SessionSummary {
            id: new_uuid_v4(),
            song_path: clone_opt_string(&self.song_path),
            drum_track_id: self.drum_track_id,
            started_at: self.started_at.clone(),
            ended_at,
            total_expected,
            hit_counts: self.counts,
            note_hits,
            timing_samples: self.timing_deltas.len() as u64,
            timing_sum_ms: sum,
            timing_abs_sum_ms: abs_sum,
            score_percent,
        }
    }

    fn latest_time_plus_window(&self) -> (r: u64)
        requires
            self.wf(),
        ensures
            r <= i64::MAX,
            forall|i: int| 0 <= i < self@.slots.len() ==> r as int > self@.slots[i].time_ms as int + WINDOW_OK_MS,
    {
        let mut max_t: u64 = 0;
        let mut i: usize = 0;
        while i < self.slots.len()
            invariant
                self.wf(),
                0 <= i <= self.slots@.len(),
                max_t as int + WINDOW_OK_MS + 1 <= i64::MAX,
                forall|k: int| 0 <= k < i ==> self.slots@[k].time_ms <= max_t,
            decreases self.slots@.len() - i,
        {
            assert(time_fits(self.slots@[i as int].time_ms));
            if self.slots[i].time_ms > max_t {
                max_t = self.slots[i].time_ms;
            }
            i = i + 1;
        }
        max_t.saturating_add(WINDOW_OK_MS as u64 + 1)
    }

    fn delta_sums(&self) -> (r: (i64, i64))
        requires
            self.wf(),
        ensures
            r.0 == sum_deltas(self@.deltas),
            r.1 == sum_abs_deltas(self@.deltas),
    {
        proof {
            lemma_count_le_len(self.slots@, SlotState::Matched);
        }
        let mut sum: i64 = 0;
        let mut abs_sum: i64 = 0;
        let mut i: usize = 0;
        while i < self.timing_deltas.len()
            invariant
                self.wf(),
                0 <= i <= self.timing_deltas@.len(),
                self.timing_deltas@.len() <= u32::MAX,
                sum == sum_deltas(self.timing_deltas@.take(i as int)),
                abs_sum == sum_abs_deltas(self.timing_deltas@.take(i as int)),
                -(i as int) * WINDOW_OK_MS <= sum <= i * WINDOW_OK_MS,
                0 <= abs_sum <= i * WINDOW_OK_MS,
            decreases self.timing_deltas@.len() - i,
        {
            let d = self.timing_deltas[i];
            assert(-WINDOW_OK_MS <= self.timing_deltas@[i as int] <= WINDOW_OK_MS);
            assert(self.timing_deltas@.take(i + 1).drop_last() =~= self.timing_deltas@.take(i as int));
            sum = sum + d;
            abs_sum = abs_sum + if d < 0 {
                -d
            } else {
                d
            };
            i = i + 1;
        }
        assert(self.timing_deltas@.take(self.timing_deltas@.len() as int) =~= self.timing_deltas@);
        (sum, abs_sum)
    }

    fn bump(&mut self, judgement: Judgement)
        requires
            match judgement {
                Judgement::Perfect => old(self).counts.perfect < u32::MAX,
                Judgement::Good => old(self).counts.good < u32::MAX,
                Judgement::Okay => old(self).counts.ok < u32::MAX,
                Judgement::Miss => old(self).counts.miss < u32::MAX,
                Judgement::Wrong => old(self).counts.wrong < u32::MAX,
                Judgement::Extra => old(self).counts.extra < u32::MAX,
            },
        ensures
            final(self).counts == bump_counts(old(self).counts, judgement),
            final(self).slots == old(self).slots,
            final(self).timing_deltas == old(self).timing_deltas,
            final(self).active == old(self).active,
            final(self).started_at == old(self).started_at,
            final(self).song_path == old(self).song_path,
            final(self).drum_track_id == old(self).drum_track_id,
    {
        match judgement {
            Judgement::Perfect => self.counts.perfect = self.counts.perfect + 1,
            Judgement::Good => self.counts.good = self.counts.good + 1,
            Judgement::Okay => self.counts.ok = self.counts.ok + 1,
            Judgement::Miss => self.counts.miss = self.counts.miss + 1,
            Judgement::Wrong => self.counts.wrong = self.counts.wrong + 1,
            Judgement::Extra => self.counts.extra = self.counts.extra + 1,
        }
    }
}

/// Score percent from weighted points and the number of expected hits judged.
pub fn score_percent_of(points: i64, total_expected: u32) -> (r: u32)
    requires
        points <= 100 * total_expected,
    ensures
        r == spec_score_percent(points as int, total_expected as int),
        0 <= r <= 100,
{
    if total_expected == 0 || points <= 0 {
        0
    } else {
        let num: i64 = 2 * points + total_expected as i64;
        let den: i64 = 2 * total_expected as i64;
        let q = num / den;
        if q > 100 {
            100
        } else {
            q as u32
        }
    }
}

/// Clone an optional string, keeping its contents.
pub fn clone_opt_string(s: &Option<String>) -> (r: Option<String>)
    ensures
        r == *s,
{
    match s {
        Some(v) => Some(v.clone()),
        None => None,
    }
}

pub proof fn lemma_count_update(s: Seq<ExpectedSlot>, i: int, x: ExpectedSlot, st: SlotState)
    requires
        0 <= i < s.len(),
    ensures
        count_state(s.update(i, x), st) == count_state(s, st) - (if s[i].state == st {
            1int
        } else {
            0int
        }) + (if x.state == st {
            1int
        } else {
            0int
        }),
    decreases s.len(),
{
    if i < s.len() - 1 {
        lemma_count_update(s.drop_last(), i, x, st);
        assert(s.update(i, x).drop_last() =~= s.drop_last().update(i, x));
    } else {
        assert(s.update(i, x).drop_last() =~= s.drop_last());
    }
}

pub proof fn lemma_count_le_len(s: Seq<ExpectedSlot>, st: SlotState)
    ensures
        count_state(s, st) <= s.len(),
    decreases s.len(),
{
    if s.len() > 0 {
        lemma_count_le_len(s.drop_last(), st);
    }
}

/// Every slot is in exactly one state.
pub proof fn lemma_count_partition(s: Seq<ExpectedSlot>)
    ensures
        count_state(s, SlotState::Open) + count_state(s, SlotState::Matched) + count_state(
            s,
            SlotState::Missed,
        ) + count_state(s, SlotState::Skipped) == s.len(),
    decreases s.len(),
{
    if s.len() > 0 {
        lemma_count_partition(s.drop_last());
    }
}

proof fn lemma_expired_count(s: Seq<ExpectedSlot>, now: u64)
    requires
        forall|i: int| 0 <= i < s.len() ==> now as int > #[trigger] s[i].time_ms as int + WINDOW_OK_MS,
    ensures
        expired_events(s, now).len() == count_state(s, SlotState::Open),
    decreases s.len(),
{
    if s.len() > 0 {
        assert forall|i: int| 0 <= i < s.drop_last().len() implies now as int > #[trigger] s.drop_last()[i].time_ms as int + WINDOW_OK_MS by {
            assert(s.drop_last()[i] == s[i]);
        }
        lemma_expired_count(s.drop_last(), now);
        assert(s.last() == s[s.len() - 1]);
    }
}

proof fn lemma_no_open_after_expire(before: Seq<ExpectedSlot>, after: Seq<ExpectedSlot>, now: u64)
    requires
        before.len() == after.len(),
        forall|i: int| 0 <= i < before.len() ==> #[trigger] after[i] == expire_slot(before[i], now),
        forall|i: int| 0 <= i < before.len() ==> now as int > #[trigger] before[i].time_ms as int + WINDOW_OK_MS,
    ensures
        count_state(after, SlotState::Open) == 0,
    decreases before.len(),
{
    if before.len() > 0 {
        let b2 = before.drop_last();
        let a2 = after.drop_last();
        assert forall|i: int| 0 <= i < b2.len() implies #[trigger] a2[i] == expire_slot(b2[i], now) by {
            assert(a2[i] == after[i]);
            assert(b2[i] == before[i]);
        }
        assert forall|i: int| 0 <= i < b2.len() implies now as int > #[trigger] b2[i].time_ms as int + WINDOW_OK_MS by {
            assert(b2[i] == before[i]);
        }
        lemma_no_open_after_expire(b2, a2, now);
        assert(after.last() == after[after.len() - 1]);
        assert(before[before.len() - 1].time_ms as int + WINDOW_OK_MS < now as int);
    }
}

/// The slot an incoming hit closes is unique.
pub proof fn lemma_best_unique(slots: Seq<ExpectedSlot>, pad: PadId, t: u64, i: int)
    requires
        is_best(slots, pad, t, i),
    ensures
        best_index(slots, pad, t) == i,
        has_candidate(slots, pad, t),
{
    let k = best_index(slots, pad, t);
    assert(is_best(slots, pad, t, k));
    assert(no_worse(slots, t, i, k));
    assert(no_worse(slots, t, k, i));
}


/// Distance in ms between a hit at `t` and an expected hit at `time_ms`.
pub open spec fn distance_ms(t: u64, time_ms: u64) -> int {
    if t >= time_ms {
        t - time_ms
    } else {
        time_ms - t
    }
}

proof fn lemma_no_worse_order(slots: Seq<ExpectedSlot>, t: u64, a: int, b: int, c: int)
    ensures
        no_worse(slots, t, a, b) || no_worse(slots, t, b, a),
        no_worse(slots, t, a, b) && no_worse(slots, t, b, c) ==> no_worse(slots, t, a, c),
{
}

/// The best candidate among the first `n` slots, or -1 when there is none.
spec fn best_upto(slots: Seq<ExpectedSlot>, pad: PadId, t: u64, n: int) -> int
    decreases n,
{
    if n <= 0 {
        -1
    } else {
        let b = best_upto(slots, pad, t, n - 1);
        if !is_candidate(slots[n - 1], pad, t) {
            b
        } else if b < 0 || !no_worse(slots, t, b, n - 1) {
            n - 1
        } else {
            b
        }
    }
}

proof fn lemma_best_upto(slots: Seq<ExpectedSlot>, pad: PadId, t: u64, n: int)
    requires
        0 <= n <= slots.len(),
    ensures
        ({
            let b = best_upto(slots, pad, t, n);
            &&& -1 <= b < n
            &&& b >= 0 ==> is_candidate(slots[b], pad, t)
            &&& b < 0 ==> forall|j: int| 0 <= j < n ==> !is_candidate(#[trigger] slots[j], pad, t)
            &&& b >= 0 ==> forall|j: int|
                0 <= j < n && is_candidate(#[trigger] slots[j], pad, t) ==> no_worse(slots, t, b, j)
        }),
    decreases n,
{
    if n > 0 {
        lemma_best_upto(slots, pad, t, n - 1);
        let p = best_upto(slots, pad, t, n - 1);
        let b = best_upto(slots, pad, t, n);
        if is_candidate(slots[n - 1], pad, t) && p >= 0 && !no_worse(slots, t, p, n - 1) {
            lemma_no_worse_order(slots, t, p, n - 1, n - 1);
            assert forall|j: int| 0 <= j < n && is_candidate(#[trigger] slots[j], pad, t) implies no_worse(
                slots,
                t,
                n - 1,
                j,
            ) by {
                lemma_no_worse_order(slots, t, n - 1, p, j);
                lemma_no_worse_order(slots, t, n - 1, n - 1, j);
            }
        } else if is_candidate(slots[n - 1], pad, t) && p >= 0 {
            assert(b == p);
        } else if is_candidate(slots[n - 1], pad, t) {
            assert forall|j: int| 0 <= j < n && is_candidate(#[trigger] slots[j], pad, t) implies no_worse(
                slots,
                t,
                n - 1,
                j,
            ) by {
                assert(j == n - 1);
            }
        }
    }
}

/// A hit with an open expected hit of its own pad within 80 ms on either side closes the
/// nearest such hit (the earlier one on a tie, then the first in order) and nothing else:
/// the event names it, carries the signed delta, and is Perfect within 20 ms, Good within
/// 50 ms, else Ok; that tally rises by one and no other changes.
pub proof fn lemma_hit_closes_nearest(m: MatcherView, pad_id: PadId, t: u64, k: int)
    requires
        0 <= k < m.slots.len(),
        m.slots[k].state == SlotState::Open,
        m.slots[k].pad_id == pad_id,
        distance_ms(t, m.slots[k].time_ms) <= 80,
        m.counts.perfect < u32::MAX,
        m.counts.good < u32::MAX,
        m.counts.ok < u32::MAX,
    ensures
        ({
            let (m2, ev) = judged_view(m, pad_id, t);
            exists|i: int|
                {
                    &&& 0 <= i < m.slots.len()
                    &&& m.slots[i].state == SlotState::Open
                    &&& m.slots[i].pad_id == pad_id
                    &&& distance_ms(t, m.slots[i].time_ms) <= distance_ms(t, m.slots[k].time_ms)
                    &&& forall|j: int|
                        0 <= j < m.slots.len() && m.slots[j].state == SlotState::Open && m.slots[j].pad_id
                            == pad_id && distance_ms(t, m.slots[j].time_ms) <= 80 ==> {
                            ||| distance_ms(t, m.slots[i].time_ms) < distance_ms(t, m.slots[j].time_ms)
                            ||| distance_ms(t, m.slots[i].time_ms) == distance_ms(t, m.slots[j].time_ms)
                                && m.slots[i].time_ms <= m.slots[j].time_ms
                        }
                    &&& ev.expected_uid == Some(m.slots[i].uid)
                    &&& ev.pad_id == pad_id
                    &&& ev.delta_ms == Some((t - m.slots[i].time_ms) as i64)
                    &&& ev.judgement == (if distance_ms(t, m.slots[i].time_ms) <= 20 {
                        Judgement::Perfect
                    } else if distance_ms(t, m.slots[i].time_ms) <= 50 {
                        Judgement::Good
                    } else {
                        Judgement::Okay
                    })
                    &&& m2.slots.len() == m.slots.len()
                    &&& m2.slots[i].state == SlotState::Matched
                    &&& m2.slots[i].uid == m.slots[i].uid
                    &&& forall|j: int| 0 <= j < m.slots.len() && j != i ==> m2.slots[j] == m.slots[j]
                    &&& m2.counts.miss == m.counts.miss
                    &&& m2.counts.wrong == m.counts.wrong
                    &&& m2.counts.extra == m.counts.extra
                    &&& m2.counts.perfect + m2.counts.good + m2.counts.ok == m.counts.perfect
                        + m.counts.good + m.counts.ok + 1
                }
        }),
{
    let slots = m.slots;
    assert(is_candidate(slots[k], pad_id, t));
    lemma_best_upto(slots, pad_id, t, slots.len() as int);
    let b = best_upto(slots, pad_id, t, slots.len() as int);
    assert(b >= 0);
    assert(is_best(slots, pad_id, t, b));
    lemma_best_unique(slots, pad_id, t, b);
    assert(no_worse(slots, t, b, k));
    assert forall|j: int|
        0 <= j < slots.len() && slots[j].state == SlotState::Open && slots[j].pad_id == pad_id
            && distance_ms(t, slots[j].time_ms) <= 80 implies {
        ||| distance_ms(t, slots[b].time_ms) < distance_ms(t, slots[j].time_ms)
        ||| distance_ms(t, slots[b].time_ms) == distance_ms(t, slots[j].time_ms) && slots[b].time_ms
            <= slots[j].time_ms
    } by {
        assert(is_candidate(slots[j], pad_id, t));
        assert(no_worse(slots, t, b, j));
    }
    let (m2, ev) = judged_view(m, pad_id, t);
    let d = slot_delta(slots[b], t);
    assert(abs_int(d) == distance_ms(t, slots[b].time_ms));
    assert(ev.expected_uid == Some(slots[b].uid));
    assert(ev.delta_ms == Some((t - slots[b].time_ms) as i64));
    assert(ev.judgement == (if distance_ms(t, slots[b].time_ms) <= 20 {
        Judgement::Perfect
    } else if distance_ms(t, slots[b].time_ms) <= 50 {
        Judgement::Good
    } else {
        Judgement::Okay
    }));
    assert(m2.slots == slots.update(b, ExpectedSlot { state: SlotState::Matched, ..slots[b] }));
    assert(m2.counts.perfect + m2.counts.good + m2.counts.ok == m.counts.perfect + m.counts.good
        + m.counts.ok + 1);
    assert(distance_ms(t, slots[b].time_ms) <= distance_ms(t, slots[k].time_ms));
}

/// A hit with no open expected hit of its own pad within 80 ms on either side closes
/// nothing: it is Wrong exactly when an open expected hit of another pad lies within 80 ms
/// of it, early or late, and Extra otherwise; only that tally rises, by one.
pub proof fn lemma_wrong_or_extra(m: MatcherView, pad_id: PadId, t: u64)
    requires
        forall|i: int|
            0 <= i < m.slots.len() && m.slots[i].state == SlotState::Open && m.slots[i].pad_id == pad_id
                ==> distance_ms(t, #[trigger] m.slots[i].time_ms) > 80,
        m.counts.wrong < u32::MAX,
        m.counts.extra < u32::MAX,
    ensures
        ({
            let (m2, ev) = judged_view(m, pad_id, t);
            let near = exists|i: int|
                0 <= i < m.slots.len() && m.slots[i].state == SlotState::Open && m.slots[i].pad_id != pad_id
                    && distance_ms(t, #[trigger] m.slots[i].time_ms) <= 80;
            &&& ev.judgement == (if near {
                Judgement::Wrong
            } else {
                Judgement::Extra
            })
            &&& ev.expected_uid is None
            &&& ev.delta_ms is None
            &&& ev.pad_id == pad_id
            &&& m2.slots == m.slots
            &&& m2.deltas == m.deltas
            &&& m2.counts.wrong == m.counts.wrong + (if near {
                1int
            } else {
                0int
            })
            &&& m2.counts.extra == m.counts.extra + (if near {
                0int
            } else {
                1int
            })
            &&& m2.counts.perfect == m.counts.perfect
            &&& m2.counts.good == m.counts.good
            &&& m2.counts.ok == m.counts.ok
            &&& m2.counts.miss == m.counts.miss
        }),
{
    let slots = m.slots;
    assert(!has_candidate(slots, pad_id, t)) by {
        if has_candidate(slots, pad_id, t) {
            let i = choose|i: int| 0 <= i < slots.len() && is_candidate(slots[i], pad_id, t);
            assert(distance_ms(t, slots[i].time_ms) > 80);
        }
    }
    let near = exists|i: int|
        0 <= i < slots.len() && slots[i].state == SlotState::Open && slots[i].pad_id != pad_id
            && distance_ms(t, #[trigger] slots[i].time_ms) <= 80;
    assert(wrong_nearby(slots, pad_id, t) == near) by {
        if near {
            let i = choose|i: int|
                0 <= i < slots.len() && slots[i].state == SlotState::Open && slots[i].pad_id != pad_id
                    && distance_ms(t, #[trigger] slots[i].time_ms) <= 80;
            assert(abs_int(slot_delta(slots[i], t)) <= WINDOW_OK_MS);
        }
        if wrong_nearby(slots, pad_id, t) {
            let i = choose|i: int|
                0 <= i < slots.len() && slots[i].state == SlotState::Open && slots[i].pad_id != pad_id
                    && abs_int(#[trigger] slot_delta(slots[i], t)) <= WINDOW_OK_MS;
            assert(distance_ms(t, slots[i].time_ms) <= 80);
        }
    }
}

/// Points of a run: 100 per Perfect, 70 per Good, 40 per Ok, nothing per Miss or Extra,
/// and 20 off per Wrong. From an empty run, each judgement moves the points by its weight.
pub proof fn lemma_score_weights(c: HitCounts)
    requires
        c.perfect < u32::MAX,
        c.good < u32::MAX,
        c.ok < u32::MAX,
        c.miss < u32::MAX,
        c.wrong < u32::MAX,
        c.extra < u32::MAX,
    ensures
        score_points(zero_counts()) == 0,
        score_points(bump_counts(c, Judgement::Perfect)) == score_points(c) + 100,
        score_points(bump_counts(c, Judgement::Good)) == score_points(c) + 70,
        score_points(bump_counts(c, Judgement::Okay)) == score_points(c) + 40,
        score_points(bump_counts(c, Judgement::Miss)) == score_points(c),
        score_points(bump_counts(c, Judgement::Wrong)) == score_points(c) - 20,
        score_points(bump_counts(c, Judgement::Extra)) == score_points(c),
{
}

/// The session score is the weighted points (100 per Perfect, 70 per Good, 40 per Ok, 20
/// off per Wrong) over 100 per expected hit, as a percentage rounded half up, and 0 when
/// the points are not positive or nothing was expected.
pub proof fn lemma_summary_score(r: SessionSummary, m: MatcherView, ended_at: Seq<char>)
    requires
        summary_of(r, m, ended_at),
    ensures
        ({
            let c = r.hit_counts;
            let points = 100 * c.perfect + 70 * c.good + 40 * c.ok - 20 * c.wrong;
            let total = r.total_expected as int;
            &&& (total == 0 || points <= 0) ==> r.score_percent == 0
            &&& (total > 0 && points > 0) ==> 2 * total * r.score_percent <= 2 * points + total
                < 2 * total * (r.score_percent + 1)
        }),
{
    let c = r.hit_counts;
    let points = 100 * c.perfect + 70 * c.good + 40 * c.ok - 20 * c.wrong;
    let total = r.total_expected as int;
    assert(points == score_points(c));
    if total > 0 && points > 0 {
        let q = (2 * points + total) / (2 * total);
        assert(points <= 100 * total);
        assert(q <= 100) by (nonlinear_arith)
            requires
                q == (2 * points + total) / (2 * total),
                0 < points <= 100 * total,
                total > 0;
        assert(2 * total * q <= 2 * points + total < 2 * total * (q + 1)) by (nonlinear_arith)
            requires
                q == (2 * points + total) / (2 * total),
                total > 0,
                points > 0;
    }
}

/// Expiry at `now` turns exactly the open expected hits that `now` has passed by more than
/// 80 ms into misses, keeps every other slot, and raises the miss tally by the number of
/// misses it reports, one event per missed slot, leaving the other tallies.
pub proof fn lemma_expiry_marks_overdue(m: MatcherView, now: u64)
    ensures
        expire_view(m, now).slots.len() == m.slots.len(),
        forall|i: int|
            0 <= i < m.slots.len() ==> {
                let s = m.slots[i];
                let e = #[trigger] expire_view(m, now).slots[i];
                &&& e.uid == s.uid && e.pad_id == s.pad_id && e.time_ms == s.time_ms
                &&& e.state == (if s.state == SlotState::Open && now > s.time_ms + 80 {
                    SlotState::Missed
                } else {
                    s.state
                })
            },
        expired_events(m.slots, now).len() == count_state(m.slots, SlotState::Open) - count_state(
            expire_view(m, now).slots,
            SlotState::Open,
        ),
        m.counts.miss + expired_events(m.slots, now).len() <= u32::MAX ==> expire_view(m, now).counts.miss
            == m.counts.miss + expired_events(m.slots, now).len(),
        expire_view(m, now).counts.wrong == m.counts.wrong,
        expire_view(m, now).counts.extra == m.counts.extra,
        expire_view(m, now).counts.perfect == m.counts.perfect,
        expire_view(m, now).counts.good == m.counts.good,
        expire_view(m, now).counts.ok == m.counts.ok,
        forall|k: int|
            0 <= k < expired_events(m.slots, now).len() ==> (#[trigger] expired_events(m.slots, now)[k]).judgement
                == Judgement::Miss && expired_events(m.slots, now)[k].delta_ms is None,
{
    lemma_expiry_counts(m.slots, now);
}

proof fn lemma_expiry_counts(slots: Seq<ExpectedSlot>, now: u64)
    ensures
        expired_events(slots, now).len() == count_state(slots, SlotState::Open) - count_state(
            slots.map_values(|s: ExpectedSlot| expire_slot(s, now)),
            SlotState::Open,
        ),
        forall|k: int|
            0 <= k < expired_events(slots, now).len() ==> (#[trigger] expired_events(slots, now)[k]).judgement
                == Judgement::Miss && expired_events(slots, now)[k].delta_ms is None,
    decreases slots.len(),
{
    if slots.len() > 0 {
        let init = slots.drop_last();
        lemma_expiry_counts(init, now);
        let f = |s: ExpectedSlot| expire_slot(s, now);
        assert(slots.map_values(f).drop_last() =~= init.map_values(f));
    }
}

/// A seek to `position_ms` keeps every judged slot (matched or missed) as it is, reopens
/// the other slots at or after the new position and skips those before it; tallies and
/// timing samples are unchanged.
pub proof fn lemma_seek_reopens_from(m: MatcherView, position_ms: u64)
    ensures
        reset_view(m, position_ms).slots.len() == m.slots.len(),
        forall|i: int|
            0 <= i < m.slots.len() ==> {
                let s = m.slots[i];
                let e = #[trigger] reset_view(m, position_ms).slots[i];
                &&& e.uid == s.uid && e.pad_id == s.pad_id && e.time_ms == s.time_ms
                &&& e.state == (if s.state == SlotState::Matched || s.state == SlotState::Missed {
                    s.state
                } else if s.time_ms >= position_ms {
                    SlotState::Open
                } else {
                    SlotState::Skipped
                })
            },
        reset_view(m, position_ms).counts == m.counts,
        reset_view(m, position_ms).deltas == m.deltas,
{
}

} // verus!
