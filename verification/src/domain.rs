//! Domain model: pads, GM percussion mapping, device pad maps, judgements.

use vstd::prelude::*;

verus! {

/// Logical drum kit pads.
#[derive(Debug, Clone, Copy, PartialEq, Eq, Structural, Hash)]
pub enum PadId {
    Kick,
    Snare,
    HiHatClosed,
    HiHatOpen,
    HiHatPedal,
    TomHigh,
    TomMid,
    FloorTom,
    Crash,
    Ride,
    RideBell,
    Splash,
}

/// The pads the mapping wizard must cover before practice can start.
pub open spec fn spec_is_required(pad: PadId) -> bool {
    match pad {
        PadId::HiHatPedal | PadId::RideBell | PadId::Splash => false,
        _ => true,
    }
}

impl PadId {
    /// True for the nine pads every practice profile must bind.
    pub fn is_required(self) -> (r: bool)
        ensures
            r == spec_is_required(self),
    {
        match self {
            PadId::HiHatPedal | PadId::RideBell | PadId::Splash => false,
            _ => true,
        }
    }
}

/// The required pads, in wizard order.
pub fn required_pads() -> (r: Vec<PadId>)
    ensures
        r@ == seq![
            PadId::Kick,
            PadId::Snare,
            PadId::HiHatClosed,
            PadId::HiHatOpen,
            PadId::TomHigh,
            PadId::TomMid,
            PadId::FloorTom,
            PadId::Crash,
            PadId::Ride,
        ],
        forall|p: PadId| spec_is_required(p) <==> r@.contains(p),
{
    let r = vec![
        PadId::Kick,
        PadId::Snare,
        PadId::HiHatClosed,
        PadId::HiHatOpen,
        PadId::TomHigh,
        PadId::TomMid,
        PadId::FloorTom,
        PadId::Crash,
        PadId::Ride,
    ];
    assert forall|p: PadId| spec_is_required(p) <==> r@.contains(p) by {
        if spec_is_required(p) {
            let i: int = match p {
                PadId::Kick => 0,
                PadId::Snare => 1,
                PadId::HiHatClosed => 2,
                PadId::HiHatOpen => 3,
                PadId::TomHigh => 4,
                PadId::TomMid => 5,
                PadId::FloorTom => 6,
                PadId::Crash => 7,
                _ => 8,
            };
            assert(r@[i] == p);
        }
    }
    r
}

/// General MIDI percussion key to pad (many keys may share one pad).
pub open spec fn spec_gm_note_to_pad(note: u8) -> Option<PadId> {
    if note == 35 || note == 36 {
        Some(PadId::Kick)
    } else if note == 38 || note == 40 {
        Some(PadId::Snare)
    } else if note == 42 {
        Some(PadId::HiHatClosed)
    } else if note == 44 {
        Some(PadId::HiHatPedal)
    } else if note == 46 {
        Some(PadId::HiHatOpen)
    } else if note == 48 || note == 50 {
        Some(PadId::TomHigh)
    } else if note == 45 || note == 47 {
        Some(PadId::TomMid)
    } else if note == 41 || note == 43 {
        Some(PadId::FloorTom)
    } else if note == 49 || note == 57 {
        Some(PadId::Crash)
    } else if note == 51 || note == 59 {
        Some(PadId::Ride)
    } else if note == 53 {
        Some(PadId::RideBell)
    } else if note == 55 {
        Some(PadId::Splash)
    } else {
        None
    }
}

/// GM note to pad.
pub fn gm_note_to_pad(note: u8) -> (r: Option<PadId>)
    ensures
        r == spec_gm_note_to_pad(note),
{
    match note {
        35 | 36 => Some(PadId::Kick),
        38 | 40 => Some(PadId::Snare),
        42 => Some(PadId::HiHatClosed),
        44 => Some(PadId::HiHatPedal),
        46 => Some(PadId::HiHatOpen),
        48 | 50 => Some(PadId::TomHigh),
        45 | 47 => Some(PadId::TomMid),
        41 | 43 => Some(PadId::FloorTom),
        49 | 57 => Some(PadId::Crash),
        51 | 59 => Some(PadId::Ride),
        53 => Some(PadId::RideBell),
        55 => Some(PadId::Splash),
        _ => None,
    }
}

/// Canonical GM percussion key of a pad.
pub open spec fn spec_pad_to_gm_note(pad: PadId) -> u8 {
    match pad {
        PadId::Kick => 36,
        PadId::Snare => 38,
        PadId::HiHatClosed => 42,
        PadId::HiHatOpen => 46,
        PadId::HiHatPedal => 44,
        PadId::TomHigh => 50,
        PadId::TomMid => 47,
        PadId::FloorTom => 43,
        PadId::Crash => 49,
        PadId::Ride => 51,
        PadId::RideBell => 53,
        PadId::Splash => 55,
    }
}

/// Canonical GM percussion key for SoundFont feedback of a mapped pad.
pub fn pad_to_gm_note(pad: PadId) -> (r: u8)
    ensures
        r == spec_pad_to_gm_note(pad),
{
    match pad {
        PadId::Kick => 36,
        PadId::Snare => 38,
        PadId::HiHatClosed => 42,
        PadId::HiHatOpen => 46,
        PadId::HiHatPedal => 44,
        PadId::TomHigh => 50,
        PadId::TomMid => 47,
        PadId::FloorTom => 43,
        PadId::Crash => 49,
        PadId::Ride => 51,
        PadId::RideBell => 53,
        PadId::Splash => 55,
    }
}

/// Every pad is found again from its canonical GM key.
pub proof fn lemma_gm_round_trip(pad: PadId)
    ensures
        spec_gm_note_to_pad(spec_pad_to_gm_note(pad)) == Some(pad),
{
}

/// The file-side GM map covers the keys the kit table lists for each pad, and no others:
/// Kick 35 and 36, Snare 38 and 40, closed hi-hat 42, pedal hi-hat 44, open hi-hat 46,
/// high tom 48 and 50, mid tom 45 and 47, floor tom 41 and 43, crash 49 and 57, ride 51
/// and 59, ride bell 53, splash 55.
pub proof fn lemma_gm_keys_of_pads(note: u8)
    ensures
        spec_gm_note_to_pad(note) == Some(PadId::Kick) <==> (note == 35 || note == 36),
        spec_gm_note_to_pad(note) == Some(PadId::Snare) <==> (note == 38 || note == 40),
        spec_gm_note_to_pad(note) == Some(PadId::HiHatClosed) <==> note == 42,
        spec_gm_note_to_pad(note) == Some(PadId::HiHatPedal) <==> note == 44,
        spec_gm_note_to_pad(note) == Some(PadId::HiHatOpen) <==> note == 46,
        spec_gm_note_to_pad(note) == Some(PadId::TomHigh) <==> (note == 48 || note == 50),
        spec_gm_note_to_pad(note) == Some(PadId::TomMid) <==> (note == 45 || note == 47),
        spec_gm_note_to_pad(note) == Some(PadId::FloorTom) <==> (note == 41 || note == 43),
        spec_gm_note_to_pad(note) == Some(PadId::Crash) <==> (note == 49 || note == 57),
        spec_gm_note_to_pad(note) == Some(PadId::Ride) <==> (note == 51 || note == 59),
        spec_gm_note_to_pad(note) == Some(PadId::RideBell) <==> note == 53,
        spec_gm_note_to_pad(note) == Some(PadId::Splash) <==> note == 55,
{
}

/// The canonical key of every pad lies in the GM percussion range 35..=81.
pub proof fn lemma_gm_note_in_percussion_range(pad: PadId)
    ensures
        35 <= spec_pad_to_gm_note(pad) <= 81,
{
}

/// Every key the GM map accepts lies in the percussion range 35..=81.
pub proof fn lemma_gm_map_in_percussion_range(note: u8)
    requires
        spec_gm_note_to_pad(note) is Some,
    ensures
        35 <= note <= 81,
{
}

/// An optional pad without a device binding folds into its stand-in.
pub open spec fn spec_fold_pad(pad: PadId, mapped: Seq<PadId>) -> PadId {
    match pad {
        PadId::Splash => if mapped.contains(PadId::Splash) {
            PadId::Splash
        } else {
            PadId::Crash
        },
        PadId::RideBell => if mapped.contains(PadId::RideBell) {
            PadId::RideBell
        } else {
            PadId::Ride
        },
        other => other,
    }
}

fn pads_contain(pads: &[PadId], pad: PadId) -> (r: bool)
    ensures
        r == pads@.contains(pad),
{
    let mut i: usize = 0;
    while i < pads.len()
        invariant
            0 <= i <= pads.len(),
            forall|k: int| 0 <= k < i ==> pads@[k] != pad,
        decreases pads.len() - i,
    {
        if pads[i] == pad {
            assert(pads@[i as int] == pad);
            return true;
        }
        i = i + 1;
    }
    false
}

/// Optional pads without a device binding fold into a playable stand-in
/// (no splash bound: song splash notes count as Crash; no ride bell: Ride).
pub fn fold_pad_for_device_map(pad: PadId, mapped_pads: &[PadId]) -> (r: PadId)
    ensures
        r == spec_fold_pad(pad, mapped_pads@),
{
    match pad {
        PadId::Splash => if !pads_contain(mapped_pads, PadId::Splash) {
            PadId::Crash
        } else {
            PadId::Splash
        },
        PadId::RideBell => if !pads_contain(mapped_pads, PadId::RideBell) {
            PadId::Ride
        } else {
            PadId::RideBell
        },
        other => other,
    }
}

/// Folding twice gives what folding once gives.
pub proof fn lemma_fold_idempotent(pad: PadId, mapped: Seq<PadId>)
    ensures
        spec_fold_pad(spec_fold_pad(pad, mapped), mapped) == spec_fold_pad(pad, mapped),
{
}

/// A folded pad is either bound on the device or not an optional stand-in case.
pub proof fn lemma_fold_yields_bound_or_kept(pad: PadId, mapped: Seq<PadId>)
    ensures
        spec_fold_pad(pad, mapped) == PadId::Splash ==> mapped.contains(PadId::Splash),
        spec_fold_pad(pad, mapped) == PadId::RideBell ==> mapped.contains(PadId::RideBell),
        pad != PadId::Splash && pad != PadId::RideBell ==> spec_fold_pad(pad, mapped) == pad,
{
}

/// A hit the song expects.
#[derive(Debug, Clone, Copy, PartialEq, Eq, Structural)]
pub struct ExpectedHit {
    pub uid: u64,
    pub pad_id: PadId,
    pub time_ms: u64,
    pub velocity: u8,
}

/// One device binding: a MIDI key (and optionally a channel) resolving to a pad.
#[derive(Debug, Clone, Copy, PartialEq, Eq, Structural)]
pub struct PadBinding {
    pub pad_id: PadId,
    pub midi_note: u8,
    pub channel: Option<u8>,
}

/// A device pad map: many keys may resolve to one pad.
#[derive(Debug, Clone)]
pub struct PadMapProfile {
    pub id: String,
    pub name: String,
    pub device_name_hint: Option<String>,
    pub schema_version: u32,
    pub bindings: Vec<PadBinding>,
    pub created_at: String,
    pub updated_at: String,
}

/// The pads that bindings resolve to, in binding order.
pub open spec fn bound_pads(bindings: Seq<PadBinding>) -> Seq<PadId> {
    bindings.map_values(|b: PadBinding| b.pad_id)
}

/// The pads an optional profile binds (none without a profile).
pub open spec fn profile_pads(profile: Option<&PadMapProfile>) -> Seq<PadId> {
    match profile {
        Some(p) => bound_pads(p.bindings@),
        None => Seq::empty(),
    }
}

/// An expected hit with its pad folded for the device map.
pub open spec fn spec_fold_hit(h: ExpectedHit, mapped: Seq<PadId>) -> ExpectedHit {
    ExpectedHit { pad_id: spec_fold_pad(h.pad_id, mapped), ..h }
}

/// Re-apply optional-pad stand-ins for the given device profile.
pub fn fold_expected_hits(hits: &[ExpectedHit], profile: Option<&PadMapProfile>) -> (r: Vec<
    ExpectedHit,
>)
    ensures
        r@.len() == hits@.len(),
        forall|i: int|
            0 <= i < hits@.len() ==> r@[i] == spec_fold_hit(hits@[i], profile_pads(profile)),
{
    let mut mapped: Vec<PadId> = Vec::new();
    match profile {
        Some(p) => {
            let mut k: usize = 0;
            while k < p.bindings.len()
                invariant
                    0 <= k <= p.bindings@.len(),
                    mapped@ == bound_pads(p.bindings@.take(k as int)),
                decreases p.bindings@.len() - k,
            {
                mapped.push(p.bindings[k].pad_id);
                assert(bound_pads(p.bindings@.take(k + 1)) =~= bound_pads(p.bindings@.take(k as int)).push(
                    p.bindings@[k as int].pad_id,
                ));
                k = k + 1;
            }
            assert(p.bindings@.take(p.bindings@.len() as int) =~= p.bindings@);
        },
        None => {},
    }
    assert(mapped@ =~= profile_pads(profile));
    let mut out: Vec<ExpectedHit> = Vec::new();
    let mut i: usize = 0;
    while i < hits.len()
        invariant
            0 <= i <= hits@.len(),
            mapped@ == profile_pads(profile),
            out@.len() == i,
            forall|j: int| 0 <= j < i ==> out@[j] == spec_fold_hit(hits@[j], profile_pads(profile)),
        decreases hits@.len() - i,
    {
        let h = hits[i];
        out.push(
            ExpectedHit {
                uid: h.uid,
                pad_id: fold_pad_for_device_map(h.pad_id, mapped.as_slice()),
                time_ms: h.time_ms,
                velocity: h.velocity,
            },
        );
        i = i + 1;
    }
    out
}

/// A lower-case hexadecimal digit.
pub open spec fn is_lower_hex(c: char) -> bool {
    (48 <= c as u32 <= 57) || (97 <= c as u32 <= 102)
}

/// A random UUID (version 4, RFC 4122 variant) in lower-case hyphenated form:
/// 8-4-4-4-12 hex digits, version digit `4`, variant digit one of `8`, `9`, `a`, `b`.
pub open spec fn is_uuid_v4_text(s: Seq<char>) -> bool {
    &&& s.len() == 36
    &&& forall|i: int|
        0 <= i < 36 ==> (if i == 8 || i == 13 || i == 18 || i == 23 {
            s[i] == '-'
        } else {
            is_lower_hex(#[trigger] s[i])
        })
    &&& s[14] == '4'
    &&& (s[19] == '8' || s[19] == '9' || s[19] == 'a' || s[19] == 'b')
}

/// `uuid::Uuid::new_v4().to_string()`: random bits with the version set to 4 and the
/// variant to RFC 4122, shown through `Display` as lower-case hyphenated hex.
#[verifier::external_body]
pub(crate) fn new_uuid_v4() -> (r: String)
    ensures
        is_uuid_v4_text(r@),
{
    uuid::Uuid::new_v4().to_string()
}

impl PadMapProfile {
    /// The profile as it is stored: a fresh random id when it has none, schema version 1
    /// when unset, the creation time set once, and `stamp` as the update time.
    pub fn prepared_for_save(self, stamp: String) -> (r: PadMapProfile)
        ensures
            self.id@.len() == 0 ==> is_uuid_v4_text(r.id@),
            self.id@.len() > 0 ==> r.id == self.id,
            r.name == self.name,
            r.device_name_hint == self.device_name_hint,
            r.schema_version == (if self.schema_version == 0 {
                1
            } else {
                self.schema_version
            }),
            r.bindings == self.bindings,
            r.created_at == (if self.created_at@.len() == 0 {
                stamp
            } else {
                self.created_at
            }),
            r.updated_at == stamp,
    {
        let id = if self.id.as_str().is_empty() {
            new_uuid_v4()
        } else {
            self.id
        };
        let schema_version = if self.schema_version == 0 {
            1
        } else {
            self.schema_version
        };
        let created_at = if self.created_at.as_str().is_empty() {
            stamp.clone()
        } else {
            self.created_at
        };
        PadMapProfile {
            id,
            name: self.name,
            device_name_hint: self.device_name_hint,
            schema_version,
            bindings: self.bindings,
            created_at,
            updated_at: stamp,
        }
    }
}

/// Pad of the last binding for `note` whose channel field equals `channel`.
pub open spec fn last_binding(bindings: Seq<PadBinding>, note: u8, channel: Option<u8>) -> Option<
    PadId,
>
    decreases bindings.len(),
{
    if bindings.len() == 0 {
        None
    } else if bindings.last().midi_note == note && bindings.last().channel == channel {
        Some(bindings.last().pad_id)
    } else {
        last_binding(bindings.drop_last(), note, channel)
    }
}

/// Device key resolution: a binding for this exact channel wins over a channel-agnostic one;
/// among equals the later binding wins.
pub open spec fn spec_map_note(bindings: Seq<PadBinding>, note: u8, channel: u8) -> Option<PadId> {
    match last_binding(bindings, note, Some(channel)) {
        Some(p) => Some(p),
        None => last_binding(bindings, note, None),
    }
}

/// Whether some binding resolves to `pad`.
pub open spec fn has_binding_for(bindings: Seq<PadBinding>, pad: PadId) -> bool {
    exists|i: int| 0 <= i < bindings.len() && bindings[i].pad_id == pad
}

/// A profile is valid for practice when every required pad has a binding.
pub open spec fn spec_valid_for_practice(bindings: Seq<PadBinding>) -> bool {
    forall|pad: PadId| spec_is_required(pad) ==> has_binding_for(bindings, pad)
}

impl PadMapProfile {
    fn binds_pad(&self, pad: PadId) -> (r: bool)
        ensures
            r == has_binding_for(self.bindings@, pad),
    {
        let mut i: usize = 0;
        while i < self.bindings.len()
            invariant
                0 <= i <= self.bindings@.len(),
                forall|k: int| 0 <= k < i ==> self.bindings@[k].pad_id != pad,
            decreases self.bindings@.len() - i,
        {
            if self.bindings[i].pad_id == pad {
                return true;
            }
            i = i + 1;
        }
        false
    }

    /// True when every required pad has at least one binding.
    pub fn is_valid_for_practice(&self) -> (r: bool)
        ensures
            r == spec_valid_for_practice(self.bindings@),
    {
        let required = required_pads();
        let mut i: usize = 0;
        while i < required.len()
            invariant
                0 <= i <= required@.len(),
                forall|p: PadId| spec_is_required(p) <==> required@.contains(p),
                forall|k: int| 0 <= k < i ==> has_binding_for(self.bindings@, #[trigger] required@[k]),
            decreases required@.len() - i,
        {
            if !self.binds_pad(required[i]) {
                assert(spec_is_required(required@[i as int]));
                return false;
            }
            i = i + 1;
        }
        assert forall|pad: PadId| spec_is_required(pad) implies has_binding_for(
            self.bindings@,
            pad,
        ) by {
            assert(required@.contains(pad));
            let k = choose|k: int| 0 <= k < required@.len() && required@[k] == pad;
            assert(has_binding_for(self.bindings@, required@[k]));
        }
        true
    }

    /// Resolve a device key to a pad. Channel-specific bindings win over channel-agnostic ones.
    pub fn map_note(&self, note: u8, channel: u8) -> (r: Option<PadId>)
        ensures
            r == spec_map_note(self.bindings@, note, channel),
    {
        let mut channel_match: Option<PadId> = None;
        let mut any_match: Option<PadId> = None;
        let mut i: usize = 0;
        while i < self.bindings.len()
            invariant
                0 <= i <= self.bindings@.len(),
                channel_match == last_binding(self.bindings@.take(i as int), note, Some(channel)),
                any_match == last_binding(self.bindings@.take(i as int), note, None),
            decreases self.bindings@.len() - i,
        {
            let binding = self.bindings[i];
            assert(self.bindings@.take(i + 1).drop_last() =~= self.bindings@.take(i as int));
            if binding.midi_note == note {
                match binding.channel {
                    Some(ch) => {
                        if ch == channel {
                            channel_match = Some(binding.pad_id);
                        }
                    },
                    None => {
                        any_match = Some(binding.pad_id);
                    },
                }
            }
            i = i + 1;
        }
        assert(self.bindings@.take(self.bindings@.len() as int) =~= self.bindings@);
        match channel_match {
            Some(p) => Some(p),
            None => any_match,
        }
    }
}

/// The resolved pad always comes from a binding for that very key.
pub proof fn lemma_map_note_from_binding(bindings: Seq<PadBinding>, note: u8, channel: u8)
    ensures
        spec_map_note(bindings, note, channel) matches Some(p) ==> exists|i: int|
            0 <= i < bindings.len() && bindings[i].midi_note == note && bindings[i].pad_id == p
                && (bindings[i].channel == Some(channel) || bindings[i].channel is None),
    decreases bindings.len(),
{
    lemma_last_binding_from(bindings, note, Some(channel));
    lemma_last_binding_from(bindings, note, None);
}

proof fn lemma_last_binding_from(bindings: Seq<PadBinding>, note: u8, channel: Option<u8>)
    ensures
        last_binding(bindings, note, channel) matches Some(p) ==> exists|i: int|
            0 <= i < bindings.len() && bindings[i].midi_note == note && bindings[i].pad_id == p
                && bindings[i].channel == channel,
    decreases bindings.len(),
{
    if bindings.len() > 0 {
        lemma_last_binding_from(bindings.drop_last(), note, channel);
        if let Some(p) = last_binding(bindings.drop_last(), note, channel) {
            let i = choose|i: int|
                0 <= i < bindings.drop_last().len() && bindings.drop_last()[i].midi_note == note
                    && bindings.drop_last()[i].pad_id == p && bindings.drop_last()[i].channel
                    == channel;
            assert(bindings[i] == bindings.drop_last()[i]);
        }
        if bindings.last().midi_note == note && bindings.last().channel == channel {
            assert(bindings[bindings.len() - 1] == bindings.last());
        }
    }
}

/// A binding for the exact channel of a key always decides over channel-agnostic bindings.
pub proof fn lemma_channel_binding_wins(
    bindings: Seq<PadBinding>,
    i: int,
    note: u8,
    channel: u8,
)
    requires
        0 <= i < bindings.len(),
        bindings[i].midi_note == note,
        bindings[i].channel == Some(channel),
    ensures
        spec_map_note(bindings, note, channel) == last_binding(bindings, note, Some(channel)),
        last_binding(bindings, note, Some(channel)) is Some,
    decreases bindings.len(),
{
    if i < bindings.len() - 1 {
        if !(bindings.last().midi_note == note && bindings.last().channel == Some(channel)) {
            assert(bindings.drop_last()[i] == bindings[i]);
            lemma_channel_binding_wins(bindings.drop_last(), i, note, channel);
        }
    }
}

/// Scoring windows (ms).
pub const WINDOW_PERFECT_MS: i64 = 20;

pub const WINDOW_GOOD_MS: i64 = 50;

pub const WINDOW_OK_MS: i64 = 80;

/// The judgement an expected hit (or a stray incoming hit) ends with.
#[derive(Debug, Clone, Copy, PartialEq, Eq, Structural)]
pub enum Judgement {
    Perfect,
    Good,
    Okay,
    Miss,
    Wrong,
    Extra,
}

/// Judgement for an absolute timing error in ms; `None` beyond the Ok window.
pub open spec fn spec_from_abs_delta(abs_delta_ms: int) -> Option<Judgement> {
    if abs_delta_ms <= WINDOW_PERFECT_MS {
        Some(Judgement::Perfect)
    } else if abs_delta_ms <= WINDOW_GOOD_MS {
        Some(Judgement::Good)
    } else if abs_delta_ms <= WINDOW_OK_MS {
        Some(Judgement::Okay)
    } else {
        None
    }
}

/// Rank of a timing judgement: higher is better (Perfect 3 .. none 0).
pub open spec fn judgement_rank(j: Option<Judgement>) -> int {
    match j {
        Some(Judgement::Perfect) => 3,
        Some(Judgement::Good) => 2,
        Some(Judgement::Okay) => 1,
        _ => 0,
    }
}

impl Judgement {
    /// Perfect within 20 ms, Good within 50 ms, Ok within 80 ms, else none.
    pub fn from_abs_delta(abs_delta_ms: i64) -> (r: Option<Judgement>)
        ensures
            r == spec_from_abs_delta(abs_delta_ms as int),
    {
        if abs_delta_ms <= WINDOW_PERFECT_MS {
            Some(Judgement::Perfect)
        } else if abs_delta_ms <= WINDOW_GOOD_MS {
            Some(Judgement::Good)
        } else if abs_delta_ms <= WINDOW_OK_MS {
            Some(Judgement::Okay)
        } else {
            None
        }
    }
}

/// A smaller timing error never earns a worse judgement.
pub proof fn lemma_judgement_monotone(a: int, b: int)
    requires
        a <= b,
    ensures
        judgement_rank(spec_from_abs_delta(a)) >= judgement_rank(spec_from_abs_delta(b)),
{
}

/// Within the Ok window every timing error earns a judgement; beyond it none.
pub proof fn lemma_judgement_window(a: int)
    requires
        0 <= a,
    ensures
        spec_from_abs_delta(a) is Some <==> a <= WINDOW_OK_MS,
{
}

/// Live feedback for one judgement.
#[derive(Debug, Clone, Copy, PartialEq, Eq, Structural)]
pub struct JudgementEvent {
    pub expected_uid: Option<u64>,
    pub pad_id: PadId,
    pub judgement: Judgement,
    pub delta_ms: Option<i64>,
}

/// Running tallies of each judgement.
#[derive(Debug, Clone, Copy, PartialEq, Eq, Structural)]
pub struct HitCounts {
    pub perfect: u32,
    pub good: u32,
    pub ok: u32,
    pub miss: u32,
    pub wrong: u32,
    pub extra: u32,
}

impl HitCounts {
    /// All tallies zero.
    pub fn zero() -> (r: HitCounts)
        ensures
            r == zero_counts(),
    {
        HitCounts { perfect: 0, good: 0, ok: 0, miss: 0, wrong: 0, extra: 0 }
    }
}

pub open spec fn zero_counts() -> HitCounts {
    HitCounts { perfect: 0, good: 0, ok: 0, miss: 0, wrong: 0, extra: 0 }
}

impl Default for HitCounts {
    fn default() -> (r: HitCounts)
        ensures
            r == zero_counts(),
    {
        HitCounts::zero()
    }
}

/// A hit from the device (pad `None` when the key is unmapped).
#[derive(Debug, Clone, Copy, PartialEq, Eq, Structural)]
pub struct IncomingHit {
    pub pad_id: Option<PadId>,
    pub raw_note: u8,
    pub raw_channel: u8,
    pub velocity: u8,
    pub time_ms: u64,
}

/// Upcoming expected hit to highlight on the kit.
#[derive(Debug, Clone, Copy, PartialEq, Eq, Structural)]
pub struct HighlightEvent {
    pub pad_id: PadId,
    pub at_ms: u64,
    pub velocity: u8,
    pub uid: u64,
}

/// Whether a playback note belongs to the drum part or the backing.
#[derive(Debug, Clone, Copy, PartialEq, Eq, Structural)]
pub enum NoteRole {
    Drum,
    Backing,
}

/// A note for the synthesizer, in session ms.
#[derive(Debug, Clone, Copy, PartialEq, Eq, Structural)]
pub struct ScheduleNote {
    pub uid: u64,
    pub track_id: u16,
    pub role: NoteRole,
    pub channel: u8,
    pub program: u8,
    pub note: u8,
    pub velocity: u8,
    pub when_ms: u64,
    pub duration_ms: u64,
}

/// A MIDI input port as offered to the UI.
#[derive(Debug, Clone)]
pub struct MidiInputPort {
    pub id: String,
    pub name: String,
}

/// Application name, version and phase.
#[derive(Debug, Clone)]
pub struct AppInfo {
    pub name: String,
    pub version: String,
    pub phase: String,
}

} // verus!
