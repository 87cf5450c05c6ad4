//! Summaries of a run: which patches were updated, skipped, handed to the
//! audio patcher or found corrupted.

use vstd::prelude::*;
use crate::PatchKind;
use crate::patch::PatchOutcome;
use crate::text::concat3;

verus! {

/// What was done to a folder (or list) of patch files.
pub struct PatchResult {
    pub directory: String,
    pub patches_found: usize,
    pub updated: Vec<String>,
    pub no_units: Vec<String>,
    /// Patches that carry audio resources.
    pub audio: Vec<String>,
    pub audio_updated: Vec<String>,
    pub audio_failed: Vec<(String, String)>,
    pub corrupted_files: Vec<String>,
}

/// One processed patch: its kind, what unit patching did, and its name.
pub struct PatchItem {
    pub kind: PatchKind,
    pub outcome: PatchOutcome,
    pub name: String,
}

pub open spec fn kind_is_audio(kind: PatchKind) -> bool {
    kind == PatchKind::Audio || kind == PatchKind::UnitAndAudio
}

/// The buckets of a result.
#[derive(Debug, Clone, Copy, PartialEq, Eq, Structural)]
pub enum Bucket {
    Updated,
    Audio,
    NoUnits,
    Corrupted,
}

/// Whether an item lands in a bucket: updated patches in `updated`, and in
/// `audio` too when they carry audio; untouched patches in `audio` when they
/// carry audio, else in `no_units`; corrupted ones in `corrupted_files`.
pub open spec fn lands_in(kind: PatchKind, outcome: PatchOutcome, b: Bucket) -> bool {
    match b {
        Bucket::Updated => outcome == PatchOutcome::Updated,
        Bucket::Audio => (outcome == PatchOutcome::Updated || outcome == PatchOutcome::NoUnits) && kind_is_audio(kind),
        Bucket::NoUnits => outcome == PatchOutcome::NoUnits && !kind_is_audio(kind),
        Bucket::Corrupted => outcome == PatchOutcome::Corrupted,
    }
}

/// The names of the first `k` items that land in `b`, in order.
pub open spec fn bucket(items: Seq<PatchItem>, b: Bucket, k: nat) -> Seq<Seq<char>>
    decreases k,
{
    if k == 0 {
        Seq::empty()
    } else {
        let it = items[k - 1];
        bucket(items, b, (k - 1) as nat) + if lands_in(it.kind, it.outcome, b) { seq![it.name@] } else { Seq::empty() }
    }
}

pub open spec fn names(v: Seq<String>) -> Seq<Seq<char>> {
    v.map_values(|s: String| s@)
}

fn is_audio_kind(kind: PatchKind) -> (b: bool)
    ensures
        b == kind_is_audio(kind),
{
    match kind {
        PatchKind::Audio | PatchKind::UnitAndAudio => true,
        _ => false,
    }
}

fn push_name(v: &mut Vec<String>, name: &String)
    ensures
        names(final(v)@) == names(old(v)@).push(name@),
{
    let ghost before = names(v@);
    let c = String::from_str(name.as_str());
    v.push(c);
    assert(names(v@) =~= before.push(name@));
}

/// Buckets processed patches by outcome, keeping their order within each
/// bucket; an updated patch that carries audio lands in both `updated` and
/// `audio`.
pub fn collect_patch_results(items: &[PatchItem]) -> (r: PatchResult)
    ensures
        r.directory@ == Seq::<char>::empty(),
        r.patches_found == items@.len(),
        names(r.updated@) == bucket(items@, Bucket::Updated, items@.len() as nat),
        names(r.audio@) == bucket(items@, Bucket::Audio, items@.len() as nat),
        names(r.no_units@) == bucket(items@, Bucket::NoUnits, items@.len() as nat),
        names(r.corrupted_files@) == bucket(items@, Bucket::Corrupted, items@.len() as nat),
        r.audio_updated@.len() == 0,
        r.audio_failed@.len() == 0,
{
    let mut updated: Vec<String> = Vec::new();
    let mut audio: Vec<String> = Vec::new();
    let mut no_units: Vec<String> = Vec::new();
    let mut corrupted: Vec<String> = Vec::new();
    let mut k: usize = 0;
    assert(names(updated@) =~= Seq::<Seq<char>>::empty());
    while k < items.len()
        invariant
            k <= items@.len(),
            names(updated@) == bucket(items@, Bucket::Updated, k as nat),
            names(audio@) == bucket(items@, Bucket::Audio, k as nat),
            names(no_units@) == bucket(items@, Bucket::NoUnits, k as nat),
            names(corrupted@) == bucket(items@, Bucket::Corrupted, k as nat),
        decreases items@.len() - k,
    {
        let it = &items[k];
        let is_audio = is_audio_kind(it.kind);
        match it.outcome {
            PatchOutcome::Updated => {
                if is_audio {
                    push_name(&mut audio, &it.name);
                } else {
                    assert(names(audio@) + Seq::<Seq<char>>::empty() =~= names(audio@));
                }
                push_name(&mut updated, &it.name);
                assert(names(no_units@) + Seq::<Seq<char>>::empty() =~= names(no_units@));
                assert(names(corrupted@) + Seq::<Seq<char>>::empty() =~= names(corrupted@));
            },
            PatchOutcome::NoUnits => {
                if is_audio {
                    push_name(&mut audio, &it.name);
                    assert(names(no_units@) + Seq::<Seq<char>>::empty() =~= names(no_units@));
                } else {
                    push_name(&mut no_units, &it.name);
                    assert(names(audio@) + Seq::<Seq<char>>::empty() =~= names(audio@));
                }
                assert(names(updated@) + Seq::<Seq<char>>::empty() =~= names(updated@));
                assert(names(corrupted@) + Seq::<Seq<char>>::empty() =~= names(corrupted@));
            },
            PatchOutcome::Corrupted => {
                push_name(&mut corrupted, &it.name);
                assert(names(updated@) + Seq::<Seq<char>>::empty() =~= names(updated@));
                assert(names(audio@) + Seq::<Seq<char>>::empty() =~= names(audio@));
                assert(names(no_units@) + Seq::<Seq<char>>::empty() =~= names(no_units@));
            },
        }
        k = k + 1;
    }
    PatchResult {
        directory: String::new(),
        patches_found: items.len(),
        updated,
        no_units,
        audio,
        audio_updated: Vec::new(),
        audio_failed: Vec::new(),
        corrupted_files: corrupted,
    }
}

/// What became of one patch group.
#[derive(Debug, Clone, Copy, PartialEq, Eq, Structural)]
pub enum GroupOutcome {
    Updated(PatchKind),
    Skipped(PatchKind),
}

/// What a command-line run reports for one input.
pub struct CliSummary {
    pub patches_found: usize,
    pub updated: Vec<String>,
    pub audio_updated: Vec<String>,
    pub no_units: Vec<String>,
    pub corrupted: Vec<String>,
}

impl CliSummary {
    pub fn new() -> (s: CliSummary)
        ensures
            s.patches_found == 0,
            s.updated@.len() == 0,
            s.audio_updated@.len() == 0,
            s.no_units@.len() == 0,
            s.corrupted@.len() == 0,
    {
        CliSummary {
            patches_found: 0,
            updated: Vec::new(),
            audio_updated: Vec::new(),
            no_units: Vec::new(),
            corrupted: Vec::new(),
        }
    }

    /// Records a group that could not be resolved or processed: `name` and
    /// the error go to `corrupted` as `"<name>: <error>"`.
    pub fn record_failure(&mut self, name: &str, error: &str)
        ensures
            names(final(self).corrupted@) == names(old(self).corrupted@).push(name@ + ": "@ + error@),
            names(final(self).updated@) == names(old(self).updated@),
            names(final(self).audio_updated@) == names(old(self).audio_updated@),
            names(final(self).no_units@) == names(old(self).no_units@),
            final(self).patches_found == old(self).patches_found,
    {
        let msg = concat3(name, ": ", error);
        let ghost before = names(self.corrupted@);
        self.corrupted.push(msg);
        assert(names(self.corrupted@) =~= before.push(name@ + ": "@ + error@));
    }

    /// Records a processed group named `name`: an updated group lands in
    /// `updated` when it carries units and in `audio_updated` when it carries
    /// audio; a skipped one in `no_units`.
    pub fn record_outcome(&mut self, name: &String, outcome: GroupOutcome)
        ensures
            final(self).patches_found == old(self).patches_found,
            names(final(self).corrupted@) == names(old(self).corrupted@),
            names(final(self).updated@) == names(old(self).updated@) + (match outcome {
                GroupOutcome::Updated(k) => if k == PatchKind::Unit || k == PatchKind::UnitAndAudio {
                    seq![name@]
                } else {
                    Seq::empty()
                },
                GroupOutcome::Skipped(_) => Seq::empty(),
            }),
            names(final(self).audio_updated@) == names(old(self).audio_updated@) + (match outcome {
                GroupOutcome::Updated(k) => if kind_is_audio(k) { seq![name@] } else { Seq::empty() },
                GroupOutcome::Skipped(_) => Seq::empty(),
            }),
            names(final(self).no_units@) == names(old(self).no_units@) + (match outcome {
                GroupOutcome::Updated(_) => Seq::empty(),
                GroupOutcome::Skipped(_) => seq![name@],
            }),
    {
        match outcome {
            GroupOutcome::Updated(kind) => {
                match kind {
                    PatchKind::Unit | PatchKind::UnitAndAudio => push_name(&mut self.updated, name),
                    _ => {},
                }
                if is_audio_kind(kind) {
                    push_name(&mut self.audio_updated, name);
                }
            },
            GroupOutcome::Skipped(_) => push_name(&mut self.no_units, name),
        }
        proof {
            assert(names(old(self).updated@) + Seq::<Seq<char>>::empty() =~= names(old(self).updated@));
            assert(names(old(self).audio_updated@) + Seq::<Seq<char>>::empty() =~= names(old(self).audio_updated@));
            assert(names(old(self).no_units@) + Seq::<Seq<char>>::empty() =~= names(old(self).no_units@));
        }
    }
}

/// Every processed patch is reported: it lands in exactly one of
/// `updated`, `no_units` and `corrupted_files`, or else (untouched and
/// carrying audio) in `audio` alone; an updated patch that carries audio is
/// also listed in `audio`, and a corrupted one never is.
pub proof fn law_every_patch_reported(kind: PatchKind, outcome: PatchOutcome)
    ensures
        (if lands_in(kind, outcome, Bucket::Updated) { 1int } else { 0int }) + (if lands_in(kind, outcome, Bucket::NoUnits) {
            1int
        } else {
            0int
        }) + (if lands_in(kind, outcome, Bucket::Corrupted) { 1int } else { 0int }) + (if lands_in(kind, outcome, Bucket::Audio)
            && !lands_in(kind, outcome, Bucket::Updated) { 1int } else { 0int }) == 1,
        lands_in(kind, outcome, Bucket::Updated) && kind_is_audio(kind) ==> lands_in(kind, outcome, Bucket::Audio),
        lands_in(kind, outcome, Bucket::Corrupted) ==> !lands_in(kind, outcome, Bucket::Audio),
{
}

/// What a batch run over one selected path reports.
pub struct BatchResult {
    pub id: String,
    pub path: String,
    pub patches_found: usize,
    pub updated: usize,
    pub skipped: usize,
    pub audio: usize,
    pub corrupted: Vec<String>,
}

impl BatchResult {
    /// A batch over `path` that found `patches_found` candidates and has
    /// processed none yet.
    pub fn new(id: String, path: String, patches_found: usize) -> (b: BatchResult)
        ensures
            b.id == id,
            b.path == path,
            b.patches_found == patches_found,
            b.updated == 0,
            b.skipped == 0,
            b.audio == 0,
            b.corrupted@.len() == 0,
    {
        BatchResult { id, path, patches_found, updated: 0, skipped: 0, audio: 0, corrupted: Vec::new() }
    }

    /// Records a candidate that could not be resolved or processed: it is
    /// listed as `"<name>: <error>"` among the corrupted ones.
    pub fn record_failure(&mut self, name: &str, error: &str)
        ensures
            names(final(self).corrupted@) == names(old(self).corrupted@).push(name@ + ": "@ + error@),
            final(self).updated == old(self).updated,
            final(self).skipped == old(self).skipped,
            final(self).audio == old(self).audio,
            final(self).patches_found == old(self).patches_found,
            final(self).id == old(self).id,
            final(self).path == old(self).path,
    {
        let msg = concat3(name, ": ", error);
        let ghost before = names(self.corrupted@);
        self.corrupted.push(msg);
        assert(names(self.corrupted@) =~= before.push(name@ + ": "@ + error@));
    }

    /// Records a processed group: an updated one counts as updated when it
    /// carries units and as audio when it carries audio; a skipped one
    /// counts as skipped.
    pub fn record_outcome(&mut self, outcome: GroupOutcome)
        requires
            old(self).updated < usize::MAX,
            old(self).skipped < usize::MAX,
            old(self).audio < usize::MAX,
        ensures
            final(self).updated == old(self).updated + match outcome {
                GroupOutcome::Updated(k) => if k == PatchKind::Unit || k == PatchKind::UnitAndAudio { 1int } else { 0int },
                GroupOutcome::Skipped(_) => 0int,
            },
            final(self).audio == old(self).audio + match outcome {
                GroupOutcome::Updated(k) => if kind_is_audio(k) { 1int } else { 0int },
                GroupOutcome::Skipped(_) => 0int,
            },
            final(self).skipped == old(self).skipped + if outcome is Skipped { 1int } else { 0int },
            final(self).corrupted@ == old(self).corrupted@,
            final(self).patches_found == old(self).patches_found,
            final(self).id == old(self).id,
            final(self).path == old(self).path,
    {
        match outcome {
            GroupOutcome::Updated(kind) => {
                match kind {
                    PatchKind::Unit | PatchKind::UnitAndAudio => self.updated = self.updated + 1,
                    _ => {},
                }
                if is_audio_kind(kind) {
                    self.audio = self.audio + 1;
                }
            },
            GroupOutcome::Skipped(_) => self.skipped = self.skipped + 1,
        }
    }
}

/// The name a patch kind is reported under.
pub open spec fn patch_kind_name(kind: PatchKind) -> Seq<char> {
    match kind {
        PatchKind::Unit => seq!['u', 'n', 'i', 't'],
        PatchKind::Audio => seq!['a', 'u', 'd', 'i', 'o'],
        PatchKind::UnitAndAudio => seq!['u', 'n', 'i', 't', '-', 'a', 'n', 'd', '-', 'a', 'u', 'd', 'i', 'o'],
        PatchKind::Other => seq!['o', 't', 'h', 'e', 'r'],
        PatchKind::Corrupted => seq!['c', 'o', 'r', 'r', 'u', 'p', 't', 'e', 'd'],
    }
}

pub fn format_patch_kind(kind: PatchKind) -> (s: String)
    ensures
        s@ == patch_kind_name(kind),
{
    proof {
        reveal_strlit("unit");
        reveal_strlit("audio");
        reveal_strlit("unit-and-audio");
        reveal_strlit("other");
        reveal_strlit("corrupted");
    }
    let s = match kind {
        PatchKind::Unit => String::from_str("unit"),
        PatchKind::Audio => String::from_str("audio"),
        PatchKind::UnitAndAudio => String::from_str("unit-and-audio"),
        PatchKind::Other => String::from_str("other"),
        PatchKind::Corrupted => String::from_str("corrupted"),
    };
    assert(s@ =~= patch_kind_name(kind));
    s
}

/// What patching one group from the game data folder reports: its main
/// file and its kind.
pub struct GameDataPatchResult {
    pub main: String,
    pub kind: String,
}

/// Refuses a group selected from the game data folder whose main file is
/// corrupted, with `"patch '<main>' is malformed"`.
pub fn check_game_data_patch(main: &str, kind: PatchKind) -> (r: Result<(), String>)
    ensures
        r is Ok <==> kind != PatchKind::Corrupted,
        r matches Err(e) ==> e@ == "patch '"@ + main@ + "' is malformed"@,
{
    if kind == PatchKind::Corrupted {
        Err(concat3("patch '", main, "' is malformed"))
    } else {
        Ok(())
    }
}

/// The report for a group patched from the game data folder: a skipped
/// group is refused with `"selected patch '<main>' has no unit or audio
/// resources"`; an updated one reports its main file and the name of its
/// kind.
pub fn game_data_patch_result(main: String, kind: PatchKind, outcome: GroupOutcome) -> (r: Result<
    GameDataPatchResult,
    String,
>)
    ensures
        match outcome {
            GroupOutcome::Skipped(_) => r matches Err(e) && e@ == "selected patch '"@ + main@
                + "' has no unit or audio resources"@,
            GroupOutcome::Updated(_) => r matches Ok(g) && g.main == main && g.kind@ == patch_kind_name(kind),
        },
{
    match outcome {
        GroupOutcome::Skipped(_) => Err(concat3("selected patch '", main.as_str(), "' has no unit or audio resources")),
        GroupOutcome::Updated(_) => Ok(GameDataPatchResult { main, kind: format_patch_kind(kind) }),
    }
}

} // verus!
