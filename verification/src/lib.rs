//! Verified core of the Helldivers II patch repairer: byte-level parsing and
//! rewriting of `.patch_N` archives, their sidecar rules, and the Wwise audio
//! structures carried inside them.

pub mod audio_index;
pub mod buf;
pub mod keyed;
pub mod le;
pub mod memstream;
pub mod mixed;
pub mod patch;
pub mod patch_group;
pub mod resources;
pub mod results;
pub mod settings;
pub mod slim;
pub mod text;
pub mod wwise;

use vstd::prelude::*;
use crate::le::{opt_u32_at, opt_u64_at, u32_at, u64_at};

verus! {

/// Marker file present in legacy Helldivers II `data` installs.
pub const LEGACY_MARKER_FILE: &'static str = "9ba626afa44a3aa3";
/// Marker file present in "slim" (bundled) Helldivers II `data` installs.
pub const SLIM_MARKER_FILE: &'static str = "bundles.nxa";
/// Type id that identifies a unit resource in a package TOC.
pub const UNIT_TYPE_ID: u64 = 16187218042980615487;
/// Wwise soundbank resource.
pub const WWISE_BANK: u64 = 6006249203084351385;
/// Wwise streamed-audio resource.
pub const WWISE_STREAM: u64 = 5785811756662211598;
/// Wwise dependency resource.
pub const WWISE_DEP: u64 = 12624162998411505776;
/// Text/string bank resource.
pub const TEXT_BANK: u64 = 979299457696010195;
/// Bink video resource.
pub const BINK_VIDEO: u64 = 6838244362054241717;

/// The audio resource types: soundbanks, streams, dependencies, text banks
/// and videos.
pub open spec fn spec_is_audio_type_id(type_id: u64) -> bool {
    type_id == WWISE_BANK || type_id == WWISE_STREAM || type_id == WWISE_DEP
        || type_id == TEXT_BANK || type_id == BINK_VIDEO
}

/// True when `type_id` is one of the audio resource types.
pub fn is_audio_type_id(type_id: u64) -> (b: bool)
    ensures
        b == spec_is_audio_type_id(type_id),
{
    type_id == WWISE_BANK || type_id == WWISE_STREAM || type_id == WWISE_DEP
        || type_id == TEXT_BANK || type_id == BINK_VIDEO
}

/// What kind of resources a patch file carries, from a type-table scan.
#[derive(Debug, Clone, Copy, PartialEq, Eq, Structural)]
pub enum PatchKind {
    /// Unit resources only.
    Unit,
    /// Audio resources only.
    Audio,
    /// Both unit and audio resources.
    UnitAndAudio,
    /// Neither unit nor audio resources.
    Other,
    /// The type table could not be read.
    Corrupted,
}

/// Size of the archive's main header.
pub const MAIN_HEADER_SIZE: usize = 72;
/// Size of one type-table entry.
pub const TYPE_ENTRY_SIZE: usize = 32;
/// Size of one per-resource TOC header.
pub const FILE_HEADER_SIZE: usize = 80;

/// Offset of the type id inside the `i`-th type-table entry (each entry is
/// 8 bytes of padding, the type id, a count and 8 more bytes).
pub open spec fn type_id_offset(i: int) -> int {
    72 + 32 * i + 8
}

/// The `i`-th type-table entry is present and carries a plausible type id
/// (one of at least 2^32).
pub open spec fn type_entry_ok(data: Seq<u8>, i: int) -> bool {
    match opt_u64_at(data, type_id_offset(i)) {
        Some(t) => t >= 0x1_0000_0000u64,
        None => false,
    }
}

/// The type id of the `i`-th type-table entry.
pub open spec fn type_id_at(data: Seq<u8>, i: int) -> u64 {
    opt_u64_at(data, type_id_offset(i)).unwrap()
}

pub open spec fn kind_of(has_unit: bool, has_audio: bool) -> PatchKind {
    if has_unit && has_audio {
        PatchKind::UnitAndAudio
    } else if has_unit {
        PatchKind::Unit
    } else if has_audio {
        PatchKind::Audio
    } else {
        PatchKind::Other
    }
}

/// The kind of a patch whose bytes are `data`: corrupted when the type count
/// or any of the counted type entries is missing or carries an id below
/// 2^32; otherwise determined by whether any entry is the unit type and
/// whether any is an audio type.
pub open spec fn spec_classify(data: Seq<u8>) -> PatchKind {
    match opt_u32_at(data, 4) {
        None => PatchKind::Corrupted,
        Some(n) => if !(forall|i: int| 0 <= i < n ==> #[trigger] type_entry_ok(data, i)) {
            PatchKind::Corrupted
        } else {
            kind_of(
                exists|i: int| 0 <= i < n && #[trigger] type_id_at(data, i) == UNIT_TYPE_ID,
                exists|i: int| 0 <= i < n && spec_is_audio_type_id(#[trigger] type_id_at(data, i)),
            )
        },
    }
}

/// Classifies a patch by scanning its whole type table for unit and audio
/// type ids.
pub fn classify_patch_bytes(data: &[u8]) -> (kind: PatchKind)
    ensures
        kind == spec_classify(data@),
{
    let num_types = match u32_at(data, 4) {
        Some(n) => n,
        None => return PatchKind::Corrupted,
    };
    let mut has_unit = false;
    let mut has_audio = false;
    let mut i: u32 = 0;
    while i < num_types
        invariant
            opt_u32_at(data@, 4) == Some(num_types),
            i <= num_types,
            forall|j: int| 0 <= j < i ==> #[trigger] type_entry_ok(data@, j),
            has_unit == exists|j: int| 0 <= j < i && #[trigger] type_id_at(data@, j) == UNIT_TYPE_ID,
            has_audio == exists|j: int| 0 <= j < i && spec_is_audio_type_id(#[trigger] type_id_at(data@, j)),
        decreases num_types - i,
    {
        let pos_wide: u64 = 80 + 32 * (i as u64);
        if pos_wide > data.len() as u64 {
            assert(!type_entry_ok(data@, i as int));
            return PatchKind::Corrupted;
        }
        let pos = pos_wide as usize;
        let type_id = match u64_at(data, pos) {
            Some(t) => t,
            None => {
                assert(!type_entry_ok(data@, i as int));
                return PatchKind::Corrupted;
            },
        };
        if type_id < 0x1_0000_0000u64 {
            assert(!type_entry_ok(data@, i as int));
            return PatchKind::Corrupted;
        }
        assert(type_id_at(data@, i as int) == type_id);
        if type_id == UNIT_TYPE_ID {
            has_unit = true;
        } else if is_audio_type_id(type_id) {
            has_audio = true;
        }
        i = i + 1;
    }
    if has_unit && has_audio {
        PatchKind::UnitAndAudio
    } else if has_unit {
        PatchKind::Unit
    } else if has_audio {
        PatchKind::Audio
    } else {
        PatchKind::Other
    }
}

} // verus!
