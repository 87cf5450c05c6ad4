//! Which base archive holds each soundbank.

use vstd::prelude::*;
use std::collections::HashMap;
use vstd::string::*;
use crate::LEGACY_MARKER_FILE;
use crate::text::{concat5, decimal, u64_to_decimal};

verus! {

broadcast use vstd::std_specs::hash::group_hash_axioms;

/// Soundbank id to the display name of the base archive that holds it.
pub struct AudioIndex {
    mapping: HashMap<u64, String>,
}

impl AudioIndex {
    /// The index as a map from bank id to archive name.
    pub closed spec fn view_map(&self) -> Map<u64, String> {
        self.mapping@
    }

    pub fn from_mapping(mapping: HashMap<u64, String>) -> (a: AudioIndex)
        ensures
            a.view_map() == mapping@,
    {
        AudioIndex { mapping }
    }

    /// The name of the archive that holds soundbank `bank_id`, if indexed.
    pub fn archive_name(&self, bank_id: u64) -> (r: Option<&str>)
        ensures
            match r {
                Some(s) => self.view_map().contains_key(bank_id) && s@ == self.view_map()[bank_id]@,
                None => !self.view_map().contains_key(bank_id),
            },
    {
        match self.mapping.get(&bank_id) {
            Some(s) => Some(s.as_str()),
            None => None,
        }
    }

    /// How many soundbanks are indexed.
    pub fn bank_count(&self) -> (n: usize)
        ensures
            n == self.view_map().len(),
    {
        self.mapping.len()
    }
}

/// The base archives an audio patch needs, in order: the text-bank archive
/// when the patch carries text banks, then the archive of each of its
/// soundbanks.
pub open spec fn spec_archives_for_patch(has_text_banks: bool, bank_ids: Seq<u64>, index: Map<u64, String>) -> Seq<Seq<char>> {
    (if has_text_banks { seq![LEGACY_MARKER_FILE@] } else { Seq::empty() }) + bank_ids.map_values(
        |id: u64| index[id]@,
    )
}

/// The message for a soundbank that no base archive holds.
pub open spec fn unlocated_message(bank_id: u64, file_name: Seq<char>) -> Seq<char> {
    "unable to locate base archive for soundbank "@ + decimal(bank_id as nat) + " (from '"@ + file_name
        + "'); cannot build a correct patch"@
}

/// Lists the base archives an audio patch named `file_name` needs (see
/// `spec_archives_for_patch`); fails on the first soundbank that `index`
/// does not hold.
pub fn archives_for_patch(has_text_banks: bool, bank_ids: &[u64], index: &AudioIndex, file_name: &str) -> (r: Result<
    Vec<String>,
    String,
>)
    ensures
        match r {
            Ok(v) => (forall|i: int| 0 <= i < bank_ids@.len() ==> index.view_map().contains_key(#[trigger] bank_ids@[i]))
                && v@.map_values(|s: String| s@) == spec_archives_for_patch(has_text_banks, bank_ids@, index.view_map()),
            Err(m) => exists|i: int|
                0 <= i < bank_ids@.len() && !index.view_map().contains_key(#[trigger] bank_ids@[i]) && (forall|j: int|
                    0 <= j < i ==> index.view_map().contains_key(#[trigger] bank_ids@[j])) && m@ == unlocated_message(
                    bank_ids@[i],
                    file_name@,
                ),
        },
{
    let mut out: Vec<String> = Vec::new();
    if has_text_banks {
        out.push(String::from_str(LEGACY_MARKER_FILE));
    }
    let ghost head = out@.map_values(|s: String| s@);
    assert(head =~= (if has_text_banks { seq![LEGACY_MARKER_FILE@] } else { Seq::<Seq<char>>::empty() }));
    let mut k: usize = 0;
    while k < bank_ids.len()
        invariant
            k <= bank_ids@.len(),
            head == (if has_text_banks { seq![LEGACY_MARKER_FILE@] } else { Seq::<Seq<char>>::empty() }),
            forall|j: int| 0 <= j < k ==> index.view_map().contains_key(#[trigger] bank_ids@[j]),
            out@.map_values(|s: String| s@) == head + bank_ids@.take(k as int).map_values(
                |id: u64| index.view_map()[id]@,
            ),
        decreases bank_ids@.len() - k,
    {
        let id = bank_ids[k];
        match index.archive_name(id) {
            Some(name) => {
                let ghost before = out@.map_values(|s: String| s@);
                out.push(String::from_str(name));
                assert(out@.map_values(|s: String| s@) =~= before.push(name@));
                assert(bank_ids@.take(k + 1).map_values(|id: u64| index.view_map()[id]@) =~= bank_ids@.take(
                    k as int,
                ).map_values(|id: u64| index.view_map()[id]@).push(index.view_map()[id]@));
            },
            None => {
                let n = u64_to_decimal(id);
                let m = concat5(
                    "unable to locate base archive for soundbank ",
                    n.as_str(),
                    " (from '",
                    file_name,
                    "'); cannot build a correct patch",
                );
                assert(m@ =~= unlocated_message(bank_ids@[k as int], file_name@));
                return Err(m);
            },
        }
        k = k + 1;
    }
    assert(bank_ids@.take(k as int) =~= bank_ids@);
    Ok(out)
}

} // verus!
