//! The engine-facing command logic: selecting a restore target, deciding
//! the restore direction, and labelling snapshots for selection.

use vstd::prelude::*;
use vstd::string::StringExecFns;

use crate::stores::SnapshotEntries;
use crate::text::{dec_of, push_decimal};

verus! {

/// Resolves a one-based restore index, counted from the most recent
/// snapshot, to the timestamp of the selected row.
pub fn select_restore_target(snapshot_store: &Vec<SnapshotEntries>, restore_index: u32) -> (r:
    Result<String, crate::EngineError>)
    ensures
        r is Ok <==> 1 <= restore_index <= snapshot_store@.len(),
        r matches Ok(t) ==> t@ == snapshot_store@[snapshot_store@.len() - restore_index].date_created@,
        r matches Err(e) ==> e == crate::EngineError::InvalidSelection,
{
    let n = snapshot_store.len();
    if restore_index == 0 || restore_index as usize > n {
        return Err(crate::EngineError::InvalidSelection);
    }
    let idx = n - restore_index as usize;
    Ok(snapshot_store[idx].date_created.clone())
}

/// Decides the restore direction against the active-snapshot marker: the
/// flag is whether the target lies in the past.  An absent marker means the
/// target must be in the past; a marker equal to the target means there is
/// nothing to do.
pub fn restore_direction(active: Option<&String>, selected: &String) -> (r: Result<
    Option<bool>,
    crate::EngineError,
>)
    ensures
        active is None ==> r == Ok::<Option<bool>, crate::EngineError>(Some(true)),
        r matches Err(e) ==> e == crate::EngineError::CorruptArtifact && (active matches Some(a)
            && (crate::clock::ts_instant_of(a@, crate::clock::full_format()) is None
            || crate::clock::ts_instant_of(selected@, crate::clock::full_format()) is None)),
        r matches Ok(o) ==> (active matches Some(a) ==> ({
            let ia = crate::clock::ts_instant_of(a@, crate::clock::full_format())->Some_0;
            let is = crate::clock::ts_instant_of(selected@, crate::clock::full_format())->Some_0;
            &&& (o == Some(true) <==> is < ia)
            &&& (o == Some(false) <==> is > ia)
            &&& (o is None <==> is == ia)
        })),
{
    let a = match active {
        None => {
            return Ok(Some(true));
        },
        Some(a) => a,
    };
    let ia = match crate::clock::parse_ts(a.as_str(), "%Y-%m-%d %H:%M:%S%.9f %z") {
        Some(t) => t,
        None => {
            return Err(crate::EngineError::CorruptArtifact);
        },
    };
    let is_sel = match crate::clock::parse_ts(selected.as_str(), "%Y-%m-%d %H:%M:%S%.9f %z") {
        Some(t) => t,
        None => {
            return Err(crate::EngineError::CorruptArtifact);
        },
    };
    if is_sel < ia {
        Ok(Some(true))
    } else if is_sel > ia {
        Ok(Some(false))
    } else {
        Ok(None)
    }
}

/// Builds the human-readable selection label of a snapshot: its display
/// timestamp followed by the number of changed slots.
pub fn snapshot_label(row: &SnapshotEntries) -> (r: Result<String, crate::EngineError>)
    ensures
        r matches Ok(l) ==> l@ == crate::clock::ts_display_of(row.date_created@)
            + " files changed: "@ + dec_of(row.patch_ids@.len() as nat),
        r matches Err(e) ==> e == crate::EngineError::CorruptArtifact && crate::clock::ts_instant_of(
            row.date_created@,
            crate::clock::full_format(),
        ) is None,
{
    let mut label = match crate::clock::display_ts(row.date_created.as_str()) {
        Some(d) => d,
        None => {
            return Err(crate::EngineError::CorruptArtifact);
        },
    };
    label.append(" files changed: ");
    let count = row.patch_ids.len();
    push_decimal(&mut label, count as u64);
    Ok(label)
}

/// Finds the position of a chosen label among the offered ones.
pub fn find_label_index(labels: &Vec<String>, chosen: &String) -> (r: Option<usize>)
    ensures
        r matches Some(i) ==> i < labels@.len() && labels@[i as int]@ == chosen@,
        r is None ==> forall|i: int| 0 <= i < labels@.len() ==> (#[trigger] labels@[i])@ != chosen@,
{
    let n = labels.len();
    let mut i: usize = 0;
    while i < n
        invariant
            n == labels@.len(),
            0 <= i <= n,
            forall|k: int| 0 <= k < i ==> (#[trigger] labels@[k])@ != chosen@,
        decreases n - i,
    {
        if labels[i] == *chosen {
            return Some(i);
        }
        i = i + 1;
    }
    None
}

} // verus!
