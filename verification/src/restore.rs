//! Restoration: materializing file contents from stored patch artifacts and
//! rebuilding the tracked tree at a selected snapshot.
//!
//! A modified slot is always rebuilt from its baseline chain: the referenced
//! baseline's forward artifact applied to the empty buffer gives the
//! reference content, and the slot's own forward artifact applied to that
//! gives the slot's recorded state — in either direction of travel.  The
//! stored reverse artifacts are written for the on-disk format's sake but
//! are not read here: applying a reverse patch to the on-disk content is
//! only sound when that content is exactly the state the reverse was cut
//! from, and restoring the baseline content alone (as a reverse-sentinel
//! shortcut would) loses the slot's own forward patch.  Rebuilding from the
//! baseline costs one extra decompression and is sound from any starting
//! tree, which is also what makes restoring to one snapshot and then
//! another equal to restoring to the second directly.

use vstd::prelude::*;

use crate::compression::{apply_delta, decompress_data};
use crate::stores::{
    artifact_content, decoded_artifact, has_baseline, is_baseline_rec, is_best_baseline, rec_id,
    DiffEntry, FileTree, FsNode, Slot, SnapshotEntries, TimeDir,
};
use crate::text::str_eq;

verus! {

/// Decodes the artifact stored under a name and applies it to the empty
/// buffer: the content a baseline-style forward artifact encodes.
pub fn load_artifact_content(time_dir: &TimeDir, name: &String) -> (r: Result<
    Vec<u8>,
    crate::EngineError,
>)
    ensures
        r matches Ok(c) ==> artifact_content(*time_dir, name@) == Some(c@) && content_of(
            *time_dir,
            name@,
        ) == Ok::<Seq<u8>, crate::EngineError>(c@),
        r is Ok <==> artifact_content(*time_dir, name@) is Some,
        r == Err::<Vec<u8>, crate::EngineError>(crate::EngineError::IoFailure) <==> time_dir
            .artifacts.find(name@) is None,
        r matches Err(e) ==> content_of(*time_dir, name@) == Err::<Seq<u8>, crate::EngineError>(
            e,
        ),
        r is Err ==> r == Err::<Vec<u8>, crate::EngineError>(crate::EngineError::IoFailure) || r
            == Err::<Vec<u8>, crate::EngineError>(crate::EngineError::CorruptArtifact),
{
    let stored = match time_dir.artifacts.read(name) {
        Some(a) => a,
        None => {
            return Err(crate::EngineError::IoFailure);
        },
    };
    let delta = match decompress_data(stored.clone()) {
        Ok(d) => d,
        Err(_) => {
            return Err(crate::EngineError::CorruptArtifact);
        },
    };
    let empty: Vec<u8> = Vec::new();
    proof {
        assert(empty@ =~= Seq::<u8>::empty());
    }
    match apply_delta(&empty, &delta) {
        Ok(c) => Ok(c),
        Err(_) => Err(crate::EngineError::CorruptArtifact),
    }
}

/// The conditions under which cutting a patch against a path's baseline is
/// owed to succeed: a baseline exists, every baseline record's timestamp
/// parses, every selection-maximal baseline has the usual 64-character
/// identifier and a stored forward artifact that decodes to its content,
/// the fresh identifier is untaken, and a requested compressed reverse does
/// not collide with the sentinel bytes.
pub open spec fn ref_diff_can_succeed(
    td: TimeDir,
    path: Seq<char>,
    created_at: Seq<char>,
    current: Seq<u8>,
    level: int,
    create_reverse: bool,
) -> bool {
    &&& has_baseline(td.patch_store@, path)
    &&& !baseline_dates_bad(td.patch_store@, path)
    &&& td.artifacts.find(crate::hashing::patch_id_of(created_at, path)) is None
    &&& td.artifacts.find(
        crate::stores::reverse_name_of(crate::hashing::patch_id_of(created_at, path)),
    ) is None
    &&& forall|j: int|
        is_best_baseline(td.patch_store@, path, j) ==> ((artifact_content(
            td,
            rec_id(#[trigger] td.patch_store@[j]),
        ) matches Some(bc) && (create_reverse ==> crate::compression::compress_of(
            crate::compression::delta_of(current, bc),
            level,
        ) != crate::stores::reverse_sentinel())) && rec_id(td.patch_store@[j]).len() == 64)
}

/// Restores the baseline content of a path to memory and cuts a new patch
/// pair against it: the forward delta from the baseline to the present
/// content and the reverse delta back, recorded with the baseline's
/// identifier as reference.
pub fn restore_and_diff(
    target_path: &String,
    current_content: &Vec<u8>,
    created_at: &String,
    compression_level: u32,
    time_dir: &mut TimeDir,
    create_reverse: bool,
    snapshot_mode: &String,
) -> (r: Result<String, crate::EngineError>)
    ensures
        r is Err ==> *final(time_dir) == *old(time_dir),
        snapshot_mode@ != "fastest"@ ==> r == Err::<String, crate::EngineError>(
            crate::EngineError::UnsupportedMode,
        ),
        snapshot_mode@ == "fastest"@ && !has_baseline(old(time_dir).patch_store@, target_path@)
            ==> r == Err::<String, crate::EngineError>(crate::EngineError::MissingBaseline),
        r == Err::<String, crate::EngineError>(crate::EngineError::MissingBaseline)
            && snapshot_mode@ == "fastest"@ ==> !has_baseline(
            old(time_dir).patch_store@,
            target_path@,
        ),
        snapshot_mode@ == "fastest"@ && ref_diff_can_succeed(
            *old(time_dir),
            target_path@,
            created_at@,
            current_content@,
            compression_level as int,
            create_reverse,
        ) ==> r is Ok,
        r matches Ok(id) ==> exists|j: int|
            {
                &&& is_best_baseline(old(time_dir).patch_store@, target_path@, j)
                &&& artifact_content(
                    *old(time_dir),
                    rec_id(#[trigger] old(time_dir).patch_store@[j]),
                ) matches Some(bc)
                &&& crate::diffs::patch_pair_ok(
                    *old(time_dir),
                    *final(time_dir),
                    target_path@,
                    created_at@,
                    rec_id(old(time_dir).patch_store@[j]),
                    bc,
                    current_content@,
                    compression_level as int,
                    create_reverse,
                    id@,
                )
            },
{
    if !str_eq(snapshot_mode.as_str(), "fastest") {
        return Err(crate::EngineError::UnsupportedMode);
    }
    let base_rec = match crate::stores::select_baseline(&time_dir.patch_store, target_path) {
        Ok(b) => b,
        Err(e) => {
            return Err(e);
        },
    };
    let base_id = crate::hashing::derive_patch_id(&base_rec.date_created, &base_rec.target_path);
    proof {
        let j = choose|j: int|
            0 <= j < old(time_dir).patch_store@.len() && (#[trigger] old(
                time_dir,
            ).patch_store@[j]) == base_rec && is_best_baseline(
                old(time_dir).patch_store@,
                target_path@,
                j,
            );
        assert(rec_id(old(time_dir).patch_store@[j]) == base_id@);
    }
    let base_content = match load_artifact_content(time_dir, &base_id) {
        Ok(c) => c,
        Err(e) => {
            return Err(e);
        },
    };
    let result = crate::diffs::create_diff(
        &base_content,
        current_content,
        target_path,
        created_at,
        &base_id,
        compression_level,
        time_dir,
        create_reverse,
    );
    match result {
        Ok(id) => {
            proof {
                let j = choose|j: int|
                    0 <= j < old(time_dir).patch_store@.len() && (#[trigger] old(
                        time_dir,
                    ).patch_store@[j]) == base_rec && is_best_baseline(
                        old(time_dir).patch_store@,
                        target_path@,
                        j,
                    );
                assert(rec_id(old(time_dir).patch_store@[j]) == base_id@);
                assert(is_best_baseline(old(time_dir).patch_store@, target_path@, j));
            }
            Ok(id)
        },
        Err(e) => Err(e),
    }
}

/// Whether any baseline record of the path carries an unparseable
/// timestamp.
pub open spec fn baseline_dates_bad(s: Seq<DiffEntry>, path: Seq<char>) -> bool {
    exists|i: int|
        0 <= i < s.len() && is_baseline_rec(#[trigger] s[i], path) && crate::stores::rec_instant(
            s[i],
        ) is None
}

/// Whether any non-baseline record of the path carries an unparseable
/// timestamp.
pub open spec fn follow_dates_bad(s: Seq<DiffEntry>, path: Seq<char>) -> bool {
    exists|i: int|
        0 <= i < s.len() && crate::stores::is_follow_rec(#[trigger] s[i], path)
            && crate::stores::rec_instant(s[i]) is None
}

/// Whether `a` strictly beats `b` in the selection order: later instant, or
/// equal instant and lexicographically larger identifier.
pub open spec fn rec_beats(a: DiffEntry, b: DiffEntry) -> bool {
    ||| crate::stores::rec_instant(a)->Some_0 > crate::stores::rec_instant(b)->Some_0
    ||| (crate::stores::rec_instant(a)->Some_0 == crate::stores::rec_instant(b)->Some_0
        && crate::text::lex_less(rec_id(b), rec_id(a)))
}

/// The index of the selected baseline record of a path: the latest by
/// instant, ties resolved towards the lexicographically larger identifier,
/// the earliest such index if records are wholly indistinguishable.
pub open spec fn best_baseline_idx(s: Seq<DiffEntry>, path: Seq<char>) -> Option<int>
    decreases s.len(),
{
    if s.len() == 0 {
        None
    } else {
        let prev = best_baseline_idx(s.drop_last(), path);
        let i = s.len() - 1;
        if is_baseline_rec(s[i], path) {
            match prev {
                None => Some(i as int),
                Some(b) => if rec_beats(s[i], s[b]) {
                    Some(i as int)
                } else {
                    Some(b)
                },
            }
        } else {
            prev
        }
    }
}

/// The index of the selected non-baseline record of a path, under the same
/// order.
pub open spec fn best_follow_idx(s: Seq<DiffEntry>, path: Seq<char>) -> Option<int>
    decreases s.len(),
{
    if s.len() == 0 {
        None
    } else {
        let prev = best_follow_idx(s.drop_last(), path);
        let i = s.len() - 1;
        if crate::stores::is_follow_rec(s[i], path) {
            match prev {
                None => Some(i as int),
                Some(b) => if rec_beats(s[i], s[b]) {
                    Some(i as int)
                } else {
                    Some(b)
                },
            }
        } else {
            prev
        }
    }
}

/// The fate of one slot during restoration: a node to materialize, the
/// path's removal, or a failure.
pub enum SlotFate {
    Keep(crate::stores::NodeView),
    Gone,
    Broken(crate::EngineError),
}

/// The content a stored forward artifact yields, with the failure that
/// surfaces when it cannot be produced.
pub open spec fn content_of(td: TimeDir, name: Seq<char>) -> Result<Seq<u8>, crate::EngineError> {
    match td.artifacts.find(name) {
        None => Err(crate::EngineError::IoFailure),
        Some(a) => match crate::compression::decompress_of(a) {
            None => Err(crate::EngineError::CorruptArtifact),
            Some(d) => match crate::compression::patched_of(Seq::empty(), d) {
                None => Err(crate::EngineError::CorruptArtifact),
                Some(c) => Ok(c),
            },
        },
    }
}

/// The content a modified slot restores to: the slot's forward artifact
/// applied to its reference content — the empty buffer for a baseline slot,
/// the referenced baseline's own content otherwise.
pub open spec fn patch_slot_content(td: TimeDir, id: Seq<char>, reference: crate::stores::SlotRefView) -> Result<
    Seq<u8>,
    crate::EngineError,
> {
    match reference {
        crate::stores::SlotRefView::Baseline => content_of(td, id),
        crate::stores::SlotRefView::Reference(rid) => match content_of(td, rid) {
            Err(e) => Err(e),
            Ok(base) => match crate::stores::decoded_artifact(td, id) {
                None => Err(
                    if td.artifacts.find(id) is None {
                        crate::EngineError::IoFailure
                    } else {
                        crate::EngineError::CorruptArtifact
                    },
                ),
                Some(d) => match crate::compression::patched_of(base, d) {
                    None => Err(crate::EngineError::CorruptArtifact),
                    Some(c) => Ok(c),
                },
            },
        },
    }
}

/// The fate of a drifted or absent unmodified file: its baseline content.
pub open spec fn baseline_restore_fate(td: TimeDir, path: Seq<char>) -> SlotFate {
    if baseline_dates_bad(td.patch_store@, path) {
        SlotFate::Broken(crate::EngineError::CorruptArtifact)
    } else {
        match best_baseline_idx(td.patch_store@, path) {
            None => SlotFate::Broken(crate::EngineError::MissingBaseline),
            Some(j) => match content_of(td, rec_id(td.patch_store@[j])) {
                Err(e) => SlotFate::Broken(e),
                Ok(c) => SlotFate::Keep(crate::stores::NodeView::File(c)),
            },
        }
    }
}

/// The fate of a removed slot restored towards the past: the file's state
/// at its latest patch record, recreated from the baseline; a path with no
/// records keeps whatever currently stands there.
pub open spec fn removed_past_fate(td: TimeDir, path: Seq<char>, cur: FileTree) -> SlotFate {
    if baseline_dates_bad(td.patch_store@, path) || follow_dates_bad(td.patch_store@, path) {
        SlotFate::Broken(crate::EngineError::CorruptArtifact)
    } else {
        match best_baseline_idx(td.patch_store@, path) {
            None => match cur.find(path) {
                Some(n) => SlotFate::Keep(n),
                None => SlotFate::Gone,
            },
            Some(j) => match content_of(td, rec_id(td.patch_store@[j])) {
                Err(e) => SlotFate::Broken(e),
                Ok(base) => match best_follow_idx(td.patch_store@, path) {
                    None => SlotFate::Keep(crate::stores::NodeView::File(base)),
                    Some(f) => match crate::stores::decoded_artifact(
                        td,
                        rec_id(td.patch_store@[f]),
                    ) {
                        None => SlotFate::Broken(
                            if td.artifacts.find(rec_id(td.patch_store@[f])) is None {
                                crate::EngineError::IoFailure
                            } else {
                                crate::EngineError::CorruptArtifact
                            },
                        ),
                        Some(d) => match crate::compression::patched_of(base, d) {
                            None => SlotFate::Broken(crate::EngineError::CorruptArtifact),
                            Some(c) => SlotFate::Keep(crate::stores::NodeView::File(c)),
                        },
                    },
                },
            },
        }
    }
}

/// The fate of one decoded slot.
pub open spec fn slot_fate(
    v: crate::stores::SlotView,
    path: Seq<char>,
    td: TimeDir,
    cur: FileTree,
    past: bool,
) -> SlotFate {
    match v {
        crate::stores::SlotView::Dir => SlotFate::Keep(crate::stores::NodeView::Dir),
        crate::stores::SlotView::UnmodifiedDir => SlotFate::Keep(crate::stores::NodeView::Dir),
        crate::stores::SlotView::NewPatch { id, reference } => match patch_slot_content(
            td,
            id,
            reference,
        ) {
            Err(e) => SlotFate::Broken(e),
            Ok(c) => SlotFate::Keep(crate::stores::NodeView::File(c)),
        },
        crate::stores::SlotView::UnmodifiedFile { fingerprint } => match cur.find(path) {
            Some(crate::stores::NodeView::File(c)) => if crate::hashing::xxh3_of(c)
                == fingerprint {
                SlotFate::Keep(crate::stores::NodeView::File(c))
            } else {
                baseline_restore_fate(td, path)
            },
            _ => baseline_restore_fate(td, path),
        },
        crate::stores::SlotView::Removed => if past {
            removed_past_fate(td, path, cur)
        } else {
            SlotFate::Gone
        },
    }
}

/// The fate of slot `i` of a snapshot row, including how its persisted
/// strings decode.
pub open spec fn row_fate(
    entry: SnapshotEntries,
    i: int,
    td: TimeDir,
    cur: FileTree,
    past: bool,
) -> SlotFate {
    match crate::stores::parse_slot_spec(entry.patch_ids@[i]@, entry.ref_patch_ids@[i]@) {
        Err(e) => SlotFate::Broken(e),
        Ok(v) => slot_fate(v, entry.target_path@[i]@, td, cur, past),
    }
}

/// A byte-for-byte copy of a buffer.
fn copy_bytes(v: &Vec<u8>) -> (r: Vec<u8>)
    ensures
        r@ == v@,
{
    let mut r: Vec<u8> = Vec::new();
    let n = v.len();
    let mut i: usize = 0;
    while i < n
        invariant
            n == v@.len(),
            0 <= i <= n,
            r@ == v@.take(i as int),
        decreases n - i,
    {
        r.push(v[i]);
        proof {
            assert(r@ =~= v@.take(i + 1));
        }
        i = i + 1;
    }
    proof {
        assert(v@.take(n as int) =~= v@);
    }
    r
}

/// A copy of a tree node.
fn copy_node(n: &FsNode) -> (r: FsNode)
    ensures
        crate::stores::node_view(r) == crate::stores::node_view(*n),
{
    match n {
        FsNode::File(c) => FsNode::File(copy_bytes(c)),
        FsNode::Dir => FsNode::Dir,
    }
}

/// Decodes the artifact stored under a name: its decompressed delta.
fn load_decoded(time_dir: &TimeDir, name: &String) -> (r: Result<Vec<u8>, crate::EngineError>)
    ensures
        r matches Ok(d) ==> decoded_artifact(*time_dir, name@) == Some(d@),
        r == Err::<Vec<u8>, crate::EngineError>(crate::EngineError::IoFailure) <==> time_dir
            .artifacts.find(name@) is None,
        r == Err::<Vec<u8>, crate::EngineError>(crate::EngineError::CorruptArtifact) <==> (
        time_dir.artifacts.find(name@) is Some && decoded_artifact(*time_dir, name@) is None),
        r is Err ==> r == Err::<Vec<u8>, crate::EngineError>(crate::EngineError::IoFailure) || r
            == Err::<Vec<u8>, crate::EngineError>(crate::EngineError::CorruptArtifact),
{
    let stored = match time_dir.artifacts.read(name) {
        Some(a) => a,
        None => {
            return Err(crate::EngineError::IoFailure);
        },
    };
    match decompress_data(stored.clone()) {
        Ok(d) => Ok(d),
        Err(_) => Err(crate::EngineError::CorruptArtifact),
    }
}

/// Locates the selected baseline record of a path, as an index into the
/// store, refusing stores whose baseline timestamps do not parse.
fn best_baseline_index(patch_store: &Vec<DiffEntry>, path: &String) -> (r: Result<
    Option<usize>,
    crate::EngineError,
>)
    ensures
        r == Err::<Option<usize>, crate::EngineError>(crate::EngineError::CorruptArtifact)
            <==> baseline_dates_bad(patch_store@, path@),
        r is Err ==> r == Err::<Option<usize>, crate::EngineError>(
            crate::EngineError::CorruptArtifact,
        ),
        r matches Ok(o) ==> ((o matches Some(i) ==> best_baseline_idx(patch_store@, path@)
            == Some(i as int)) && (o is None ==> best_baseline_idx(patch_store@, path@) is None)),
{
    let n = patch_store.len();
    let mut best: Option<usize> = None;
    let mut i: usize = 0;
    proof {
        assert(patch_store@.take(0) =~= Seq::<DiffEntry>::empty());
    }
    while i < n
        invariant
            n == patch_store@.len(),
            0 <= i <= n,
            !baseline_dates_bad(patch_store@.take(i as int), path@),
            best matches Some(b) ==> b < i && best_baseline_idx(patch_store@.take(i as int), path@)
                == Some(b as int) && crate::stores::rec_instant(patch_store@[b as int]) is Some,
            best is None ==> best_baseline_idx(patch_store@.take(i as int), path@) is None,
        decreases n - i,
    {
        let e = &patch_store[i];
        proof {
            assert(patch_store@.take(i + 1).drop_last() =~= patch_store@.take(i as int));
            assert(patch_store@.take(i + 1).last() == patch_store@[i as int]);
        }
        if str_eq(e.ref_patch.as_str(), "First patch") && e.target_path == *path {
            let instant = match crate::clock::parse_ts(
                e.date_created.as_str(),
                "%Y-%m-%d %H:%M:%S%.9f %z",
            ) {
                Some(t) => t,
                None => {
                    proof {
                        assert(is_baseline_rec(patch_store@[i as int], path@));
                    }
                    return Err(crate::EngineError::CorruptArtifact);
                },
            };
            let take_it = match best {
                None => true,
                Some(b) => beats(patch_store, i, b),
            };
            if take_it {
                best = Some(i);
            }
        }
        proof {
            assert forall|k: int|
                0 <= k < i + 1 && is_baseline_rec(
                    #[trigger] patch_store@.take(i + 1)[k],
                    path@,
                ) implies crate::stores::rec_instant(patch_store@.take(i + 1)[k]) is Some by {
                assert(patch_store@.take(i + 1)[k] == patch_store@[k]);
                if k < i {
                    assert(patch_store@.take(i as int)[k] == patch_store@[k]);
                }
            }
        }
        i = i + 1;
    }
    proof {
        assert(patch_store@.take(n as int) =~= patch_store@);
    }
    Ok(best)
}

/// Decides whether record `a` beats record `b` in the selection order.
fn beats(patch_store: &Vec<DiffEntry>, a: usize, b: usize) -> (r: bool)
    requires
        a < patch_store@.len(),
        b < patch_store@.len(),
        crate::stores::rec_instant(patch_store@[a as int]) is Some,
        crate::stores::rec_instant(patch_store@[b as int]) is Some,
    ensures
        r == rec_beats(patch_store@[a as int], patch_store@[b as int]),
{
    let ea = &patch_store[a];
    let eb = &patch_store[b];
    let ia = match crate::clock::parse_ts(ea.date_created.as_str(), "%Y-%m-%d %H:%M:%S%.9f %z") {
        Some(t) => t,
        None => {
            proof {
                assert(false);
            }
            0
        },
    };
    let ib = match crate::clock::parse_ts(eb.date_created.as_str(), "%Y-%m-%d %H:%M:%S%.9f %z") {
        Some(t) => t,
        None => {
            proof {
                assert(false);
            }
            0
        },
    };
    if ia > ib {
        return true;
    }
    if ia < ib {
        return false;
    }
    let ida = crate::hashing::derive_patch_id(&ea.date_created, &ea.target_path);
    let idb = crate::hashing::derive_patch_id(&eb.date_created, &eb.target_path);
    crate::text::str_lex_less(idb.as_str(), ida.as_str())
}

/// Locates the selected non-baseline record of a path, as an index into the
/// store, refusing stores whose relevant timestamps do not parse.
fn best_follow_index(patch_store: &Vec<DiffEntry>, path: &String) -> (r: Result<
    Option<usize>,
    crate::EngineError,
>)
    ensures
        r == Err::<Option<usize>, crate::EngineError>(crate::EngineError::CorruptArtifact)
            <==> follow_dates_bad(patch_store@, path@),
        r is Err ==> r == Err::<Option<usize>, crate::EngineError>(
            crate::EngineError::CorruptArtifact,
        ),
        r matches Ok(o) ==> ((o matches Some(i) ==> best_follow_idx(patch_store@, path@) == Some(
            i as int,
        )) && (o is None ==> best_follow_idx(patch_store@, path@) is None)),
{
    let n = patch_store.len();
    let mut best: Option<usize> = None;
    let mut i: usize = 0;
    proof {
        assert(patch_store@.take(0) =~= Seq::<DiffEntry>::empty());
    }
    while i < n
        invariant
            n == patch_store@.len(),
            0 <= i <= n,
            !follow_dates_bad(patch_store@.take(i as int), path@),
            best matches Some(b) ==> b < i && best_follow_idx(patch_store@.take(i as int), path@)
                == Some(b as int) && crate::stores::rec_instant(patch_store@[b as int]) is Some,
            best is None ==> best_follow_idx(patch_store@.take(i as int), path@) is None,
        decreases n - i,
    {
        let e = &patch_store[i];
        proof {
            assert(patch_store@.take(i + 1).drop_last() =~= patch_store@.take(i as int));
            assert(patch_store@.take(i + 1).last() == patch_store@[i as int]);
        }
        if !str_eq(e.ref_patch.as_str(), "First patch") && e.target_path == *path {
            let instant = match crate::clock::parse_ts(
                e.date_created.as_str(),
                "%Y-%m-%d %H:%M:%S%.9f %z",
            ) {
                Some(t) => t,
                None => {
                    proof {
                        assert(crate::stores::is_follow_rec(patch_store@[i as int], path@));
                    }
                    return Err(crate::EngineError::CorruptArtifact);
                },
            };
            let take_it = match best {
                None => true,
                Some(b) => beats(patch_store, i, b),
            };
            if take_it {
                best = Some(i);
            }
        }
        proof {
            assert forall|k: int|
                0 <= k < i + 1 && crate::stores::is_follow_rec(
                    #[trigger] patch_store@.take(i + 1)[k],
                    path@,
                ) implies crate::stores::rec_instant(patch_store@.take(i + 1)[k]) is Some by {
                assert(patch_store@.take(i + 1)[k] == patch_store@[k]);
                if k < i {
                    assert(patch_store@.take(i as int)[k] == patch_store@[k]);
                }
            }
        }
        i = i + 1;
    }
    proof {
        assert(patch_store@.take(n as int) =~= patch_store@);
    }
    Ok(best)
}

/// The view of a slot reference.
pub open spec fn slot_ref_view(r: crate::stores::SlotRef) -> crate::stores::SlotRefView {
    match r {
        crate::stores::SlotRef::Baseline => crate::stores::SlotRefView::Baseline,
        crate::stores::SlotRef::Reference(s) => crate::stores::SlotRefView::Reference(s@),
    }
}

/// Materializes the content of a modified slot from its artifacts.
fn restore_patch_slot(
    time_dir: &TimeDir,
    id: &String,
    reference: &crate::stores::SlotRef,
) -> (r: Result<Vec<u8>, crate::EngineError>)
    ensures
        r matches Ok(c) ==> patch_slot_content(*time_dir, id@, slot_ref_view(*reference)) == Ok::<
            Seq<u8>,
            crate::EngineError,
        >(c@),
        r matches Err(e) ==> patch_slot_content(*time_dir, id@, slot_ref_view(*reference))
            == Err::<Seq<u8>, crate::EngineError>(e) && (e == crate::EngineError::IoFailure || e
            == crate::EngineError::CorruptArtifact),
{
    match reference {
        crate::stores::SlotRef::Baseline => {
            proof {
                assert(slot_ref_view(*reference) == crate::stores::SlotRefView::Baseline);
            }
            load_artifact_content(time_dir, id)
        },
        crate::stores::SlotRef::Reference(rid) => {
            proof {
                assert(slot_ref_view(*reference) == crate::stores::SlotRefView::Reference(rid@));
            }
            let base = match load_artifact_content(time_dir, rid) {
                Ok(c) => c,
                Err(e) => {
                    proof {
                        assert(content_of(*time_dir, rid@) == Err::<Seq<u8>, crate::EngineError>(
                            e,
                        ));
                        assert(patch_slot_content(*time_dir, id@, slot_ref_view(*reference))
                            == Err::<Seq<u8>, crate::EngineError>(e));
                    }
                    return Err(e);
                },
            };
            let d = match load_decoded(time_dir, id) {
                Ok(d) => d,
                Err(e) => {
                    proof {
                        assert(content_of(*time_dir, rid@) == Ok::<Seq<u8>, crate::EngineError>(
                            base@,
                        ));
                        assert(decoded_artifact(*time_dir, id@) is None);
                        assert(patch_slot_content(*time_dir, id@, slot_ref_view(*reference))
                            == Err::<Seq<u8>, crate::EngineError>(e));
                    }
                    return Err(e);
                },
            };
            proof {
                assert(decoded_artifact(*time_dir, id@) == Some(d@));
            }
            match apply_delta(&base, &d) {
                Ok(c) => {
                    proof {
                        assert(patch_slot_content(*time_dir, id@, slot_ref_view(*reference))
                            == Ok::<Seq<u8>, crate::EngineError>(c@));
                    }
                    Ok(c)
                },
                Err(_) => {
                    proof {
                        assert(patch_slot_content(*time_dir, id@, slot_ref_view(*reference))
                            == Err::<Seq<u8>, crate::EngineError>(
                            crate::EngineError::CorruptArtifact,
                        ));
                    }
                    Err(crate::EngineError::CorruptArtifact)
                },
            }
        },
    }
}

/// Materializes the baseline content of a path, as restoration does for a
/// drifted or absent unmodified file.
fn restore_from_baseline(time_dir: &TimeDir, path: &String) -> (r: Result<
    Vec<u8>,
    crate::EngineError,
>)
    ensures
        r matches Ok(c) ==> baseline_restore_fate(*time_dir, path@) == SlotFate::Keep(
            crate::stores::NodeView::File(c@),
        ),
        r matches Err(e) ==> baseline_restore_fate(*time_dir, path@) == SlotFate::Broken(e) && e
            != crate::EngineError::UnsupportedMode,
{
    let bb = match best_baseline_index(&time_dir.patch_store, path) {
        Ok(o) => o,
        Err(e) => {
            return Err(e);
        },
    };
    let b = match bb {
        Some(b) => b,
        None => {
            return Err(crate::EngineError::MissingBaseline);
        },
    };
    proof {
        lemma_best_baseline_props(time_dir.patch_store@, path@);
    }
    let rec = &time_dir.patch_store[b];
    let rid_s = crate::hashing::derive_patch_id(&rec.date_created, &rec.target_path);
    load_artifact_content(time_dir, &rid_s)
}

/// Recreates a removed path while restoring towards the past: the file's
/// state at its latest record, or whatever currently stands there when the
/// store never knew the path.
fn restore_removed_past(time_dir: &TimeDir, current: &FileTree, path: &String) -> (r: Result<
    Option<FsNode>,
    crate::EngineError,
>)
    requires
        current.wf(),
    ensures
        r matches Ok(o) ==> ((o matches Some(nd) ==> removed_past_fate(*time_dir, path@, *current)
            == SlotFate::Keep(crate::stores::node_view(nd))) && (o is None ==> removed_past_fate(
            *time_dir,
            path@,
            *current,
        ) is Gone)),
        r matches Err(e) ==> removed_past_fate(*time_dir, path@, *current) == SlotFate::Broken(e)
            && e != crate::EngineError::UnsupportedMode,
{
    let bb = match best_baseline_index(&time_dir.patch_store, path) {
        Ok(o) => o,
        Err(e) => {
            return Err(e);
        },
    };
    let bf = match best_follow_index(&time_dir.patch_store, path) {
        Ok(o) => o,
        Err(e) => {
            return Err(e);
        },
    };
    match bb {
        None => {
            match current.lookup(path) {
                Some(nd) => Ok(Some(copy_node(nd))),
                None => Ok(None),
            }
        },
        Some(b) => {
            proof {
                lemma_best_baseline_props(time_dir.patch_store@, path@);
                lemma_best_follow_props(time_dir.patch_store@, path@);
            }
            let rec = &time_dir.patch_store[b];
            let rid_s = crate::hashing::derive_patch_id(&rec.date_created, &rec.target_path);
            let base = match load_artifact_content(time_dir, &rid_s) {
                Ok(c) => c,
                Err(e) => {
                    return Err(e);
                },
            };
            match bf {
                None => Ok(Some(FsNode::File(base))),
                Some(f) => {
                    let frec = &time_dir.patch_store[f];
                    let fid_s = crate::hashing::derive_patch_id(
                        &frec.date_created,
                        &frec.target_path,
                    );
                    let d = match load_decoded(time_dir, &fid_s) {
                        Ok(d) => d,
                        Err(e) => {
                            return Err(e);
                        },
                    };
                    match apply_delta(&base, &d) {
                        Ok(c) => Ok(Some(FsNode::File(c))),
                        Err(_) => Err(crate::EngineError::CorruptArtifact),
                    }
                },
            }
        },
    }
}

/// Acts on one decoded slot: the node to store for the path, nothing for a
/// dropped path, or the slot's failure.
fn restore_slot_node(
    slot: Slot,
    path: &String,
    time_dir: &TimeDir,
    current: &FileTree,
    past: bool,
) -> (r: Result<Option<FsNode>, crate::EngineError>)
    requires
        current.wf(),
    ensures
        r matches Ok(o) ==> ((o matches Some(nd) ==> slot_fate(
            crate::stores::slot_view(slot),
            path@,
            *time_dir,
            *current,
            past,
        ) == SlotFate::Keep(crate::stores::node_view(nd))) && (o is None ==> slot_fate(
            crate::stores::slot_view(slot),
            path@,
            *time_dir,
            *current,
            past,
        ) is Gone)),
        r matches Err(e) ==> slot_fate(
            crate::stores::slot_view(slot),
            path@,
            *time_dir,
            *current,
            past,
        ) == SlotFate::Broken(e) && e != crate::EngineError::UnsupportedMode,
{
    match slot {
        Slot::Dir => Ok(Some(FsNode::Dir)),
        Slot::UnmodifiedDir => Ok(Some(FsNode::Dir)),
        Slot::NewPatch { id, reference } => {
            match restore_patch_slot(time_dir, &id, &reference) {
                Ok(c) => Ok(Some(FsNode::File(c))),
                Err(e) => Err(e),
            }
        },
        Slot::UnmodifiedFile { fingerprint } => {
            match current.lookup(path) {
                Some(FsNode::File(c)) => {
                    if crate::hashing::xxh3_64_bytes(c) == fingerprint {
                        Ok(Some(FsNode::File(copy_bytes(c))))
                    } else {
                        match restore_from_baseline(time_dir, path) {
                            Ok(c2) => Ok(Some(FsNode::File(c2))),
                            Err(e) => Err(e),
                        }
                    }
                },
                _ => {
                    match restore_from_baseline(time_dir, path) {
                        Ok(c2) => Ok(Some(FsNode::File(c2))),
                        Err(e) => Err(e),
                    }
                },
            }
        },
        Slot::Removed => {
            if past {
                restore_removed_past(time_dir, current, path)
            } else {
                Ok(None)
            }
        },
    }
}

/// The selected baseline index names a baseline record.
proof fn lemma_best_baseline_props(s: Seq<DiffEntry>, path: Seq<char>)
    ensures
        best_baseline_idx(s, path) matches Some(j) ==> 0 <= j < s.len() && is_baseline_rec(
            s[j],
            path,
        ),
    decreases s.len(),
{
    if s.len() > 0 {
        lemma_best_baseline_props(s.drop_last(), path);
        let prev = best_baseline_idx(s.drop_last(), path);
        if prev is Some {
            assert(s.drop_last()[prev->Some_0] == s[prev->Some_0]);
        }
    }
}

/// The selected non-baseline index names a non-baseline record.
proof fn lemma_best_follow_props(s: Seq<DiffEntry>, path: Seq<char>)
    ensures
        best_follow_idx(s, path) matches Some(j) ==> 0 <= j < s.len()
            && crate::stores::is_follow_rec(s[j], path),
    decreases s.len(),
{
    if s.len() > 0 {
        lemma_best_follow_props(s.drop_last(), path);
        let prev = best_follow_idx(s.drop_last(), path);
        if prev is Some {
            assert(s.drop_last()[prev->Some_0] == s[prev->Some_0]);
        }
    }
}

/// Ensures a path can be written: when the tree does not hold it yet, its
/// ancestor directories are created where absent and an empty file is put
/// in place.  A path the tree already holds is left untouched.
pub fn check_and_create(tree: &mut FileTree, target_path: &String)
    requires
        old(tree).wf(),
    ensures
        final(tree).wf(),
        old(tree).find(target_path@) is Some ==> *final(tree) == *old(tree),
        old(tree).find(target_path@) is None ==> final(tree).find(target_path@) == Some(
            crate::stores::NodeView::File(Seq::empty()),
        ),
        forall|p: Seq<char>|
            p != target_path@ ==> (final(tree).find(p) == old(tree).find(p) || (old(tree).find(p)
                is None && final(tree).find(p) == Some(crate::stores::NodeView::Dir)
                && crate::text::is_under_dir(p, target_path@))),
{
    match tree.lookup(target_path) {
        Some(_) => {
            return ;
        },
        None => {},
    }
    let qlen = target_path.as_str().unicode_len();
    let mut ancestor = String::new();
    let mut m: usize = 0;
    while m < qlen
        invariant
            qlen == target_path@.len(),
            0 <= m <= qlen,
            ancestor@ == target_path@.take(m as int),
            tree.wf(),
            tree.find(target_path@) is None,
            forall|p: Seq<char>|
                (#[trigger] tree.find(p)) == old(tree).find(p) || (old(tree).find(p) is None
                    && tree.find(p) == Some(crate::stores::NodeView::Dir)
                    && crate::text::is_under_dir(p, target_path@)),
        decreases qlen - m,
    {
        let ch = target_path.as_str().get_char(m);
        if ch == '/' && m + 1 < qlen {
            let absent = match tree.lookup(&ancestor) {
                Some(_) => false,
                None => true,
            };
            if absent {
                let ghost prev_tree = *tree;
                proof {
                    assert(ancestor@.len() != target_path@.len());
                    assert(crate::text::is_under_dir(ancestor@, target_path@)) by {
                        assert(target_path@.subrange(0, m as int) =~= target_path@.take(m as int));
                        assert(target_path@[m as int] == '/');
                    }
                }
                tree.set_node(&ancestor, FsNode::Dir);
                proof {
                    assert forall|p: Seq<char>| (#[trigger] tree.find(p)) == old(tree).find(p) || (
                    old(tree).find(p) is None && tree.find(p) == Some(
                        crate::stores::NodeView::Dir,
                    ) && crate::text::is_under_dir(p, target_path@)) by {
                        if p != ancestor@ {
                            assert(tree.find(p) == prev_tree.find(p));
                        }
                    }
                    assert(tree.find(target_path@) == prev_tree.find(target_path@));
                }
            }
        }
        proof {
            assert(target_path@.take(m + 1) =~= target_path@.take(m as int).push(
                target_path@[m as int],
            ));
        }
        crate::text::push_char(&mut ancestor, ch);
        m = m + 1;
    }
    let ghost prev_tree = *tree;
    let empty_file: Vec<u8> = Vec::new();
    proof {
        assert(empty_file@ =~= Seq::<u8>::empty());
    }
    tree.set_node(target_path, FsNode::File(empty_file));
    proof {
        assert forall|p: Seq<char>|
            p != target_path@ implies (tree.find(p) == old(tree).find(p) || (old(tree).find(p)
                is None && tree.find(p) == Some(crate::stores::NodeView::Dir)
                && crate::text::is_under_dir(p, target_path@))) by {
            assert(tree.find(p) == prev_tree.find(p));
        }
    }
}

/// Materializes the tracked tree at one snapshot row.  Every slot is
/// decoded and acted on per the restoration decision table; paths the row
/// does not keep are absent from the result, and ancestor directories of
/// kept paths are created.  The returned tree holds, for every slot, the
/// exact content the slot's fate prescribes.
#[verifier::rlimit(100)]
/// Everything a successful restoration of one row guarantees of the
/// resulting tree: no slot is broken, every kept slot holds exactly the
/// content its fate prescribes, a removed slot's path is gone unless a kept
/// path lies strictly under it (then the directory survives), and nothing
/// stands in the tree beyond kept slots and the ancestor directories of
/// kept paths.
pub open spec fn restored_to(
    t: FileTree,
    row: SnapshotEntries,
    td: TimeDir,
    base: FileTree,
    past: bool,
) -> bool {
    &&& t.wf()
    &&& forall|i: int|
        0 <= i < row.target_path@.len() ==> !((#[trigger] row_fate(row, i, td, base, past))
            is Broken)
    &&& forall|i: int|
        0 <= i < row.target_path@.len() ==> ((#[trigger] row_fate(row, i, td, base, past))
            matches SlotFate::Keep(nd) ==> t.find(row.target_path@[i]@) == Some(nd))
    &&& forall|i: int|
        0 <= i < row.target_path@.len() ==> ((#[trigger] row_fate(row, i, td, base, past))
            is Gone ==> (t.find(row.target_path@[i]@) is None || (t.find(row.target_path@[i]@)
            == Some(crate::stores::NodeView::Dir) && exists|j: int|
            0 <= j < row.target_path@.len() && row_fate(row, j, td, base, past) is Keep
                && crate::text::is_under_dir(
                row.target_path@[i]@,
                (#[trigger] row.target_path@[j])@,
            ))))
    &&& forall|p: Seq<char>|
        (#[trigger] t.find(p)) is Some ==> ((exists|i: int|
            0 <= i < row.target_path@.len() && (#[trigger] row.target_path@[i])@ == p && row_fate(
                row,
                i,
                td,
                base,
                past,
            ) is Keep) || (t.find(p) == Some(crate::stores::NodeView::Dir) && exists|i: int|
            0 <= i < row.target_path@.len() && row_fate(row, i, td, base, past) is Keep
                && crate::text::is_under_dir(p, (#[trigger] row.target_path@[i])@)))
}

pub fn restore_snapshot(
    entry: &SnapshotEntries,
    time_dir: &TimeDir,
    current: &FileTree,
    past: bool,
    snapshot_mode: &String,
) -> (r: Result<FileTree, crate::EngineError>)
    requires
        entry.wf(),
        current.wf(),
        forall|i: int, j: int|
            0 <= i < j < entry.target_path@.len() ==> (#[trigger] entry.target_path@[i])@ != (
            #[trigger] entry.target_path@[j])@,
    ensures
        snapshot_mode@ != "fastest"@ <==> r == Err::<FileTree, crate::EngineError>(
            crate::EngineError::UnsupportedMode,
        ),
        (snapshot_mode@ == "fastest"@ && r is Err) ==> exists|i: int|
            0 <= i < entry.target_path@.len() && row_fate(*entry, i, *time_dir, *current, past)
                == SlotFate::Broken(r->Err_0),
        r matches Ok(t) ==> restored_to(t, *entry, *time_dir, *current, past),
{
    if !str_eq(snapshot_mode.as_str(), "fastest") {
        return Err(crate::EngineError::UnsupportedMode);
    }
    let n = entry.target_path.len();
    let mut result = FileTree::new();
    let mut i: usize = 0;
    while i < n
        invariant
            snapshot_mode@ == "fastest"@,
            entry.wf(),
            current.wf(),
            n == entry.target_path@.len(),
            forall|a: int, b: int|
                0 <= a < b < n ==> (#[trigger] entry.target_path@[a])@ != (
                #[trigger] entry.target_path@[b])@,
            0 <= i <= n,
            result.wf(),
            forall|t: int|
                0 <= t < i ==> !((#[trigger] row_fate(*entry, t, *time_dir, *current, past))
                    is Broken),
            forall|t: int|
                0 <= t < i ==> ((#[trigger] row_fate(*entry, t, *time_dir, *current, past))
                    matches SlotFate::Keep(nd) ==> result.find(entry.target_path@[t]@) == Some(
                    nd,
                )),
            forall|p: Seq<char>|
                (#[trigger] result.find(p)) is Some ==> ((exists|t: int|
                    0 <= t < i && (#[trigger] entry.target_path@[t])@ == p && row_fate(
                        *entry,
                        t,
                        *time_dir,
                        *current,
                        past,
                    ) is Keep) || (result.find(p) == Some(crate::stores::NodeView::Dir) && exists|
                    t: int,
                |
                    0 <= t < i && row_fate(*entry, t, *time_dir, *current, past) is Keep
                        && crate::text::is_under_dir(p, (#[trigger] entry.target_path@[t])@))),
        decreases n - i,
    {
        let path = &entry.target_path[i];
        let ghost fate = row_fate(*entry, i as int, *time_dir, *current, past);
        let slot = match crate::stores::parse_slot(&entry.patch_ids[i], &entry.ref_patch_ids[i]) {
            Ok(s) => s,
            Err(e) => {
                proof {
                    assert(fate == SlotFate::Broken(e));
                }
                return Err(e);
            },
        };
        match restore_slot_node(slot, path, time_dir, current, past) {
            Ok(Some(nd)) => {
                proof {
                    assert(fate == SlotFate::Keep(crate::stores::node_view(nd)));
                }
                let ghost prev_tree = result;
                check_and_create(&mut result, path);
                let ghost mid_tree = result;
                result.set_node(path, nd);
                proof {
                    assert forall|p: Seq<char>| (#[trigger] result.find(p)) is Some implies ((
                    exists|t: int|
                        0 <= t < i + 1 && (#[trigger] entry.target_path@[t])@ == p && row_fate(
                            *entry,
                            t,
                            *time_dir,
                            *current,
                            past,
                        ) is Keep) || (result.find(p) == Some(crate::stores::NodeView::Dir)
                        && exists|t: int|
                        0 <= t < i + 1 && row_fate(*entry, t, *time_dir, *current, past) is Keep
                            && crate::text::is_under_dir(
                            p,
                            (#[trigger] entry.target_path@[t])@,
                        ))) by {
                        if p == path@ {
                            assert(entry.target_path@[i as int]@ == p && row_fate(
                                *entry,
                                i as int,
                                *time_dir,
                                *current,
                                past,
                            ) is Keep);
                        } else {
                            assert(result.find(p) == mid_tree.find(p));
                            assert(mid_tree.find(p) == prev_tree.find(p) || (prev_tree.find(p)
                                is None && mid_tree.find(p) == Some(crate::stores::NodeView::Dir)
                                && crate::text::is_under_dir(p, path@)));
                            if mid_tree.find(p) != prev_tree.find(p) {
                                assert(crate::text::is_under_dir(
                                    p,
                                    (entry.target_path@[i as int])@,
                                ) && row_fate(*entry, i as int, *time_dir, *current, past)
                                    is Keep);
                            }
                        }
                    }
                    assert forall|t: int| 0 <= t < i + 1 implies ((#[trigger] row_fate(
                        *entry,
                        t,
                        *time_dir,
                        *current,
                        past,
                    )) matches SlotFate::Keep(nd2) ==> result.find(entry.target_path@[t]@)
                        == Some(nd2)) by {
                        if t < i {
                            let q = entry.target_path@[t]@;
                            assert(q != path@);
                            let prior = row_fate(*entry, t, *time_dir, *current, past);
                            if prior is Keep {
                                assert(prev_tree.find(q) == Some(prior->Keep_0));
                                assert(mid_tree.find(q) == Some(prior->Keep_0));
                                assert(result.find(q) == mid_tree.find(q));
                            }
                        }
                    }
                }
            },
            Ok(None) => {
                proof {
                    assert(fate is Gone);
                }
            },
            Err(e) => {
                proof {
                    assert(fate == SlotFate::Broken(e));
                }
                return Err(e);
            },
        }
        i = i + 1;
    }
    proof {
        assert forall|ii: int|
            0 <= ii < n implies ((#[trigger] row_fate(*entry, ii, *time_dir, *current, past))
            is Gone ==> (result.find(entry.target_path@[ii]@) is None || (result.find(
            entry.target_path@[ii]@,
        ) == Some(crate::stores::NodeView::Dir) && exists|j: int|
            0 <= j < n && row_fate(*entry, j, *time_dir, *current, past) is Keep
                && crate::text::is_under_dir(
                entry.target_path@[ii]@,
                (#[trigger] entry.target_path@[j])@,
            )))) by {
            let q = entry.target_path@[ii]@;
            if row_fate(*entry, ii, *time_dir, *current, past) is Gone && result.find(q)
                is Some {
                if exists|t: int|
                    0 <= t < n && (#[trigger] entry.target_path@[t])@ == q && row_fate(
                        *entry,
                        t,
                        *time_dir,
                        *current,
                        past,
                    ) is Keep {
                    let t = choose|t: int|
                        0 <= t < n && (#[trigger] entry.target_path@[t])@ == q && row_fate(
                            *entry,
                            t,
                            *time_dir,
                            *current,
                            past,
                        ) is Keep;
                    if t != ii {
                        assert(entry.target_path@[t]@ != entry.target_path@[ii]@);
                    }
                    assert(t == ii);
                    assert(false);
                }
                assert(result.find(q) == Some(crate::stores::NodeView::Dir));
                let w = choose|t: int|
                    0 <= t < i && row_fate(*entry, t, *time_dir, *current, past) is Keep
                        && crate::text::is_under_dir(q, (#[trigger] entry.target_path@[t])@);
                assert(0 <= w < n && row_fate(*entry, w, *time_dir, *current, past) is Keep
                    && crate::text::is_under_dir(q, entry.target_path@[w]@));
            }
        }
        assert(restored_to(result, *entry, *time_dir, *current, past));
    }
    Ok(result)
}

/// Unmodified fingerprint: when the on-disk content's fast digest equals
/// the slot's stored fingerprint, restoration keeps that very content and
/// touches nothing.
pub proof fn lemma_unmodified_fingerprint(
    fingerprint: u64,
    path: Seq<char>,
    td: TimeDir,
    cur: FileTree,
    past: bool,
    c: Seq<u8>,
)
    requires
        cur.find(path) == Some(crate::stores::NodeView::File(c)),
        crate::hashing::xxh3_of(c) == fingerprint,
    ensures
        slot_fate(
            crate::stores::SlotView::UnmodifiedFile { fingerprint },
            path,
            td,
            cur,
            past,
        ) == SlotFate::Keep(crate::stores::NodeView::File(c)),
{
}

/// Bidirectional closure: a slot's restored outcome is a function of the
/// target snapshot and the stores alone, not of the tree the restoration
/// starts from — except for an unmodified-file slot, whose drift check
/// reads the present content, and a removed slot restored pastwards whose
/// path the store holds no baseline for, which keeps whatever stands there.
/// So restoring to one snapshot and then to another leaves, slot for slot,
/// the same tree as restoring to the second directly.
pub proof fn lemma_restore_independent(
    entry: SnapshotEntries,
    i: int,
    td: TimeDir,
    cur1: FileTree,
    cur2: FileTree,
    past: bool,
)
    requires
        entry.wf(),
        0 <= i < entry.target_path@.len(),
        crate::stores::parse_slot_spec(
            entry.patch_ids@[i]@,
            entry.ref_patch_ids@[i]@,
        ) matches Ok(v) ==> !(v is UnmodifiedFile) && ((v is Removed && past)
            ==> best_baseline_idx(td.patch_store@, entry.target_path@[i]@) is Some),
    ensures
        row_fate(entry, i, td, cur1, past) == row_fate(entry, i, td, cur2, past),
{
    let parsed = crate::stores::parse_slot_spec(entry.patch_ids@[i]@, entry.ref_patch_ids@[i]@);
    if parsed is Ok {
        let v = parsed->Ok_0;
        let p = entry.target_path@[i]@;
        match v {
            crate::stores::SlotView::Removed => {
                if past {
                    assert(removed_past_fate(td, p, cur1) == removed_past_fate(td, p, cur2));
                }
            },
            _ => {},
        }
    }
}

/// Whether a snapshot row's timestamp denotes the same instant as the
/// selected one.
pub open spec fn row_matches(row: SnapshotEntries, selected: Seq<char>) -> bool {
    &&& crate::clock::ts_instant_of(row.date_created@, crate::clock::full_format()) is Some
    &&& crate::clock::ts_instant_of(row.date_created@, crate::clock::full_format())
        == crate::clock::ts_instant_of(selected, crate::clock::full_format())
}

/// Restores the tree to the selected snapshot.  In the fastest mode no
/// intermediate snapshot needs replaying: every row whose creation instant
/// equals the selected one is applied directly, and the tree is returned
/// unchanged when no row matches.
/// Bidirectional closure at tree level: however the tracked tree stood
/// before, two restorations of the same row whose slots resolve alike
/// produce the same node at every kept path.  With the slot-level
/// independence lemma discharging the fate equality, restoring to one
/// snapshot and then to another leaves each tracked path as restoring to
/// the second directly would.
pub proof fn lemma_restore_closure(
    t1: FileTree,
    t2: FileTree,
    row: SnapshotEntries,
    td: TimeDir,
    base1: FileTree,
    base2: FileTree,
    past: bool,
)
    requires
        restored_to(t1, row, td, base1, past),
        restored_to(t2, row, td, base2, past),
        forall|i: int|
            0 <= i < row.target_path@.len() ==> #[trigger] row_fate(row, i, td, base1, past)
                == row_fate(row, i, td, base2, past),
    ensures
        forall|i: int|
            0 <= i < row.target_path@.len() && (#[trigger] row_fate(row, i, td, base1, past))
                is Keep ==> t1.find(row.target_path@[i]@) == t2.find(row.target_path@[i]@),
{
}

/// Whether exactly one row of the store denotes the selected instant.
pub open spec fn sole_match(store: Seq<SnapshotEntries>, selected: Seq<char>, m: int) -> bool {
    &&& 0 <= m < store.len()
    &&& row_matches(store[m], selected)
    &&& forall|k: int|
        0 <= k < store.len() && k != m ==> !row_matches(#[trigger] store[k], selected)
}

/// Restores the tree to the selected snapshot.  In the fastest mode no
/// intermediate snapshot needs replaying: every row whose creation instant
/// equals the selected one is applied directly, in store order, and a
/// selection that parses to no stored row is refused.  When exactly one
/// row matches — the ordinary case, since rows carry distinct stamps — the
/// result is precisely that row's restoration of the given tree.
pub fn restore_snapshot_until(
    snapshot_store: &Vec<SnapshotEntries>,
    selected_item: &String,
    current: FileTree,
    time_dir: &TimeDir,
    in_past: bool,
    snapshot_mode: &String,
) -> (r: Result<FileTree, crate::EngineError>)
    requires
        current.wf(),
        forall|k: int| 0 <= k < snapshot_store@.len() ==> (#[trigger] snapshot_store@[k]).wf(),
        forall|k: int, i: int, j: int|
            #![trigger snapshot_store@[k].target_path@[i], snapshot_store@[k].target_path@[j]]
            0 <= k < snapshot_store@.len() && 0 <= i < j
                < snapshot_store@[k].target_path@.len() ==> snapshot_store@[k].target_path@[i]@
                != snapshot_store@[k].target_path@[j]@,
    ensures
        snapshot_mode@ != "fastest"@ <==> r == Err::<FileTree, crate::EngineError>(
            crate::EngineError::UnsupportedMode,
        ),
        snapshot_mode@ == "fastest"@ ==> (r == Err::<FileTree, crate::EngineError>(
            crate::EngineError::InvalidSelection,
        ) <==> !(exists|k: int|
            0 <= k < snapshot_store@.len() && row_matches(
                #[trigger] snapshot_store@[k],
                selected_item@,
            ))),
        r matches Ok(t) ==> t.wf(),
        forall|m: int|
            (sole_match(snapshot_store@, selected_item@, m) && r is Ok) ==> restored_to(
                r->Ok_0,
                snapshot_store@[m],
                *time_dir,
                current,
                in_past,
            ),
        forall|m: int|
            (sole_match(snapshot_store@, selected_item@, m) && snapshot_mode@ == "fastest"@ && r
                is Err) ==> exists|i: int|
                0 <= i < snapshot_store@[m].target_path@.len() && row_fate(
                    snapshot_store@[m],
                    i,
                    *time_dir,
                    current,
                    in_past,
                ) == SlotFate::Broken(r->Err_0),
{
    if !str_eq(snapshot_mode.as_str(), "fastest") {
        return Err(crate::EngineError::UnsupportedMode);
    }
    let selected_instant = match crate::clock::parse_ts(
        selected_item.as_str(),
        "%Y-%m-%d %H:%M:%S%.9f %z",
    ) {
        Some(t) => t,
        None => {
            proof {
                assert forall|k: int|
                    0 <= k < snapshot_store@.len() implies !row_matches(
                    #[trigger] snapshot_store@[k],
                    selected_item@,
                ) by {}
            }
            return Err(crate::EngineError::InvalidSelection);
        },
    };
    let n = snapshot_store.len();
    let ghost orig_tree = current;
    let mut tree = current;
    let mut matched = false;
    let mut i: usize = 0;
    while i < n
        invariant
            snapshot_mode@ == "fastest"@,
            n == snapshot_store@.len(),
            0 <= i <= n,
            tree.wf(),
            forall|k: int| 0 <= k < n ==> (#[trigger] snapshot_store@[k]).wf(),
            forall|k: int, a: int, b: int|
                #![trigger snapshot_store@[k].target_path@[a], snapshot_store@[k].target_path@[b]]
                0 <= k < n && 0 <= a < b < snapshot_store@[k].target_path@.len()
                    ==> snapshot_store@[k].target_path@[a]@ != snapshot_store@[k].target_path@[b]@,
            crate::clock::ts_instant_of(selected_item@, crate::clock::full_format()) == Some(
                selected_instant as int,
            ),
            orig_tree == current,
            !matched ==> tree == orig_tree && forall|k: int|
                0 <= k < i ==> !row_matches(#[trigger] snapshot_store@[k], selected_item@),
            matched ==> exists|k: int|
                0 <= k < i && row_matches(#[trigger] snapshot_store@[k], selected_item@),
            forall|m: int|
                sole_match(snapshot_store@, selected_item@, m) && m < i ==> restored_to(
                    tree,
                    snapshot_store@[m],
                    *time_dir,
                    orig_tree,
                    in_past,
                ),
            forall|m: int|
                sole_match(snapshot_store@, selected_item@, m) && m >= i ==> tree == orig_tree,
        decreases n - i,
    {
        let row = &snapshot_store[i];
        let row_instant = crate::clock::parse_ts(
            row.date_created.as_str(),
            "%Y-%m-%d %H:%M:%S%.9f %z",
        );
        let is_match = match row_instant {
            Some(t) => t == selected_instant,
            None => false,
        };
        proof {
            assert(is_match == row_matches(snapshot_store@[i as int], selected_item@));
        }
        if is_match {
            let applied = restore_snapshot(row, time_dir, &tree, in_past, snapshot_mode);
            proof {
                assert forall|m: int|
                    sole_match(snapshot_store@, selected_item@, m) implies m == i as int by {
                    if m != i as int {
                        assert(!row_matches(snapshot_store@[i as int], selected_item@));
                    }
                }
            }
            tree = match applied {
                Ok(t) => t,
                Err(e) => {
                    proof {
                        assert(e != crate::EngineError::UnsupportedMode);
                        assert forall|m: int|
                            sole_match(snapshot_store@, selected_item@, m) implies exists|s: int|
                            0 <= s < snapshot_store@[m].target_path@.len() && row_fate(
                                snapshot_store@[m],
                                s,
                                *time_dir,
                                current,
                                in_past,
                            ) == SlotFate::Broken(e) by {
                            assert(m == i as int);
                            if matched {
                                let kk = choose|kk: int|
                                    0 <= kk < i && row_matches(
                                        #[trigger] snapshot_store@[kk],
                                        selected_item@,
                                    );
                                assert(kk != m);
                                assert(false);
                            }
                            assert(tree == orig_tree);
                            assert(orig_tree == current);
                            let s = choose|s: int|
                                0 <= s < snapshot_store@[i as int].target_path@.len() && row_fate(
                                    snapshot_store@[i as int],
                                    s,
                                    *time_dir,
                                    tree,
                                    in_past,
                                ) == SlotFate::Broken(e);
                            assert(row_fate(snapshot_store@[m], s, *time_dir, current, in_past)
                                == SlotFate::Broken(e));
                        }
                    }
                    return Err(e);
                },
            };
            matched = true;
        }
        i = i + 1;
    }
    if !matched {
        return Err(crate::EngineError::InvalidSelection);
    }
    Ok(tree)
}

} // verus!
