//! Change detection, metadata maintenance, and patch construction: the
//! snapshot half of the engine.

use vstd::prelude::*;
use vstd::string::StrSliceExecFns;

use crate::stores::{
    find_meta, find_mod, has_meta, meta_view, mod_view, reverse_name_of, unique_meta_paths,
    unique_mod_paths, DiffEntry, FileTree, FsNode, MetaFile, MetaView, ModView, ModifiedList,
    TimeDir,
};
use crate::hashing::{patch_id_of, sha256_bytes, strong_hash_of};
use crate::text::{contains_text, has_substring, literal_string, to_lower_hex};

verus! {

/// The strong content digest of a buffer, in the lower-case hexadecimal
/// form stored in the metadata index.
pub fn hash(content: &Vec<u8>) -> (r: String)
    ensures
        r@ == strong_hash_of(content@),
        r@.len() == 64,
{
    let digest = sha256_bytes(content.as_slice());
    to_lower_hex(&digest)
}

/// One walked entry of the tracked tree, as the surrounding program hands
/// it to the engine: the path, its stat data, and its content.
#[derive(Debug)]
pub struct ScanEntry {
    pub path: String,
    pub date_modified: u64,
    pub size: u64,
    pub node: FsNode,
}

/// Whether a walked path belongs to the tracked set: the sidecar, VCS
/// metadata and the root itself are excluded.
pub open spec fn eligible_path(folder: Seq<char>, p: Seq<char>) -> bool {
    &&& !has_substring(p, ".time"@)
    &&& !has_substring(p, ".git"@)
    &&& p != folder
}

/// The metadata row a walked entry yields.
pub open spec fn scan_meta_view(e: ScanEntry, hash_enabled: bool) -> MetaView {
    MetaView {
        date_modified: e.date_modified,
        size: e.size,
        path: e.path@,
        hash: if hash_enabled && e.node is File {
            strong_hash_of(e.node->File_0@)
        } else {
            Seq::empty()
        },
    }
}

/// The metadata rows a whole walk yields, in walk order, eligible paths
/// only.
pub open spec fn props_view(folder: Seq<char>, s: Seq<ScanEntry>, hash_enabled: bool) -> Seq<
    MetaView,
>
    decreases s.len(),
{
    if s.len() == 0 {
        Seq::empty()
    } else if eligible_path(folder, s.last().path@) {
        props_view(folder, s.drop_last(), hash_enabled).push(
            scan_meta_view(s.last(), hash_enabled),
        )
    } else {
        props_view(folder, s.drop_last(), hash_enabled)
    }
}

/// Collects the metadata of every eligible walked entry, appending to the
/// rows already held: each row records the entry's stat data and, when
/// hashing is enabled, the strong digest of its content.
pub fn get_properties(
    folder_path: &String,
    metadata_holder: Vec<MetaFile>,
    hash_enabled: bool,
    scan: &Vec<ScanEntry>,
) -> (r: Vec<MetaFile>)
    ensures
        r@.map_values(|m: MetaFile| meta_view(m)) == metadata_holder@.map_values(
            |m: MetaFile| meta_view(m),
        ) + props_view(folder_path@, scan@, hash_enabled),
{
    let ghost base = metadata_holder@;
    let mut r = metadata_holder;
    let pat_time = literal_string(".time");
    let pat_git = literal_string(".git");
    let n = scan.len();
    let mut i: usize = 0;
    proof {
        assert(scan@.take(0) =~= Seq::<ScanEntry>::empty());
        assert(r@.map_values(|m: MetaFile| meta_view(m)) =~= r@.map_values(
            |m: MetaFile| meta_view(m),
        ) + props_view(folder_path@, scan@.take(0), hash_enabled));
    }
    while i < n
        invariant
            n == scan@.len(),
            0 <= i <= n,
            pat_time@ == ".time"@,
            pat_git@ == ".git"@,
            r@.map_values(|m: MetaFile| meta_view(m)) == base.map_values(
                |m: MetaFile| meta_view(m),
            ) + props_view(folder_path@, scan@.take(i as int), hash_enabled),
        decreases n - i,
    {
        let e = &scan[i];
        let keep = !contains_text(&e.path, &pat_time) && !contains_text(&e.path, &pat_git)
            && !(e.path == *folder_path);
        proof {
            assert(scan@.take(i + 1).drop_last() =~= scan@.take(i as int));
            assert(scan@.take(i + 1).last() == scan@[i as int]);
        }
        if keep {
            let hash_str: String = if hash_enabled {
                match &e.node {
                    FsNode::File(content) => hash(content),
                    FsNode::Dir => literal_string(""),
                }
            } else {
                literal_string("")
            };
            let row = MetaFile {
                date_modified: e.date_modified,
                hash: hash_str,
                size: e.size,
                path: e.path.clone(),
            };
            proof {
                reveal_strlit("");
                assert(""@ =~= Seq::<char>::empty());
                assert(meta_view(row) == scan_meta_view(scan@[i as int], hash_enabled));
            }
            let ghost prev = r@;
            proof {
                assert(meta_view(row) == scan_meta_view(scan@[i as int], hash_enabled));
            }
            r.push(row);
            proof {
                assert(r@.map_values(|m: MetaFile| meta_view(m)) =~= prev.map_values(
                    |m: MetaFile| meta_view(m),
                ).push(meta_view(r@.last())));
            }
        }
        i = i + 1;
    }
    proof {
        assert(scan@.take(n as int) =~= scan@);
    }
    r
}

/// Everything one successful patch-pair creation guarantees: the record
/// appended with its three fields, the forward artifact and its decoded
/// delta, the reverse artifact or the sentinel, and every other artifact
/// untouched.
pub open spec fn patch_pair_ok(
    td0: TimeDir,
    td1: TimeDir,
    path: Seq<char>,
    created_at: Seq<char>,
    ref_label: Seq<char>,
    old_bytes: Seq<u8>,
    new_bytes: Seq<u8>,
    level: int,
    create_reverse: bool,
    id: Seq<char>,
) -> bool {
    let fwd_delta = crate::compression::delta_of(old_bytes, new_bytes);
    let rev_delta = crate::compression::delta_of(new_bytes, old_bytes);
    &&& id == patch_id_of(created_at, path)
    &&& id.len() == 64
    &&& td0.artifacts.find(id) is None
    &&& td0.artifacts.find(reverse_name_of(id)) is None
    &&& td1.patch_store@.len() == td0.patch_store@.len() + 1
    &&& forall|k: int|
        0 <= k < td0.patch_store@.len() ==> td1.patch_store@[k] == td0.patch_store@[k]
    &&& td1.patch_store@.last().date_created@ == created_at
    &&& td1.patch_store@.last().target_path@ == path
    &&& td1.patch_store@.last().ref_patch@ == ref_label
    &&& td1.artifacts.find(id) == Some(crate::compression::compress_of(fwd_delta, level))
    &&& crate::stores::decoded_artifact(td1, id) == Some(fwd_delta)
    &&& crate::compression::patched_of(old_bytes, fwd_delta) == Some(new_bytes)
    &&& (create_reverse ==> td1.artifacts.find(reverse_name_of(id)) == Some(
        crate::compression::compress_of(rev_delta, level),
    ) && crate::stores::decoded_artifact(td1, reverse_name_of(id)) == Some(rev_delta)
        && crate::compression::patched_of(new_bytes, rev_delta) == Some(old_bytes)
        && crate::compression::compress_of(rev_delta, level) != crate::stores::reverse_sentinel())
    &&& (!create_reverse ==> td1.artifacts.find(reverse_name_of(id)) == Some(
        crate::stores::reverse_sentinel(),
    ))
    &&& forall|n: Seq<char>|
        n != id && n != reverse_name_of(id) ==> td1.artifacts.find(n) == td0.artifacts.find(n)
}

/// Creates one patch pair: the forward delta from `old_raw` to `new_raw`
/// and either the reverse delta or the two-byte sentinel, both compressed
/// and stored under the derived patch identifier, and appends the patch
/// record.  The call succeeds exactly when the identifier is fresh and a
/// requested compressed reverse does not collide with the two sentinel
/// bytes; nothing changes on failure.
pub fn create_diff(
    old_raw: &Vec<u8>,
    new_raw: &Vec<u8>,
    target_path: &String,
    created_at: &String,
    ref_patch: &String,
    compression_level: u32,
    time_dir: &mut TimeDir,
    create_reverse: bool,
) -> (r: Result<String, crate::EngineError>)
    ensures
        r is Err <==> (old(time_dir).artifacts.find(patch_id_of(created_at@, target_path@))
            is Some || old(time_dir).artifacts.find(
            reverse_name_of(patch_id_of(created_at@, target_path@)),
        ) is Some || (create_reverse && crate::compression::compress_of(
            crate::compression::delta_of(new_raw@, old_raw@),
            compression_level as int,
        ) == crate::stores::reverse_sentinel())),
        r matches Err(e) ==> *final(time_dir) == *old(time_dir) && e
            == crate::EngineError::CorruptArtifact,
        r matches Ok(id) ==> patch_pair_ok(
            *old(time_dir),
            *final(time_dir),
            target_path@,
            created_at@,
            ref_patch@,
            old_raw@,
            new_raw@,
            compression_level as int,
            create_reverse,
            id@,
        ),
{
    let patch_id = crate::hashing::derive_patch_id(created_at, target_path);
    let mut reverse_name = patch_id.clone();
    reverse_name.append("-reverse");
    proof {
        reveal_strlit("-reverse");
        assert(reverse_name@ == reverse_name_of(patch_id@));
        assert(reverse_name@.len() == 72);
        assert(reverse_name@ != patch_id@);
    }
    if time_dir.artifacts.contains(&patch_id) || time_dir.artifacts.contains(&reverse_name) {
        return Err(crate::EngineError::CorruptArtifact);
    }
    let reverse_artifact: Vec<u8> = if create_reverse {
        let rev_delta = match crate::compression::delta_bytes(new_raw, old_raw) {
            Ok(d) => d,
            Err(_) => {
                proof {
                    assert(false);
                }
                return Err(crate::EngineError::CorruptArtifact);
            },
        };
        let compressed = match crate::compression::compress_data(rev_delta, compression_level) {
            Ok(c) => c,
            Err(_) => {
                proof {
                    assert(false);
                }
                return Err(crate::EngineError::CorruptArtifact);
            },
        };
        // an in-band sentinel must stay distinguishable from a real reverse
        if compressed.len() == 2 && compressed[0] == 58 && compressed[1] == 51 {
            proof {
                assert(compressed@ =~= crate::stores::reverse_sentinel());
            }
            return Err(crate::EngineError::CorruptArtifact);
        }
        proof {
            if compressed@ == crate::stores::reverse_sentinel() {
                assert(compressed@.len() == 2 && compressed@[0] == 58 && compressed@[1] == 51);
            }
        }
        compressed
    } else {
        let mut sentinel: Vec<u8> = Vec::new();
        sentinel.push(58);
        sentinel.push(51);
        proof {
            assert(sentinel@ =~= crate::stores::reverse_sentinel());
        }
        sentinel
    };
    let fwd_delta = match crate::compression::delta_bytes(old_raw, new_raw) {
        Ok(d) => d,
        Err(_) => {
            proof {
                assert(false);
            }
            return Err(crate::EngineError::CorruptArtifact);
        },
    };
    let fwd_artifact = match crate::compression::compress_data(fwd_delta, compression_level) {
        Ok(c) => c,
        Err(_) => {
            proof {
                assert(false);
            }
            return Err(crate::EngineError::CorruptArtifact);
        },
    };
    time_dir.artifacts.put(&reverse_name, reverse_artifact);
    time_dir.artifacts.put(&patch_id, fwd_artifact);
    let entry = DiffEntry {
        date_created: created_at.clone(),
        target_path: target_path.clone(),
        ref_patch: ref_patch.clone(),
    };
    let ghost prev_store = time_dir.patch_store@;
    time_dir.patch_store.push(entry);
    proof {
        assert(time_dir.patch_store@.drop_last() =~= prev_store);
    }
    Ok(patch_id)
}

/// Looks up the first row of `v` carrying `path`.
fn find_meta_ref<'a>(v: &'a Vec<MetaFile>, path: &String) -> (r: Option<&'a MetaFile>)
    ensures
        r matches Some(m) ==> find_meta(v@, path@) == Some(*m),
        r is None ==> find_meta(v@, path@) is None && !has_meta(v@, path@),
{
    let n = v.len();
    let mut i: usize = 0;
    while i < n
        invariant
            n == v@.len(),
            0 <= i <= n,
            forall|k: int| 0 <= k < i ==> (#[trigger] v@[k]).path@ != path@,
        decreases n - i,
    {
        if v[i].path == *path {
            proof {
                crate::stores::lemma_find_meta_at(v@, i as int);
            }
            return Some(&v[i]);
        }
        i = i + 1;
    }
    proof {
        crate::stores::lemma_find_meta_absent(v@, path@);
    }
    None
}

/// Whether a row of `m` differs from the walked data `c` for the same path:
/// the modification time is compared first, then the size, and the strong
/// hash only when hashing is enabled.
pub open spec fn changed_meta(m: MetaFile, c: MetaFile, check_hash: bool) -> bool {
    ||| m.date_modified != c.date_modified
    ||| m.size != c.size
    ||| (check_hash && m.hash@ != c.hash@)
}

/// The change entries for walked paths that the index does not know: each
/// is a new path, existing and modified.
pub open spec fn news_view(metas: Seq<MetaFile>, cur: Seq<MetaFile>) -> Seq<ModView>
    decreases cur.len(),
{
    if cur.len() == 0 {
        Seq::empty()
    } else if !has_meta(metas, cur.last().path@) {
        news_view(metas, cur.drop_last()).push(
            ModView { path: cur.last().path@, exists: true, modified: true },
        )
    } else {
        news_view(metas, cur.drop_last())
    }
}

/// The change entry an index row yields: gone when the walk no longer saw
/// the path, otherwise existing with the comparison's verdict.
pub open spec fn meta_check_view(m: MetaFile, cur: Seq<MetaFile>, check_hash: bool) -> ModView {
    match find_meta(cur, m.path@) {
        None => ModView { path: m.path@, exists: false, modified: true },
        Some(c) => ModView { path: m.path@, exists: true, modified: changed_meta(m, c, check_hash) },
    }
}

/// The change entries for all index rows, in index order.
pub open spec fn checks_view(metas: Seq<MetaFile>, cur: Seq<MetaFile>, check_hash: bool) -> Seq<
    ModView,
>
    decreases metas.len(),
{
    if metas.len() == 0 {
        Seq::empty()
    } else {
        checks_view(metas.drop_last(), cur, check_hash).push(
            meta_check_view(metas.last(), cur, check_hash),
        )
    }
}

/// Compares the prior metadata index against the walked tree and emits one
/// change entry per tracked path: walked paths unknown to the index come
/// first as new entries, then every index row with its verdict — gone,
/// modified, or unmodified.  Unmodified paths are emitted too, so that a
/// snapshot row is total over the tracked set.
pub fn get_diffs(check_hash: bool, metadata_holder: &Vec<MetaFile>, current: &Vec<MetaFile>) -> (r:
    Vec<ModifiedList>)
    requires
        unique_meta_paths(metadata_holder@),
        unique_meta_paths(current@),
    ensures
        r@.map_values(|m: ModifiedList| mod_view(m)) == news_view(metadata_holder@, current@)
            + checks_view(metadata_holder@, current@, check_hash),
        unique_mod_paths(r@),
        forall|k: int|
            0 <= k < r@.len() ==> ((#[trigger] r@[k]).exists || has_meta(
                metadata_holder@,
                r@[k].path@,
            )),
{
    let mut r: Vec<ModifiedList> = Vec::new();
    let n = current.len();
    let mut i: usize = 0;
    proof {
        assert(current@.take(0) =~= Seq::<MetaFile>::empty());
        assert(r@.map_values(|m: ModifiedList| mod_view(m)) =~= news_view(
            metadata_holder@,
            current@.take(0),
        ));
    }
    while i < n
        invariant
            unique_meta_paths(metadata_holder@),
            unique_meta_paths(current@),
            n == current@.len(),
            0 <= i <= n,
            r@.map_values(|m: ModifiedList| mod_view(m)) == news_view(
                metadata_holder@,
                current@.take(i as int),
            ),
            forall|k: int|
                0 <= k < r@.len() ==> !has_meta(metadata_holder@, (#[trigger] r@[k]).path@),
            forall|k: int|
                0 <= k < r@.len() ==> exists|j: int|
                    0 <= j < i && (#[trigger] r@[k]).path@ == current@[j].path@,
            forall|k: int| 0 <= k < r@.len() ==> (#[trigger] r@[k]).exists,
            unique_mod_paths(r@),
        decreases n - i,
    {
        let c = &current[i];
        proof {
            assert(current@.take(i + 1).drop_last() =~= current@.take(i as int));
            assert(current@.take(i + 1).last() == current@[i as int]);
        }
        let prior = find_meta_ref(metadata_holder, &c.path);
        proof {
            if prior is Some {
                crate::stores::lemma_find_meta_some(metadata_holder@, current@[i as int].path@);
            }
        }
        if prior.is_none() {
            let entry = ModifiedList { path: c.path.clone(), exists: true, modified: true };
            let ghost prev = r@;
            r.push(entry);
            proof {
                assert(r@.map_values(|m: ModifiedList| mod_view(m)) =~= prev.map_values(
                    |m: ModifiedList| mod_view(m),
                ).push(mod_view(r@.last())));
                assert forall|k: int| 0 <= k < r@.len() implies exists|j: int|
                    0 <= j < i + 1 && (#[trigger] r@[k]).path@ == current@[j].path@ by {
                    if k < prev.len() {
                        assert(r@[k] == prev[k]);
                    } else {
                        assert(r@[k].path@ == current@[i as int].path@);
                    }
                }
                assert forall|a: int, b: int| 0 <= a < b < r@.len() implies (
                #[trigger] r@[a]).path@ != (#[trigger] r@[b]).path@ by {
                    if b == r@.len() - 1 {
                        let j = choose|j: int|
                            0 <= j < i && (#[trigger] r@[a]).path@ == current@[j].path@;
                        assert(current@[j].path@ != current@[i as int].path@);
                    }
                }
            }
        }
        i = i + 1;
    }
    proof {
        assert(current@.take(n as int) =~= current@);
    }
    let ghost news = r@;
    let m_count = metadata_holder.len();
    let mut j: usize = 0;
    proof {
        assert(metadata_holder@.take(0) =~= Seq::<MetaFile>::empty());
        assert(news.map_values(|m: ModifiedList| mod_view(m)) =~= news.map_values(
            |m: ModifiedList| mod_view(m),
        ) + checks_view(metadata_holder@.take(0), current@, check_hash));
    }
    while j < m_count
        invariant
            unique_meta_paths(metadata_holder@),
            unique_meta_paths(current@),
            m_count == metadata_holder@.len(),
            0 <= j <= m_count,
            r@.len() == news.len() + j,
            r@.map_values(|m: ModifiedList| mod_view(m)) == news.map_values(
                |m: ModifiedList| mod_view(m),
            ) + checks_view(metadata_holder@.take(j as int), current@, check_hash),
            forall|k: int| 0 <= k < news.len() ==> r@[k] == news[k],
            forall|k: int|
                0 <= k < news.len() ==> !has_meta(metadata_holder@, (#[trigger] news[k]).path@),
            forall|k: int| 0 <= k < news.len() ==> (#[trigger] news[k]).exists,
            forall|k: int|
                news.len() <= k < r@.len() ==> (#[trigger] r@[k]).path@ == metadata_holder@[k
                    - news.len()].path@,
            forall|k: int|
                news.len() <= k < r@.len() ==> ((#[trigger] r@[k]).exists || has_meta(
                    metadata_holder@,
                    r@[k].path@,
                )),
            unique_mod_paths(r@),
        decreases m_count - j,
    {
        let m = &metadata_holder[j];
        proof {
            assert(metadata_holder@.take(j + 1).drop_last() =~= metadata_holder@.take(j as int));
            assert(metadata_holder@.take(j + 1).last() == metadata_holder@[j as int]);
        }
        let entry = match find_meta_ref(current, &m.path) {
            None => ModifiedList { path: m.path.clone(), exists: false, modified: true },
            Some(c) => {
                let is_changed = m.date_modified != c.date_modified || m.size != c.size || (
                check_hash && !(m.hash == c.hash));
                ModifiedList { path: m.path.clone(), exists: true, modified: is_changed }
            },
        };
        proof {
            assert(mod_view(entry) == meta_check_view(
                metadata_holder@[j as int],
                current@,
                check_hash,
            ));
        }
        let ghost prev = r@;
        r.push(entry);
        proof {
            assert(r@.map_values(|m: ModifiedList| mod_view(m)) =~= prev.map_values(
                |m: ModifiedList| mod_view(m),
            ).push(mod_view(r@.last())));
            assert(r@.last().path@ == metadata_holder@[j as int].path@);
            assert forall|a: int, b: int| 0 <= a < b < r@.len() implies (#[trigger] r@[a]).path@
                != (#[trigger] r@[b]).path@ by {
                if b == r@.len() - 1 {
                    if a < news.len() {
                        assert(r@[a] == news[a]);
                        assert(!has_meta(metadata_holder@, r@[a].path@));
                        assert(has_meta(metadata_holder@, metadata_holder@[j as int].path@)) by {
                            assert(metadata_holder@[j as int].path@ == metadata_holder@[j
                                as int].path@);
                        }
                    } else {
                        assert(r@[a].path@ == metadata_holder@[a - news.len()].path@);
                    }
                }
            }
        }
        j = j + 1;
    }
    proof {
        assert(metadata_holder@.take(m_count as int) =~= metadata_holder@);
        assert forall|k: int| 0 <= k < r@.len() implies ((#[trigger] r@[k]).exists || has_meta(
            metadata_holder@,
            r@[k].path@,
        )) by {
            if k < news.len() {
                assert(r@[k] == news[k]);
            }
        }
    }
    r
}

/// Looking a path up in a one-row sequence.
proof fn lemma_find_meta_single(c: MetaFile, p: Seq<char>)
    ensures
        find_meta(seq![c], p) == (if c.path@ == p {
            Some(c)
        } else {
            None
        }),
{
    assert(seq![c].drop_first() =~= Seq::<MetaFile>::empty());
    assert(find_meta(Seq::<MetaFile>::empty(), p) is None);
}

/// Looks up the first change entry of `v` carrying `path`.
fn find_mod_ref<'a>(v: &'a Vec<ModifiedList>, path: &String) -> (r: Option<&'a ModifiedList>)
    ensures
        r matches Some(e) ==> find_mod(v@, path@) == Some(*e),
        r is None ==> find_mod(v@, path@) is None,
{
    let n = v.len();
    let mut i: usize = 0;
    while i < n
        invariant
            n == v@.len(),
            0 <= i <= n,
            forall|k: int| 0 <= k < i ==> (#[trigger] v@[k]).path@ != path@,
        decreases n - i,
    {
        if v[i].path == *path {
            proof {
                crate::stores::lemma_find_mod_at(v@, i as int);
            }
            return Some(&v[i]);
        }
        i = i + 1;
    }
    proof {
        crate::stores::lemma_find_mod_absent(v@, path@);
    }
    None
}

/// What becomes of one index row under a change list: dropped when its path
/// is gone, refreshed from the walk when its path exists in the list, kept
/// as it is when the list does not name it.
pub open spec fn keep_row(m: MetaFile, list: Seq<ModifiedList>, cur: Seq<MetaFile>) -> Seq<
    MetaFile,
> {
    match find_mod(list, m.path@) {
        Some(e) => if e.exists {
            match find_meta(cur, m.path@) {
                Some(c) => seq![c],
                None => Seq::empty(),
            }
        } else {
            Seq::empty()
        },
        None => seq![m],
    }
}

/// The surviving index rows, in index order.
pub open spec fn kept_view(s: Seq<MetaFile>, list: Seq<ModifiedList>, cur: Seq<MetaFile>) -> Seq<
    MetaFile,
>
    decreases s.len(),
{
    if s.len() == 0 {
        Seq::empty()
    } else {
        keep_row(s.first(), list, cur) + kept_view(s.drop_first(), list, cur)
    }
}

/// What one change entry adds to the index: the walked row of a path that
/// exists but had no index row yet.
pub open spec fn add_row(e: ModifiedList, orig: Seq<MetaFile>, cur: Seq<MetaFile>) -> Seq<
    MetaFile,
> {
    if e.exists && !has_meta(orig, e.path@) {
        match find_meta(cur, e.path@) {
            Some(c) => seq![c],
            None => Seq::empty(),
        }
    } else {
        Seq::empty()
    }
}

/// The newly added index rows, in change-list order.
pub open spec fn added_view(list: Seq<ModifiedList>, orig: Seq<MetaFile>, cur: Seq<MetaFile>) -> Seq<
    MetaFile,
>
    decreases list.len(),
{
    if list.len() == 0 {
        Seq::empty()
    } else {
        add_row(list.first(), orig, cur) + added_view(list.drop_first(), orig, cur)
    }
}

/// Appending one row to the processed prefix extends the surviving rows at
/// the end.
proof fn lemma_kept_view_snoc(s: Seq<MetaFile>, x: MetaFile, list: Seq<ModifiedList>, cur: Seq<
    MetaFile,
>)
    ensures
        kept_view(s.push(x), list, cur) == kept_view(s, list, cur) + keep_row(x, list, cur),
    decreases s.len(),
{
    if s.len() == 0 {
        assert(s.push(x).first() == x);
        assert(s.push(x).drop_first() =~= Seq::<MetaFile>::empty());
        assert(kept_view(s.push(x).drop_first(), list, cur) =~= Seq::<MetaFile>::empty());
        assert(kept_view(s.push(x), list, cur) == keep_row(x, list, cur) + kept_view(
            s.push(x).drop_first(),
            list,
            cur,
        ));
        assert(keep_row(x, list, cur) + Seq::<MetaFile>::empty() =~= keep_row(x, list, cur));
        assert(Seq::<MetaFile>::empty() + keep_row(x, list, cur) =~= keep_row(x, list, cur));
    } else {
        assert(s.push(x).first() == s.first());
        assert(s.push(x).drop_first() =~= s.drop_first().push(x));
        assert(kept_view(s.push(x), list, cur) == keep_row(s.first(), list, cur) + kept_view(
            s.drop_first().push(x),
            list,
            cur,
        ));
        lemma_kept_view_snoc(s.drop_first(), x, list, cur);
        assert(keep_row(s.first(), list, cur) + (kept_view(s.drop_first(), list, cur) + keep_row(
            x,
            list,
            cur,
        )) =~= (keep_row(s.first(), list, cur) + kept_view(s.drop_first(), list, cur)) + keep_row(
            x,
            list,
            cur,
        ));
    }
}

/// Appending one change entry to the processed prefix extends the added
/// rows at the end.
proof fn lemma_added_view_snoc(
    list: Seq<ModifiedList>,
    x: ModifiedList,
    orig: Seq<MetaFile>,
    cur: Seq<MetaFile>,
)
    ensures
        added_view(list.push(x), orig, cur) == added_view(list, orig, cur) + add_row(x, orig, cur),
    decreases list.len(),
{
    if list.len() == 0 {
        assert(list.push(x).first() == x);
        assert(list.push(x).drop_first() =~= Seq::<ModifiedList>::empty());
        assert(added_view(list.push(x).drop_first(), orig, cur) =~= Seq::<MetaFile>::empty());
        assert(added_view(list.push(x), orig, cur) == add_row(x, orig, cur) + added_view(
            list.push(x).drop_first(),
            orig,
            cur,
        ));
        assert(add_row(x, orig, cur) + Seq::<MetaFile>::empty() =~= add_row(x, orig, cur));
        assert(Seq::<MetaFile>::empty() + add_row(x, orig, cur) =~= add_row(x, orig, cur));
    } else {
        assert(list.push(x).first() == list.first());
        assert(list.push(x).drop_first() =~= list.drop_first().push(x));
        assert(added_view(list.push(x), orig, cur) == add_row(list.first(), orig, cur)
            + added_view(list.drop_first().push(x), orig, cur));
        lemma_added_view_snoc(list.drop_first(), x, orig, cur);
        assert(add_row(list.first(), orig, cur) + (added_view(list.drop_first(), orig, cur)
            + add_row(x, orig, cur)) =~= (add_row(list.first(), orig, cur) + added_view(
            list.drop_first(),
            orig,
            cur,
        )) + add_row(x, orig, cur));
    }
}

/// Looking a path up in concatenated rows: the front rows win.
proof fn lemma_find_meta_concat(a: Seq<MetaFile>, b: Seq<MetaFile>, p: Seq<char>)
    ensures
        find_meta(a + b, p) == (if find_meta(a, p) is Some {
            find_meta(a, p)
        } else {
            find_meta(b, p)
        }),
    decreases a.len(),
{
    if a.len() == 0 {
        assert(a + b =~= b);
    } else {
        assert((a + b)[0] == a[0]);
        assert((a + b).len() > 0);
        if a[0].path@ == p {
        } else {
            assert((a + b).drop_first() =~= a.drop_first() + b);
            lemma_find_meta_concat(a.drop_first(), b, p);
        }
    }
}

/// Where a path is found among the surviving rows, and what row: the
/// change-list verdict applied to the original index.
proof fn lemma_kept_find(s: Seq<MetaFile>, list: Seq<ModifiedList>, cur: Seq<MetaFile>, p: Seq<
    char,
>)
    requires
        unique_meta_paths(s),
    ensures
        !has_meta(s, p) ==> find_meta(kept_view(s, list, cur), p) is None,
        has_meta(s, p) ==> find_meta(kept_view(s, list, cur), p) == (match find_mod(list, p) {
            Some(e) => if e.exists {
                find_meta(cur, p)
            } else {
                None
            },
            None => find_meta(s, p),
        }),
    decreases s.len(),
{
    if s.len() == 0 {
        assert(!has_meta(s, p));
    } else {
        let first = s.first();
        let rest = s.drop_first();
        assert forall|i: int, j: int| 0 <= i < j < rest.len() implies (#[trigger] rest[i]).path@
            != (#[trigger] rest[j]).path@ by {
            assert(rest[i] == s[i + 1] && rest[j] == s[j + 1]);
        }
        lemma_kept_find(rest, list, cur, p);
        lemma_find_meta_concat(keep_row(first, list, cur), kept_view(rest, list, cur), p);
        if first.path@ == p {
            assert(has_meta(s, p)) by {
                assert(s[0].path@ == p);
            }
            assert forall|i: int| 0 <= i < rest.len() implies (#[trigger] rest[i]).path@ != p by {
                assert(rest[i] == s[i + 1]);
                assert(s[0].path@ != s[i + 1].path@);
            }
            assert(!has_meta(rest, p));
            match find_mod(list, p) {
                Some(e) => {
                    if e.exists {
                        match find_meta(cur, p) {
                            Some(c) => {
                                crate::stores::lemma_find_meta_some(cur, p);
                                assert(keep_row(first, list, cur) == seq![c]);
                                assert(find_meta(seq![c], p) == Some(c));
                            },
                            None => {
                                assert(keep_row(first, list, cur) =~= Seq::<MetaFile>::empty());
                            },
                        }
                    } else {
                        assert(keep_row(first, list, cur) =~= Seq::<MetaFile>::empty());
                    }
                },
                None => {
                    assert(keep_row(first, list, cur) == seq![first]);
                    assert(find_meta(seq![first], p) == Some(first));
                },
            }
        } else {
            assert(has_meta(s, p) == has_meta(rest, p)) by {
                if has_meta(s, p) {
                    let i = choose|i: int| 0 <= i < s.len() && (#[trigger] s[i]).path@ == p;
                    assert(i != 0);
                    assert(rest[i - 1] == s[i]);
                }
                if has_meta(rest, p) {
                    let i = choose|i: int| 0 <= i < rest.len() && (#[trigger] rest[i]).path@ == p;
                    assert(s[i + 1] == rest[i]);
                }
            }
            assert(find_meta(keep_row(first, list, cur), p) is None) by {
                let fm = find_mod(list, first.path@);
                if fm is Some {
                    if fm->Some_0.exists {
                        let fc = find_meta(cur, first.path@);
                        if fc is Some {
                            crate::stores::lemma_find_meta_some(cur, first.path@);
                            assert(keep_row(first, list, cur) == seq![fc->Some_0]);
                            lemma_find_meta_single(fc->Some_0, p);
                        }
                    }
                } else {
                    assert(keep_row(first, list, cur) == seq![first]);
                    lemma_find_meta_single(first, p);
                }
            }
        }
    }
}

/// Where a path is found among the added rows: only when a change entry
/// names it as a new existing path.
proof fn lemma_added_find(
    list: Seq<ModifiedList>,
    orig: Seq<MetaFile>,
    cur: Seq<MetaFile>,
    p: Seq<char>,
)
    requires
        unique_mod_paths(list),
    ensures
        find_meta(added_view(list, orig, cur), p) == (match find_mod(list, p) {
            Some(e) => if e.exists && !has_meta(orig, p) {
                find_meta(cur, p)
            } else {
                None
            },
            None => None,
        }),
    decreases list.len(),
{
    if list.len() == 0 {
    } else {
        let first = list.first();
        let rest = list.drop_first();
        assert forall|i: int, j: int| 0 <= i < j < rest.len() implies (#[trigger] rest[i]).path@
            != (#[trigger] rest[j]).path@ by {
            assert(rest[i] == list[i + 1] && rest[j] == list[j + 1]);
        }
        lemma_added_find(rest, orig, cur, p);
        lemma_find_meta_concat(add_row(first, orig, cur), added_view(rest, orig, cur), p);
        if first.path@ == p {
            assert(find_mod(list, p) == Some(first));
            assert(find_mod(rest, p) is None) by {
                assert forall|i: int| 0 <= i < rest.len() implies (#[trigger] rest[i]).path@
                    != p by {
                    assert(rest[i] == list[i + 1]);
                    assert(list[0].path@ != list[i + 1].path@);
                }
                crate::stores::lemma_find_mod_absent(rest, p);
            }
            if first.exists && !has_meta(orig, p) {
                match find_meta(cur, p) {
                    Some(c) => {
                        crate::stores::lemma_find_meta_some(cur, p);
                        assert(add_row(first, orig, cur) == seq![c]);
                        assert(find_meta(seq![c], p) == Some(c));
                    },
                    None => {
                        assert(add_row(first, orig, cur) =~= Seq::<MetaFile>::empty());
                    },
                }
            } else {
                assert(add_row(first, orig, cur) =~= Seq::<MetaFile>::empty());
            }
        } else {
            assert(find_meta(add_row(first, orig, cur), p) is None) by {
                if first.exists && !has_meta(orig, first.path@) {
                    let fc = find_meta(cur, first.path@);
                    if fc is Some {
                        crate::stores::lemma_find_meta_some(cur, first.path@);
                        assert(add_row(first, orig, cur) == seq![fc->Some_0]);
                        lemma_find_meta_single(fc->Some_0, p);
                    }
                }
            }
        }
    }
}

/// Every surviving row's path was known to the index.
proof fn lemma_kept_members(s: Seq<MetaFile>, list: Seq<ModifiedList>, cur: Seq<MetaFile>, i: int)
    requires
        0 <= i < kept_view(s, list, cur).len(),
    ensures
        has_meta(s, kept_view(s, list, cur)[i].path@),
    decreases s.len(),
{
    if s.len() > 0 {
        let first = s.first();
        let head = keep_row(first, list, cur);
        let tail = kept_view(s.drop_first(), list, cur);
        assert(kept_view(s, list, cur) == head + tail);
        if i < head.len() {
            assert(head[i].path@ == first.path@) by {
                match find_mod(list, first.path@) {
                    Some(e) => {
                        if e.exists {
                            match find_meta(cur, first.path@) {
                                Some(c) => {
                                    crate::stores::lemma_find_meta_some(cur, first.path@);
                                },
                                None => {},
                            }
                        }
                    },
                    None => {},
                }
            }
            assert(s[0].path@ == first.path@);
        } else {
            lemma_kept_members(s.drop_first(), list, cur, i - head.len());
            let q = kept_view(s, list, cur)[i].path@;
            assert(tail[i - head.len()] == kept_view(s, list, cur)[i]);
            let j = choose|j: int|
                0 <= j < s.drop_first().len() && (#[trigger] s.drop_first()[j]).path@ == q;
            assert(s[j + 1] == s.drop_first()[j]);
        }
    }
}

/// Every added row's path was unknown to the index.
proof fn lemma_added_members(
    list: Seq<ModifiedList>,
    orig: Seq<MetaFile>,
    cur: Seq<MetaFile>,
    i: int,
)
    requires
        0 <= i < added_view(list, orig, cur).len(),
    ensures
        !has_meta(orig, added_view(list, orig, cur)[i].path@),
    decreases list.len(),
{
    if list.len() > 0 {
        let first = list.first();
        let head = add_row(first, orig, cur);
        let tail = added_view(list.drop_first(), orig, cur);
        assert(added_view(list, orig, cur) == head + tail);
        if i < head.len() {
            assert(head[i].path@ == first.path@) by {
                if first.exists && !has_meta(orig, first.path@) {
                    match find_meta(cur, first.path@) {
                        Some(c) => {
                            crate::stores::lemma_find_meta_some(cur, first.path@);
                        },
                        None => {},
                    }
                }
            }
            assert(head.len() > 0 ==> (first.exists && !has_meta(orig, first.path@)));
        } else {
            lemma_added_members(list.drop_first(), orig, cur, i - head.len());
            assert(tail[i - head.len()] == added_view(list, orig, cur)[i]);
        }
    }
}

/// Reconciles the metadata index with a change list after a snapshot run:
/// rows for gone paths are removed, rows for existing paths named by the
/// list are refreshed from the walk, all other rows stay, and the run is
/// refused outright when nothing was modified.
pub fn update_metadata(
    metadata_holder: &mut Vec<MetaFile>,
    modified_list: &Vec<ModifiedList>,
    current: &Vec<MetaFile>,
) -> (r: Result<(), crate::EngineError>)
    requires
        unique_meta_paths(old(metadata_holder)@),
        unique_mod_paths(modified_list@),
        unique_meta_paths(current@),
    ensures
        r == Err::<(), crate::EngineError>(crate::EngineError::NothingToDo) <==> forall|k: int|
            0 <= k < modified_list@.len() ==> !(#[trigger] modified_list@[k]).modified,
        r is Err ==> final(metadata_holder)@ == old(metadata_holder)@,
        r is Ok ==> unique_meta_paths(final(metadata_holder)@),
        r is Ok ==> forall|p: Seq<char>|
            #![trigger find_meta(final(metadata_holder)@, p)]
            find_meta(final(metadata_holder)@, p) == (match find_mod(modified_list@, p) {
                Some(e) => if e.exists {
                    find_meta(current@, p)
                } else {
                    None
                },
                None => find_meta(old(metadata_holder)@, p),
            }),
{
    let n = modified_list.len();
    let mut any_modified = false;
    let mut i: usize = 0;
    while i < n
        invariant
            n == modified_list@.len(),
            0 <= i <= n,
            any_modified <==> exists|k: int| 0 <= k < i && (#[trigger] modified_list@[k]).modified,
            *metadata_holder == *old(metadata_holder),
        decreases n - i,
    {
        if modified_list[i].modified {
            any_modified = true;
        }
        i = i + 1;
    }
    if !any_modified {
        return Err(crate::EngineError::NothingToDo);
    }
    let ghost orig = metadata_holder@;
    let mut result: Vec<MetaFile> = Vec::new();
    let m_count = metadata_holder.len();
    let mut j: usize = 0;
    proof {
        assert(orig.take(0) =~= Seq::<MetaFile>::empty());
        assert(result@ =~= kept_view(orig.take(0), modified_list@, current@));
    }
    while j < m_count
        invariant
            unique_meta_paths(orig),
            unique_mod_paths(modified_list@),
            unique_meta_paths(current@),
            orig == old(metadata_holder)@,
            *metadata_holder == *old(metadata_holder),
            m_count == orig.len(),
            0 <= j <= m_count,
            result@ == kept_view(orig.take(j as int), modified_list@, current@),
        decreases m_count - j,
    {
        let m = &metadata_holder[j];
        let ghost prev = result@;
        match find_mod_ref(modified_list, &m.path) {
            Some(e) => {
                if e.exists {
                    match find_meta_ref(current, &m.path) {
                        Some(c) => {
                            result.push(c.clone());
                            proof {
                                assert(result@ =~= prev + keep_row(
                                    orig[j as int],
                                    modified_list@,
                                    current@,
                                ));
                            }
                        },
                        None => {
                            proof {
                                assert(result@ =~= prev + keep_row(
                                    orig[j as int],
                                    modified_list@,
                                    current@,
                                ));
                            }
                        },
                    }
                } else {
                    proof {
                        assert(result@ =~= prev + keep_row(
                            orig[j as int],
                            modified_list@,
                            current@,
                        ));
                    }
                }
            },
            None => {
                result.push(m.clone());
                proof {
                    assert(result@ =~= prev + keep_row(orig[j as int], modified_list@, current@));
                }
            },
        }
        proof {
            assert(orig.take(j + 1) =~= orig.take(j as int).push(orig[j as int]));
            lemma_kept_view_snoc(orig.take(j as int), orig[j as int], modified_list@, current@);
        }
        j = j + 1;
    }
    proof {
        assert(orig.take(m_count as int) =~= orig);
    }
    let list_count = modified_list.len();
    let mut t: usize = 0;
    let ghost kept_rows = result@;
    proof {
        assert(modified_list@.take(0) =~= Seq::<ModifiedList>::empty());
        assert(result@ =~= kept_rows + added_view(modified_list@.take(0), orig, current@));
    }
    while t < list_count
        invariant
            unique_meta_paths(orig),
            unique_mod_paths(modified_list@),
            unique_meta_paths(current@),
            orig == old(metadata_holder)@,
            *metadata_holder == *old(metadata_holder),
            list_count == modified_list@.len(),
            0 <= t <= list_count,
            kept_rows == kept_view(orig, modified_list@, current@),
            result@ == kept_rows + added_view(modified_list@.take(t as int), orig, current@),
        decreases list_count - t,
    {
        let e = &modified_list[t];
        let ghost prev = result@;
        if e.exists && find_meta_ref(metadata_holder, &e.path).is_none() {
            match find_meta_ref(current, &e.path) {
                Some(c) => {
                    result.push(c.clone());
                    proof {
                        assert(result@ =~= prev + add_row(
                            modified_list@[t as int],
                            orig,
                            current@,
                        ));
                    }
                },
                None => {
                    proof {
                        assert(result@ =~= prev + add_row(
                            modified_list@[t as int],
                            orig,
                            current@,
                        ));
                    }
                },
            }
        } else {
            proof {
                if modified_list@[t as int].exists {
                    crate::stores::lemma_find_meta_some(orig, modified_list@[t as int].path@);
                }
                assert(add_row(modified_list@[t as int], orig, current@) =~= Seq::<
                    MetaFile,
                >::empty());
                assert(result@ =~= prev + add_row(modified_list@[t as int], orig, current@));
            }
        }
        proof {
            assert(modified_list@.take(t + 1) =~= modified_list@.take(t as int).push(
                modified_list@[t as int],
            ));
            lemma_added_view_snoc(
                modified_list@.take(t as int),
                modified_list@[t as int],
                orig,
                current@,
            );
            assert(prev + add_row(modified_list@[t as int], orig, current@) =~= kept_rows
                + added_view(modified_list@.take(t + 1), orig, current@));
        }
        t = t + 1;
    }
    proof {
        assert(modified_list@.take(list_count as int) =~= modified_list@);
    }
    *metadata_holder = result;
    proof {
        let fin = kept_view(orig, modified_list@, current@) + added_view(
            modified_list@,
            orig,
            current@,
        );
        assert(metadata_holder@ == fin);
        assert forall|p: Seq<char>|
            #![trigger find_meta(fin, p)]
            find_meta(fin, p) == (match find_mod(modified_list@, p) {
                Some(e) => if e.exists {
                    find_meta(current@, p)
                } else {
                    None
                },
                None => find_meta(orig, p),
            }) by {
            lemma_find_meta_concat(
                kept_view(orig, modified_list@, current@),
                added_view(modified_list@, orig, current@),
                p,
            );
            lemma_kept_find(orig, modified_list@, current@, p);
            lemma_added_find(modified_list@, orig, current@, p);
            if !has_meta(orig, p) {
                crate::stores::lemma_find_meta_absent(orig, p);
            }
            if find_meta(current@, p) is Some {
                crate::stores::lemma_find_meta_some(current@, p);
            }
            if find_mod(modified_list@, p) is Some {
                crate::stores::lemma_find_mod_some(modified_list@, p);
            }
        }
        assert forall|a: int, b: int| 0 <= a < b < fin.len() implies (#[trigger] fin[a]).path@
            != (#[trigger] fin[b]).path@ by {
            lemma_update_distinct(orig, modified_list@, current@, a, b);
        }
    }
    Ok(())
}

/// What the `patch_ids` slot text must be for one processed entry, for the
/// cases in which it is an exact function of the inputs.
pub open spec fn slot_text_for(
    entry: ModifiedList,
    tree: FileTree,
    created_at: Seq<char>,
) -> Seq<char> {
    if !entry.modified {
        match tree.find(entry.path@) {
            Some(crate::stores::NodeView::File(c)) => crate::text::dec_of(
                crate::hashing::xxh3_of(c) as nat,
            ),
            _ => "UNMODIFIED_DIRECTORY"@,
        }
    } else if !entry.exists {
        "REMOVED"@
    } else {
        match tree.find(entry.path@) {
            Some(crate::stores::NodeView::File(c)) => patch_id_of(created_at, entry.path@),
            _ => "DIR"@,
        }
    }
}

/// Whether one processed entry cuts a new patch pair: a modified, existing
/// regular file.
pub open spec fn entry_cuts_patch(entry: ModifiedList, tree: FileTree) -> bool {
    &&& entry.modified
    &&& entry.exists
    &&& tree.find(entry.path@) matches Some(crate::stores::NodeView::File(c))
}

/// The content of the file an entry names, meaningful when
/// `entry_cuts_patch` holds.
pub open spec fn entry_content(entry: ModifiedList, tree: FileTree) -> Seq<u8> {
    tree.find(entry.path@)->Some_0->File_0
}

/// The `modified` flag written for one processed entry.
pub open spec fn slot_modified_for(entry: ModifiedList) -> bool {
    entry.modified
}

/// The `ref_patch_ids` slot text for the cases in which it is exact.
pub open spec fn ref_text_for(
    entry: ModifiedList,
    tree: FileTree,
    td0: TimeDir,
    initial_run: bool,
) -> Seq<char> {
    if !entry.modified {
        "UNMODIFIED"@
    } else if !entry.exists {
        "NONE"@
    } else if !(tree.find(entry.path@) matches Some(crate::stores::NodeView::File(c))) {
        "DIR"@
    } else if initial_run || !crate::stores::has_record(td0.patch_store@, entry.path@) {
        "First patch"@
    } else {
        Seq::empty()  // determined only up to the baseline selection; see the caller's clauses
    }
}

/// Processes one change entry: decides its slot per the snapshot decision
/// table and, for a modified regular file, cuts the patch pair — a fresh
/// baseline when the store has no record of the path (or on an initial
/// run), otherwise a forward/reverse pair against the path's baseline.
fn process_entry(
    entry: &ModifiedList,
    patch_ids: &mut Vec<String>,
    ref_patch_ids: &mut Vec<String>,
    target_paths: &mut Vec<String>,
    modified: &mut Vec<bool>,
    tree: &FileTree,
    created_at: &String,
    compression_level: u32,
    time_dir: &mut TimeDir,
    create_reverse: bool,
    initial_run: bool,
    snapshot_mode: &String,
) -> (r: Result<(), crate::EngineError>)
    requires
        tree.wf(),
        snapshot_mode@ == "fastest"@,
    ensures
        r is Err ==> !(r == Err::<(), crate::EngineError>(crate::EngineError::UnsupportedMode)),
        process_can_succeed(
            *entry,
            *old(time_dir),
            *tree,
            created_at@,
            compression_level as int,
            create_reverse,
            initial_run,
        ) ==> r is Ok,
        r is Ok ==> ({
            &&& final(patch_ids)@.len() == old(patch_ids)@.len() + 1
            &&& final(ref_patch_ids)@.len() == old(ref_patch_ids)@.len() + 1
            &&& final(target_paths)@.len() == old(target_paths)@.len() + 1
            &&& final(modified)@.len() == old(modified)@.len() + 1
            &&& final(patch_ids)@.drop_last() == old(patch_ids)@
            &&& final(ref_patch_ids)@.drop_last() == old(ref_patch_ids)@
            &&& final(target_paths)@.drop_last() == old(target_paths)@
            &&& final(modified)@.drop_last() == old(modified)@
            &&& final(target_paths)@.last()@ == entry.path@
            &&& final(modified)@.last() == slot_modified_for(*entry)
            &&& final(patch_ids)@.last()@ == slot_text_for(*entry, *tree, created_at@)
            &&& (!entry_cuts_patch(*entry, *tree) ==> *final(time_dir) == *old(time_dir)
                && final(ref_patch_ids)@.last()@ == ref_text_for(
                *entry,
                *tree,
                *old(time_dir),
                initial_run,
            ))
            &&& (entry_cuts_patch(*entry, *tree) && (initial_run || !crate::stores::has_record(
                old(time_dir).patch_store@,
                entry.path@,
            )) ==> final(ref_patch_ids)@.last()@ == "First patch"@ && patch_pair_ok(
                *old(time_dir),
                *final(time_dir),
                entry.path@,
                created_at@,
                "First patch"@,
                Seq::empty(),
                entry_content(*entry, *tree),
                compression_level as int,
                create_reverse,
                final(patch_ids)@.last()@,
            ) && baseline_patch_ok(
                *final(time_dir),
                entry_content(*entry, *tree),
                compression_level as int,
                create_reverse,
                final(patch_ids)@.last()@,
            ))
            &&& (entry_cuts_patch(*entry, *tree) && !initial_run && crate::stores::has_record(
                old(time_dir).patch_store@,
                entry.path@,
            ) ==> follow_patch_ok(
                *old(time_dir),
                *final(time_dir),
                entry.path@,
                entry_content(*entry, *tree),
                compression_level as int,
                final(patch_ids)@.last()@,
                final(ref_patch_ids)@.last()@,
            ))
            &&& (entry_cuts_patch(*entry, *tree) && !initial_run && crate::stores::has_record(
                old(time_dir).patch_store@,
                entry.path@,
            ) ==> final(ref_patch_ids)@.last()@.len() == 64 && (exists|j: int|
                crate::stores::is_best_baseline(old(time_dir).patch_store@, entry.path@, j)
                    && final(ref_patch_ids)@.last()@ == crate::stores::rec_id(
                    #[trigger] old(time_dir).patch_store@[j],
                )))
            &&& (entry_cuts_patch(*entry, *tree) ==> ({
                let id = final(patch_ids)@.last()@;
                &&& id == patch_id_of(created_at@, entry.path@)
                &&& id.len() == 64
                &&& old(time_dir).artifacts.find(id) is None
                &&& old(time_dir).artifacts.find(reverse_name_of(id)) is None
                &&& final(time_dir).artifacts.find(reverse_name_of(id)) is Some
                &&& final(time_dir).patch_store@.len() == old(time_dir).patch_store@.len() + 1
                &&& forall|x: int|
                    0 <= x < old(time_dir).patch_store@.len() ==> final(time_dir).patch_store@[x]
                        == old(time_dir).patch_store@[x]
                &&& final(time_dir).patch_store@.last().date_created@ == created_at@
                &&& final(time_dir).patch_store@.last().target_path@ == entry.path@
                &&& final(time_dir).patch_store@.last().ref_patch@
                    == final(ref_patch_ids)@.last()@
                &&& final(time_dir).artifacts.find(id) is Some
                &&& forall|n: Seq<char>|
                    n != id && n != reverse_name_of(id) ==> final(time_dir).artifacts.find(n)
                        == old(time_dir).artifacts.find(n)
                &&& (final(ref_patch_ids)@.last()@ == "First patch"@ ==> crate::stores::artifact_content(
                    *final(time_dir),
                    id,
                ) == Some(entry_content(*entry, *tree)))
                &&& (final(ref_patch_ids)@.last()@ == "First patch"@ <==> (initial_run
                    || !crate::stores::has_record(old(time_dir).patch_store@, entry.path@)))
            }))
        }),
{
    let node = tree.lookup(&entry.path);
    if !entry.modified {
        let text = match node {
            Some(FsNode::File(content)) => crate::text::to_decimal(
                crate::hashing::xxh3_64_bytes(content),
            ),
            _ => literal_string("UNMODIFIED_DIRECTORY"),
        };
        push_slot(
            patch_ids,
            ref_patch_ids,
            target_paths,
            modified,
            text,
            literal_string("UNMODIFIED"),
            entry.path.clone(),
            false,
        );
        return Ok(());
    }
    if !entry.exists {
        push_slot(
            patch_ids,
            ref_patch_ids,
            target_paths,
            modified,
            literal_string("REMOVED"),
            literal_string("NONE"),
            entry.path.clone(),
            true,
        );
        return Ok(());
    }
    let content = match node {
        Some(FsNode::File(content)) => content,
        _ => {
            push_slot(
                patch_ids,
                ref_patch_ids,
                target_paths,
                modified,
                literal_string("DIR"),
                literal_string("DIR"),
                entry.path.clone(),
                true,
            );
            return Ok(());
        },
    };
    let has_prior = if initial_run {
        false
    } else {
        has_record_for(&time_dir.patch_store, &entry.path)
    };
    if initial_run || !has_prior {
        let empty: Vec<u8> = Vec::new();
        proof {
            assert(empty@ =~= Seq::<u8>::empty());
        }
        let first_label = literal_string("First patch");
        let id = match create_diff(
            &empty,
            content,
            &entry.path,
            created_at,
            &first_label,
            compression_level,
            time_dir,
            create_reverse,
        ) {
            Ok(id) => id,
            Err(e) => {
                proof {
                    if process_can_succeed(
                        *entry,
                        *old(time_dir),
                        *tree,
                        created_at@,
                        compression_level as int,
                        create_reverse,
                        initial_run,
                    ) {
                        assert(false);
                    }
                }
                return Err(e);
            },
        };
        proof {
            assert(crate::stores::artifact_content(*time_dir, id@) == Some(
                entry_content(*entry, *tree),
            ));
            assert(baseline_patch_ok(
                *time_dir,
                entry_content(*entry, *tree),
                compression_level as int,
                create_reverse,
                id@,
            ));
        }
        push_slot(
            patch_ids,
            ref_patch_ids,
            target_paths,
            modified,
            id,
            first_label,
            entry.path.clone(),
            true,
        );
        Ok(())
    } else {
        let base_rec = match crate::stores::select_baseline(&time_dir.patch_store, &entry.path) {
            Ok(b) => b,
            Err(e) => {
                proof {
                    if process_can_succeed(
                        *entry,
                        *old(time_dir),
                        *tree,
                        created_at@,
                        compression_level as int,
                        create_reverse,
                        initial_run,
                    ) {
                        assert(false);
                    }
                }
                return Err(e);
            },
        };
        let base_id = crate::hashing::derive_patch_id(
            &base_rec.date_created,
            &base_rec.target_path,
        );
        proof {
            let j = choose|j: int|
                0 <= j < old(time_dir).patch_store@.len() && (#[trigger] old(
                    time_dir,
                ).patch_store@[j]) == base_rec && crate::stores::is_best_baseline(
                    old(time_dir).patch_store@,
                    entry.path@,
                    j,
                );
            assert(crate::stores::rec_id(old(time_dir).patch_store@[j]) == base_id@);
        }
        let base_content = match crate::restore::load_artifact_content(time_dir, &base_id) {
            Ok(c) => c,
            Err(e) => {
                proof {
                    if process_can_succeed(
                        *entry,
                        *old(time_dir),
                        *tree,
                        created_at@,
                        compression_level as int,
                        create_reverse,
                        initial_run,
                    ) {
                        let j = choose|j: int|
                            0 <= j < old(time_dir).patch_store@.len() && (#[trigger] old(
                                time_dir,
                            ).patch_store@[j]) == base_rec && crate::stores::is_best_baseline(
                                old(time_dir).patch_store@,
                                entry.path@,
                                j,
                            );
                        assert(crate::stores::artifact_content(*old(time_dir), base_id@)
                            is Some);
                        assert(false);
                    }
                }
                return Err(e);
            },
        };
        let id = match create_diff(
            &base_content,
            content,
            &entry.path,
            created_at,
            &base_id,
            compression_level,
            time_dir,
            true,
        ) {
            Ok(id) => id,
            Err(e) => {
                proof {
                    if process_can_succeed(
                        *entry,
                        *old(time_dir),
                        *tree,
                        created_at@,
                        compression_level as int,
                        create_reverse,
                        initial_run,
                    ) {
                        let j = choose|j: int|
                            0 <= j < old(time_dir).patch_store@.len() && (#[trigger] old(
                                time_dir,
                            ).patch_store@[j]) == base_rec && crate::stores::is_best_baseline(
                                old(time_dir).patch_store@,
                                entry.path@,
                                j,
                            );
                        assert(crate::stores::artifact_content(*old(time_dir), base_id@) == Some(
                            base_content@,
                        ));
                        assert(false);
                    }
                }
                return Err(e);
            },
        };
        proof {
            reveal_strlit("First patch");
            let j = choose|j: int|
                0 <= j < old(time_dir).patch_store@.len() && (#[trigger] old(
                    time_dir,
                ).patch_store@[j]) == base_rec && crate::stores::is_best_baseline(
                    old(time_dir).patch_store@,
                    entry.path@,
                    j,
                );
            assert(crate::stores::rec_id(old(time_dir).patch_store@[j]) == base_id@);
            assert(base_id@.len() == 64);
            assert("First patch"@.len() == 11);
            assert(base_id@ != "First patch"@);
            assert(crate::stores::artifact_content(*old(time_dir), base_id@) == Some(
                base_content@,
            ));
            assert(follow_patch_ok(
                *old(time_dir),
                *time_dir,
                entry.path@,
                entry_content(*entry, *tree),
                compression_level as int,
                id@,
                base_id@,
            ));
        }
        push_slot(
            patch_ids,
            ref_patch_ids,
            target_paths,
            modified,
            id,
            base_id,
            entry.path.clone(),
            true,
        );
        Ok(())
    }
}

/// Appends one decoded slot to the four accumulators.
fn push_slot(
    patch_ids: &mut Vec<String>,
    ref_patch_ids: &mut Vec<String>,
    target_paths: &mut Vec<String>,
    modified: &mut Vec<bool>,
    patch_text: String,
    ref_text: String,
    path: String,
    is_modified: bool,
)
    ensures
        final(patch_ids)@ == old(patch_ids)@.push(patch_text),
        final(ref_patch_ids)@ == old(ref_patch_ids)@.push(ref_text),
        final(target_paths)@ == old(target_paths)@.push(path),
        final(modified)@ == old(modified)@.push(is_modified),
        final(patch_ids)@.drop_last() == old(patch_ids)@,
        final(ref_patch_ids)@.drop_last() == old(ref_patch_ids)@,
        final(target_paths)@.drop_last() == old(target_paths)@,
        final(modified)@.drop_last() == old(modified)@,
{
    patch_ids.push(patch_text);
    ref_patch_ids.push(ref_text);
    target_paths.push(path);
    modified.push(is_modified);
    proof {
        assert(patch_ids@.drop_last() =~= old(patch_ids)@);
        assert(ref_patch_ids@.drop_last() =~= old(ref_patch_ids)@);
        assert(target_paths@.drop_last() =~= old(target_paths)@);
        assert(modified@.drop_last() =~= old(modified)@);
    }
}

/// Whether any patch record names the path.
fn has_record_for(patch_store: &Vec<DiffEntry>, path: &String) -> (r: bool)
    ensures
        r == crate::stores::has_record(patch_store@, path@),
{
    let n = patch_store.len();
    let mut i: usize = 0;
    while i < n
        invariant
            n == patch_store@.len(),
            0 <= i <= n,
            forall|k: int| 0 <= k < i ==> (#[trigger] patch_store@[k]).target_path@ != path@,
        decreases n - i,
    {
        if patch_store[i].target_path == *path {
            return true;
        }
        i = i + 1;
    }
    false
}

/// What one built slot must hold, relative to the patch store as it stood
/// before the run.
pub open spec fn built_slot_ok(
    e: ModifiedList,
    idx: int,
    pids: Seq<String>,
    rids: Seq<String>,
    tps: Seq<String>,
    mods: Seq<bool>,
    td0: TimeDir,
    tree: FileTree,
    created_at: Seq<char>,
    initial_run: bool,
) -> bool {
    &&& tps[idx]@ == e.path@
    &&& mods[idx] == slot_modified_for(e)
    &&& pids[idx]@ == slot_text_for(e, tree, created_at)
    &&& (!entry_cuts_patch(e, tree) ==> rids[idx]@ == ref_text_for(e, tree, td0, initial_run))
    &&& (entry_cuts_patch(e, tree) && (initial_run || !crate::stores::has_record(
        td0.patch_store@,
        e.path@,
    )) ==> rids[idx]@ == "First patch"@)
    &&& (entry_cuts_patch(e, tree) && !initial_run && crate::stores::has_record(
        td0.patch_store@,
        e.path@,
    ) ==> exists|j: int|
        crate::stores::is_best_baseline(td0.patch_store@, e.path@, j) && rids[idx]@
            == crate::stores::rec_id(#[trigger] td0.patch_store@[j]))
}

/// What the baseline patch pair of a freshly recorded file guarantees in a
/// store: the forward artifact decodes to the whole-file delta from the
/// empty buffer, and the reverse is the real inverse delta or the sentinel.
pub open spec fn baseline_patch_ok(
    td: TimeDir,
    content: Seq<u8>,
    level: int,
    create_reverse: bool,
    id: Seq<char>,
) -> bool {
    let fwd = crate::compression::delta_of(Seq::empty(), content);
    let rev = crate::compression::delta_of(content, Seq::empty());
    &&& crate::stores::decoded_artifact(td, id) == Some(fwd)
    &&& crate::compression::patched_of(Seq::empty(), fwd) == Some(content)
    &&& crate::stores::artifact_content(td, id) == Some(content)
    &&& (create_reverse ==> td.artifacts.find(reverse_name_of(id)) == Some(
        crate::compression::compress_of(rev, level),
    ) && crate::stores::decoded_artifact(td, reverse_name_of(id)) == Some(rev)
        && crate::compression::patched_of(content, rev) == Some(Seq::<u8>::empty())
        && crate::compression::compress_of(rev, level) != crate::stores::reverse_sentinel())
    &&& (!create_reverse ==> td.artifacts.find(reverse_name_of(id)) == Some(
        crate::stores::reverse_sentinel(),
    ))
}

/// What the patch pair of a subsequently modified file guarantees: cut
/// against some selection-maximal baseline of the original store, whose
/// identifier the record carries as reference, the forward delta taking the
/// baseline content to the new content and the real reverse taking it back.
pub open spec fn follow_patch_ok(
    td0: TimeDir,
    td: TimeDir,
    path: Seq<char>,
    content: Seq<u8>,
    level: int,
    id: Seq<char>,
    ref_label: Seq<char>,
) -> bool {
    exists|j: int|
        #![trigger td0.patch_store@[j]]
        {
            &&& crate::stores::is_best_baseline(td0.patch_store@, path, j)
            &&& ref_label == crate::stores::rec_id(td0.patch_store@[j])
            &&& crate::stores::artifact_content(
                td,
                crate::stores::rec_id(td0.patch_store@[j]),
            ) matches Some(bc)
            &&& crate::stores::decoded_artifact(td, id) == Some(
                crate::compression::delta_of(bc, content),
            )
            &&& crate::compression::patched_of(bc, crate::compression::delta_of(bc, content))
                == Some(content)
            &&& td.artifacts.find(reverse_name_of(id)) == Some(
                crate::compression::compress_of(crate::compression::delta_of(content, bc), level),
            )
            &&& crate::stores::decoded_artifact(td, reverse_name_of(id)) == Some(
                crate::compression::delta_of(content, bc),
            )
            &&& crate::compression::patched_of(
                content,
                crate::compression::delta_of(content, bc),
            ) == Some(bc)
            &&& crate::compression::compress_of(crate::compression::delta_of(content, bc), level)
                != crate::stores::reverse_sentinel()
        }
}

/// What one record appended by the run must hold: stamped with the run's
/// timestamp, naming a changed file, a baseline exactly when the store knew
/// nothing of the path (or the run was the first), stored under a fresh
/// 64-character identifier, and carrying the full patch pair of its case.
pub open spec fn appended_rec_ok(
    rec: DiffEntry,
    changed: Seq<ModifiedList>,
    g: int,
    td0: TimeDir,
    td: TimeDir,
    tree: FileTree,
    created_at: Seq<char>,
    initial_run: bool,
    level: int,
    create_reverse: bool,
) -> bool {
    let c = entry_content(
        ModifiedList { path: rec.target_path, exists: true, modified: true },
        tree,
    );
    &&& rec.date_created@ == created_at
    &&& exists|k: int|
        0 <= k < g && (#[trigger] changed[k]).path@ == rec.target_path@ && entry_cuts_patch(
            changed[k],
            tree,
        )
    &&& (rec.ref_patch@ == "First patch"@ <==> (initial_run || !crate::stores::has_record(
        td0.patch_store@,
        rec.target_path@,
    )))
    &&& crate::stores::rec_id(rec) == patch_id_of(created_at, rec.target_path@)
    &&& crate::stores::rec_id(rec).len() == 64
    &&& td0.artifacts.find(crate::stores::rec_id(rec)) is None
    &&& td0.artifacts.find(reverse_name_of(crate::stores::rec_id(rec))) is None
    &&& td.artifacts.find(crate::stores::rec_id(rec)) is Some
    &&& td.artifacts.find(reverse_name_of(crate::stores::rec_id(rec))) is Some
    &&& (rec.ref_patch@ == "First patch"@ ==> baseline_patch_ok(
        td,
        c,
        level,
        create_reverse,
        crate::stores::rec_id(rec),
    ))
    &&& (rec.ref_patch@ != "First patch"@ ==> follow_patch_ok(
        td0,
        td,
        rec.target_path@,
        c,
        level,
        crate::stores::rec_id(rec),
        rec.ref_patch@,
    ))
}

/// Whether a name is one of the artifact names a partial run has written:
/// the forward or reverse name of a processed patch-cutting entry.
pub open spec fn run_artifact_name(
    changed: Seq<ModifiedList>,
    g: int,
    tree: FileTree,
    created_at: Seq<char>,
    nm: Seq<char>,
) -> bool {
    exists|k: int|
        0 <= k < g && entry_cuts_patch(#[trigger] changed[k], tree) && (nm == patch_id_of(
            created_at,
            changed[k].path@,
        ) || nm == reverse_name_of(patch_id_of(created_at, changed[k].path@)))
}

/// The store summary of a partial run: the old rows untouched, every new
/// row sound, no two new rows for the same path, one new row per processed
/// patch-cutting entry, and no artifact beyond the new patch pairs touched.
pub open spec fn built_store_ok(
    changed: Seq<ModifiedList>,
    g: int,
    td0: TimeDir,
    td: TimeDir,
    tree: FileTree,
    created_at: Seq<char>,
    initial_run: bool,
    level: int,
    create_reverse: bool,
) -> bool {
    &&& td.patch_store@.len() >= td0.patch_store@.len()
    &&& forall|i: int|
        0 <= i < td0.patch_store@.len() ==> td.patch_store@[i] == td0.patch_store@[i]
    &&& forall|i: int|
        td0.patch_store@.len() <= i < td.patch_store@.len() ==> appended_rec_ok(
            #[trigger] td.patch_store@[i],
            changed,
            g,
            td0,
            td,
            tree,
            created_at,
            initial_run,
            level,
            create_reverse,
        )
    &&& forall|i1: int, i2: int|
        td0.patch_store@.len() <= i1 < i2 < td.patch_store@.len() ==> (
        #[trigger] td.patch_store@[i1]).target_path@ != (#[trigger] td.patch_store@[i2]).target_path@
    &&& forall|k: int|
        0 <= k < g && entry_cuts_patch(#[trigger] changed[k], tree) ==> exists|x: int|
            td0.patch_store@.len() <= x < td.patch_store@.len() && (
            #[trigger] td.patch_store@[x]).target_path@ == changed[k].path@
    &&& forall|nm: Seq<char>|
        !run_artifact_name(changed, g, tree, created_at, nm) ==> #[trigger] td.artifacts.find(nm)
            == td0.artifacts.find(nm)
    &&& forall|nm: Seq<char>|
        td0.artifacts.find(nm) is Some ==> #[trigger] td.artifacts.find(nm) == td0.artifacts.find(
            nm,
        )
}

/// Whether the identifiers this run would derive are pairwise fresh: no two
/// patch-cutting entries share one, and none collides with a reverse name.
/// They are digests of distinct inputs, so this holds of every real run,
/// but nothing a caller states can force it.
pub open spec fn run_ids_fresh(
    changed: Seq<ModifiedList>,
    tree: FileTree,
    created_at: Seq<char>,
) -> bool {
    forall|k: int, j: int|
        #![trigger changed[k], changed[j]]
        0 <= k < changed.len() && 0 <= j < changed.len() && entry_cuts_patch(changed[k], tree)
            && entry_cuts_patch(changed[j], tree) ==> ((k != j ==> patch_id_of(
            created_at,
            changed[k].path@,
        ) != patch_id_of(created_at, changed[j].path@)) && patch_id_of(
            created_at,
            changed[k].path@,
        ) != reverse_name_of(patch_id_of(created_at, changed[j].path@)) && (k != j
            ==> reverse_name_of(patch_id_of(created_at, changed[k].path@)) != reverse_name_of(
            patch_id_of(created_at, changed[j].path@),
        )))
}

/// The conditions under which processing one entry is owed to succeed: a
/// non-cutting entry always, and a patch-cutting one when its fresh
/// identifier is untaken, its compressed reverse cannot collide with the
/// sentinel, and — for a path the store knows — the baseline chain is
/// intact.
pub open spec fn process_can_succeed(
    e: ModifiedList,
    td: TimeDir,
    tree: FileTree,
    created_at: Seq<char>,
    level: int,
    create_reverse: bool,
    initial_run: bool,
) -> bool {
    entry_cuts_patch(e, tree) ==> {
        let c = entry_content(e, tree);
        &&& td.artifacts.find(patch_id_of(created_at, e.path@)) is None
        &&& td.artifacts.find(reverse_name_of(patch_id_of(created_at, e.path@))) is None
        &&& ((initial_run || !crate::stores::has_record(td.patch_store@, e.path@))
            ==> (create_reverse ==> crate::compression::compress_of(
            crate::compression::delta_of(c, Seq::empty()),
            level,
        ) != crate::stores::reverse_sentinel()))
        &&& ((!initial_run && crate::stores::has_record(td.patch_store@, e.path@))
            ==> crate::restore::ref_diff_can_succeed(td, e.path@, created_at, c, level, true))
    }
}

/// Records appended for other paths change nothing about which records and
/// baselines a path has.
proof fn lemma_record_frame(orig: Seq<DiffEntry>, cur: Seq<DiffEntry>, p: Seq<char>)
    requires
        cur.len() >= orig.len(),
        forall|i: int| 0 <= i < orig.len() ==> cur[i] == orig[i],
        forall|i: int|
            orig.len() <= i < cur.len() ==> (#[trigger] cur[i]).target_path@ != p,
    ensures
        crate::stores::has_record(cur, p) == crate::stores::has_record(orig, p),
        crate::stores::has_baseline(cur, p) == crate::stores::has_baseline(orig, p),
        forall|j: int|
            crate::stores::is_best_baseline(cur, p, j) <==> (j < orig.len()
                && crate::stores::is_best_baseline(orig, p, j)),
{
    assert forall|i: int|
        0 <= i < cur.len() && (#[trigger] cur[i]).target_path@ == p implies 0 <= i < orig.len()
        && orig[i].target_path@ == p by {}
    assert(crate::stores::has_record(cur, p) == crate::stores::has_record(orig, p)) by {
        if crate::stores::has_record(orig, p) {
            let i = choose|i: int|
                0 <= i < orig.len() && (#[trigger] orig[i]).target_path@ == p;
            assert(cur[i].target_path@ == p);
        }
        if crate::stores::has_record(cur, p) {
            let i = choose|i: int|
                0 <= i < cur.len() && (#[trigger] cur[i]).target_path@ == p;
            assert(orig[i].target_path@ == p);
        }
    }
    assert(crate::stores::has_baseline(cur, p) == crate::stores::has_baseline(orig, p)) by {
        if crate::stores::has_baseline(orig, p) {
            let i = choose|i: int|
                0 <= i < orig.len() && crate::stores::is_baseline_rec(#[trigger] orig[i], p);
            assert(crate::stores::is_baseline_rec(cur[i], p));
        }
        if crate::stores::has_baseline(cur, p) {
            let i = choose|i: int|
                0 <= i < cur.len() && crate::stores::is_baseline_rec(#[trigger] cur[i], p);
            assert(crate::stores::is_baseline_rec(orig[i], p));
        }
    }
    assert forall|j: int|
        crate::stores::is_best_baseline(cur, p, j) <==> (j < orig.len()
            && crate::stores::is_best_baseline(orig, p, j)) by {
        if crate::stores::is_best_baseline(cur, p, j) {
            assert(j < orig.len());
            assert(crate::stores::is_baseline_rec(orig[j], p));
            assert forall|k: int|
                0 <= k < orig.len() && crate::stores::is_baseline_rec(#[trigger] orig[k], p) implies
                crate::stores::rec_le(orig[k], orig[j]) by {
                assert(crate::stores::is_baseline_rec(cur[k], p));
                assert(crate::stores::rec_le(cur[k], cur[j]));
            }
        }
        if j < orig.len() && crate::stores::is_best_baseline(orig, p, j) {
            assert(crate::stores::is_baseline_rec(cur[j], p));
            assert forall|k: int|
                0 <= k < cur.len() && crate::stores::is_baseline_rec(#[trigger] cur[k], p) implies
                crate::stores::rec_le(cur[k], cur[j]) by {
                assert(k < orig.len());
                assert(crate::stores::is_baseline_rec(orig[k], p));
            }
        }
    }
}

/// A best-baseline reference found against the grown store is one against
/// the original store, when the growth names other paths only.
proof fn lemma_best_ref_translate(orig: Seq<DiffEntry>, cur: Seq<DiffEntry>, p: Seq<char>, rid: Seq<
    char,
>)
    requires
        cur.len() >= orig.len(),
        forall|i: int| 0 <= i < orig.len() ==> cur[i] == orig[i],
        forall|i: int| orig.len() <= i < cur.len() ==> (#[trigger] cur[i]).target_path@ != p,
        exists|j: int|
            crate::stores::is_best_baseline(cur, p, j) && rid == crate::stores::rec_id(
                #[trigger] cur[j],
            ),
    ensures
        exists|j: int|
            crate::stores::is_best_baseline(orig, p, j) && rid == crate::stores::rec_id(
                #[trigger] orig[j],
            ),
{
    let j = choose|j: int|
        crate::stores::is_best_baseline(cur, p, j) && rid == crate::stores::rec_id(
            #[trigger] cur[j],
        );
    lemma_record_frame(orig, cur, p);
    assert(j < orig.len());
    assert(crate::stores::is_best_baseline(orig, p, j) && rid == crate::stores::rec_id(orig[j]));
}

/// Two equal-length reverse names come from the same identifier.
proof fn lemma_reverse_name_injective(a: Seq<char>, b: Seq<char>)
    requires
        a.len() == b.len(),
        reverse_name_of(a) == reverse_name_of(b),
    ensures
        a == b,
{
    assert forall|i: int| 0 <= i < a.len() implies a[i] == b[i] by {
        assert(reverse_name_of(a)[i] == a[i]);
        assert(reverse_name_of(b)[i] == b[i]);
    }
    assert(a =~= b);
}

/// An appended record stays sound when a later creation adds artifacts
/// under a fresh identifier and its fresh reverse name.
proof fn lemma_appended_preserved(
    r: DiffEntry,
    changed: Seq<ModifiedList>,
    g: int,
    td0: TimeDir,
    tdb: TimeDir,
    tdn: TimeDir,
    tree: FileTree,
    created_at: Seq<char>,
    initial_run: bool,
    level: int,
    create_reverse: bool,
    new_id: Seq<char>,
)
    requires
        appended_rec_ok(r, changed, g, td0, tdb, tree, created_at, initial_run, level,
            create_reverse),
        tdb.artifacts.find(new_id) is None,
        tdb.artifacts.find(reverse_name_of(new_id)) is None,
        tdn.patch_store@.len() >= tdb.patch_store@.len(),
        forall|n: Seq<char>|
            n != new_id && n != reverse_name_of(new_id) ==> tdn.artifacts.find(n)
                == tdb.artifacts.find(n),
    ensures
        appended_rec_ok(r, changed, g + 1, td0, tdn, tree, created_at, initial_run, level,
            create_reverse),
{
    let rid = crate::stores::rec_id(r);
    assert(rid != new_id);
    assert(rid != reverse_name_of(new_id));
    assert(reverse_name_of(rid) != new_id);
    assert(reverse_name_of(rid) != reverse_name_of(new_id));
    assert(tdn.artifacts.find(rid) == tdb.artifacts.find(rid));
    assert(tdn.artifacts.find(reverse_name_of(rid)) == tdb.artifacts.find(reverse_name_of(rid)));
    assert(crate::stores::decoded_artifact(tdn, rid) == crate::stores::decoded_artifact(tdb, rid));
    assert(crate::stores::decoded_artifact(tdn, reverse_name_of(rid))
        == crate::stores::decoded_artifact(tdb, reverse_name_of(rid)));
    assert(crate::stores::artifact_content(tdn, rid) == crate::stores::artifact_content(tdb, rid));
    let c = entry_content(
        ModifiedList { path: r.target_path, exists: true, modified: true },
        tree,
    );
    if r.ref_patch@ != "First patch"@ {
        let j = choose|j: int|
            #![trigger td0.patch_store@[j]]
            {
                &&& crate::stores::is_best_baseline(td0.patch_store@, r.target_path@, j)
                &&& r.ref_patch@ == crate::stores::rec_id(td0.patch_store@[j])
                &&& crate::stores::artifact_content(
                    tdb,
                    crate::stores::rec_id(td0.patch_store@[j]),
                ) matches Some(bc)
                &&& crate::stores::decoded_artifact(tdb, rid) == Some(
                    crate::compression::delta_of(bc, c),
                )
                &&& crate::compression::patched_of(bc, crate::compression::delta_of(bc, c))
                    == Some(c)
                &&& tdb.artifacts.find(reverse_name_of(rid)) == Some(
                    crate::compression::compress_of(crate::compression::delta_of(c, bc), level),
                )
                &&& crate::stores::decoded_artifact(tdb, reverse_name_of(rid)) == Some(
                    crate::compression::delta_of(c, bc),
                )
                &&& crate::compression::patched_of(c, crate::compression::delta_of(c, bc))
                    == Some(bc)
                &&& crate::compression::compress_of(
                    crate::compression::delta_of(c, bc),
                    level,
                ) != crate::stores::reverse_sentinel()
            };
        let brid = crate::stores::rec_id(td0.patch_store@[j]);
        assert(tdb.artifacts.find(brid) is Some);
        assert(brid != new_id && brid != reverse_name_of(new_id));
        assert(tdn.artifacts.find(brid) == tdb.artifacts.find(brid));
        assert(crate::stores::decoded_artifact(tdn, brid) == crate::stores::decoded_artifact(
            tdb,
            brid,
        ));
        assert(crate::stores::artifact_content(tdn, brid) == crate::stores::artifact_content(
            tdb,
            brid,
        ));
        assert(crate::stores::is_best_baseline(td0.patch_store@, r.target_path@, j));
        assert(follow_patch_ok(td0, tdn, r.target_path@, c, level, rid, r.ref_patch@));
    }
    lemma_appended_widen(r, changed, g, td0, tdn, tree, created_at, initial_run, level,
        create_reverse);
}

/// Soundness of an appended record is monotone in the processed count.
proof fn lemma_appended_widen(
    r: DiffEntry,
    changed: Seq<ModifiedList>,
    g: int,
    td0: TimeDir,
    td: TimeDir,
    tree: FileTree,
    created_at: Seq<char>,
    initial_run: bool,
    level: int,
    create_reverse: bool,
)
    requires
        appended_rec_ok(r, changed, g, td0, td, tree, created_at, initial_run, level,
            create_reverse),
    ensures
        appended_rec_ok(r, changed, g + 1, td0, td, tree, created_at, initial_run, level,
            create_reverse),
{
    let w = choose|k: int|
        0 <= k < g && (#[trigger] changed[k]).path@ == r.target_path@ && entry_cuts_patch(
            changed[k],
            tree,
        );
    assert(0 <= w < g + 1 && changed[w].path@ == r.target_path@ && entry_cuts_patch(
        changed[w],
        tree,
    ));
}

/// What a partial run owes a still-unprocessed entry: the run's additions
/// name other paths and other identifiers and leave every pre-existing
/// artifact as it was, so every success condition that held against the
/// store before the run still holds now.
proof fn lemma_can_succeed_translate(
    changed: Seq<ModifiedList>,
    gidx: int,
    g: int,
    td0: TimeDir,
    tdc: TimeDir,
    tree: FileTree,
    created_at: Seq<char>,
    level: int,
    create_reverse: bool,
    initial_run: bool,
)
    requires
        0 <= g <= gidx < changed.len(),
        built_store_ok(changed, g, td0, tdc, tree, created_at, initial_run, level,
            create_reverse),
        unique_mod_paths(changed),
        run_ids_fresh(changed, tree, created_at),
        process_can_succeed(changed[gidx], td0, tree, created_at, level, create_reverse,
            initial_run),
    ensures
        process_can_succeed(changed[gidx], tdc, tree, created_at, level, create_reverse,
            initial_run),
{
    let e = changed[gidx];
    if entry_cuts_patch(e, tree) {
        let p = e.path@;
        let nid = patch_id_of(created_at, p);
        let s0 = td0.patch_store@;
        let sc = tdc.patch_store@;
        assert forall|x: int| s0.len() <= x < sc.len() implies (#[trigger] sc[x]).target_path@
            != p by {
            let k = choose|k: int|
                0 <= k < g && (#[trigger] changed[k]).path@ == sc[x].target_path@
                    && entry_cuts_patch(changed[k], tree);
            assert(changed[k].path@ != changed[gidx].path@);
        }
        lemma_record_frame(s0, sc, p);
        assert(!run_artifact_name(changed, g, tree, created_at, nid)) by {
            if run_artifact_name(changed, g, tree, created_at, nid) {
                let k = choose|k: int|
                    0 <= k < g && entry_cuts_patch(#[trigger] changed[k], tree) && (nid
                        == patch_id_of(created_at, changed[k].path@) || nid == reverse_name_of(
                        patch_id_of(created_at, changed[k].path@),
                    ));
                assert(k != gidx);
                assert(false);
            }
        }
        assert(!run_artifact_name(changed, g, tree, created_at, reverse_name_of(nid))) by {
            if run_artifact_name(changed, g, tree, created_at, reverse_name_of(nid)) {
                let k = choose|k: int|
                    0 <= k < g && entry_cuts_patch(#[trigger] changed[k], tree) && (
                    reverse_name_of(nid) == patch_id_of(created_at, changed[k].path@)
                        || reverse_name_of(nid) == reverse_name_of(
                        patch_id_of(created_at, changed[k].path@),
                    ));
                assert(k != gidx);
                assert(false);
            }
        }
        assert(tdc.artifacts.find(nid) == td0.artifacts.find(nid));
        assert(tdc.artifacts.find(reverse_name_of(nid)) == td0.artifacts.find(
            reverse_name_of(nid),
        ));
        if !initial_run && crate::stores::has_record(s0, p) {
            assert(crate::restore::baseline_dates_bad(sc, p)
                == crate::restore::baseline_dates_bad(s0, p)) by {
                if crate::restore::baseline_dates_bad(s0, p) {
                    let i = choose|i: int|
                        0 <= i < s0.len() && crate::stores::is_baseline_rec(#[trigger] s0[i], p)
                            && crate::stores::rec_instant(s0[i]) is None;
                    assert(crate::stores::is_baseline_rec(sc[i], p));
                }
                if crate::restore::baseline_dates_bad(sc, p) {
                    let i = choose|i: int|
                        0 <= i < sc.len() && crate::stores::is_baseline_rec(#[trigger] sc[i], p)
                            && crate::stores::rec_instant(sc[i]) is None;
                    assert(i < s0.len());
                    assert(crate::stores::is_baseline_rec(s0[i], p));
                }
            }
            assert forall|j: int|
                crate::stores::is_best_baseline(sc, p, j) implies ((
            crate::stores::artifact_content(tdc, crate::stores::rec_id(#[trigger] sc[j]))
                matches Some(bc) && (true ==> crate::compression::compress_of(
                crate::compression::delta_of(entry_content(e, tree), bc),
                level,
            ) != crate::stores::reverse_sentinel())) && crate::stores::rec_id(sc[j]).len()
                == 64) by {
                assert(j < s0.len() && crate::stores::is_best_baseline(s0, p, j));
                assert(sc[j] == s0[j]);
                let rid = crate::stores::rec_id(s0[j]);
                assert(crate::stores::artifact_content(td0, rid) is Some);
                assert(td0.artifacts.find(rid) is Some);
                assert(tdc.artifacts.find(rid) == td0.artifacts.find(rid));
                assert(crate::stores::decoded_artifact(tdc, rid) == crate::stores::decoded_artifact(
                    td0,
                    rid,
                ));
                assert(crate::stores::artifact_content(tdc, rid)
                    == crate::stores::artifact_content(td0, rid));
            }
        }
    }
}

/// Builds one snapshot row: processes each changed entry in slice order,
/// cutting patch pairs for modified files and recording the fate of every
/// entry in the four parallel accumulators.  The change list is cut into
/// `thread_count` contiguous slices of `count / thread_count` entries, the
/// last slice taking the remainder, exactly as the parallel workers would
/// share it; the slices are processed in order.
#[verifier::rlimit(100)]
pub fn create_diffs_multithread(
    patch_ids: &mut Vec<String>,
    ref_patch_ids: &mut Vec<String>,
    target_paths: &mut Vec<String>,
    modified: &mut Vec<bool>,
    changed_files_vec: Vec<ModifiedList>,
    changed_count: u32,
    thread_count: u32,
    compression_level: u32,
    time_dir: &mut TimeDir,
    tree: &FileTree,
    created_at: &String,
    create_reverse: bool,
    initial_run: bool,
    snapshot_mode: &String,
) -> (r: Result<(), crate::EngineError>)
    requires
        changed_count as int == changed_files_vec@.len(),
        thread_count >= 1,
        unique_mod_paths(changed_files_vec@),
        tree.wf(),
        initial_run ==> old(time_dir).patch_store@.len() == 0,
        old(patch_ids)@.len() == old(target_paths)@.len(),
        old(ref_patch_ids)@.len() == old(target_paths)@.len(),
        old(modified)@.len() == old(target_paths)@.len(),
    ensures
        snapshot_mode@ != "fastest"@ <==> r == Err::<(), crate::EngineError>(
            crate::EngineError::UnsupportedMode,
        ),
        r is Ok ==> ({
            let base = old(target_paths)@.len() as int;
            let n = changed_files_vec@.len() as int;
            &&& final(patch_ids)@.len() == base + n
            &&& final(ref_patch_ids)@.len() == base + n
            &&& final(target_paths)@.len() == base + n
            &&& final(modified)@.len() == base + n
            &&& final(patch_ids)@.take(base) == old(patch_ids)@
            &&& final(ref_patch_ids)@.take(base) == old(ref_patch_ids)@
            &&& final(target_paths)@.take(base) == old(target_paths)@
            &&& final(modified)@.take(base) == old(modified)@
            &&& forall|k: int|
                0 <= k < n ==> built_slot_ok(
                    #[trigger] changed_files_vec@[k],
                    base + k,
                    final(patch_ids)@,
                    final(ref_patch_ids)@,
                    final(target_paths)@,
                    final(modified)@,
                    *old(time_dir),
                    *tree,
                    created_at@,
                    initial_run,
                )
            &&& built_store_ok(
                changed_files_vec@,
                n,
                *old(time_dir),
                *final(time_dir),
                *tree,
                created_at@,
                initial_run,
                compression_level as int,
                create_reverse,
            )
        }),
        snapshot_mode@ == "fastest"@ && run_ids_fresh(changed_files_vec@, *tree, created_at@) && (
        forall|k: int|
            0 <= k < changed_files_vec@.len() ==> process_can_succeed(
                #[trigger] changed_files_vec@[k],
                *old(time_dir),
                *tree,
                created_at@,
                compression_level as int,
                create_reverse,
                initial_run,
            )) ==> r is Ok,
{
    if !crate::text::str_eq(snapshot_mode.as_str(), "fastest") {
        return Err(crate::EngineError::UnsupportedMode);
    }
    let ghost td0 = *time_dir;
    let ghost base = target_paths@.len() as int;
    let count = changed_count as usize;
    let threads = thread_count as usize;
    let split_into = count / threads;
    let split_into_rem = count % threads;
    let mut g: usize = 0;
    let mut i: usize = 0;
    proof {
        assert(patch_ids@.take(base) =~= patch_ids@);
        assert(ref_patch_ids@.take(base) =~= ref_patch_ids@);
        assert(target_paths@.take(base) =~= target_paths@);
        assert(modified@.take(base) =~= modified@);
    }
    while i < threads
        invariant
            snapshot_mode@ == "fastest"@,
            tree.wf(),
            unique_mod_paths(changed_files_vec@),
            count == changed_files_vec@.len(),
            threads >= 1,
            split_into == count / threads,
            split_into_rem == count % threads,
            td0 == *old(time_dir),
            base == old(target_paths)@.len() as int,
            old(patch_ids)@.len() == base,
            old(ref_patch_ids)@.len() == base,
            old(modified)@.len() == base,
            0 <= i <= threads,
            g as int == i as int * split_into as int + (if i == threads {
                split_into_rem as int
            } else {
                0
            }),
            g <= count,
            patch_ids@.len() == base + g,
            ref_patch_ids@.len() == base + g,
            target_paths@.len() == base + g,
            modified@.len() == base + g,
            patch_ids@.take(base) == old(patch_ids)@,
            ref_patch_ids@.take(base) == old(ref_patch_ids)@,
            target_paths@.take(base) == old(target_paths)@,
            modified@.take(base) == old(modified)@,
            forall|k: int|
                0 <= k < g ==> built_slot_ok(
                    #[trigger] changed_files_vec@[k],
                    base + k,
                    patch_ids@,
                    ref_patch_ids@,
                    target_paths@,
                    modified@,
                    td0,
                    *tree,
                    created_at@,
                    initial_run,
                ),
            built_store_ok(
                changed_files_vec@,
                g as int,
                td0,
                *time_dir,
                *tree,
                created_at@,
                initial_run,
                compression_level as int,
                create_reverse,
            ),
        decreases threads - i,
    {
        proof {
            assert(threads as int * split_into as int + split_into_rem as int == count as int)
                by (nonlinear_arith)
                requires
                    split_into as int == count as int / threads as int,
                    split_into_rem as int == count as int % threads as int,
                    threads >= 1,
            ;
            assert((i as int + 1) * split_into as int == i as int * split_into as int
                + split_into as int) by (nonlinear_arith);
            assert((i as int + 1) * split_into as int <= threads as int * split_into as int)
                by (nonlinear_arith)
                requires
                    i < threads,
            ;
        }
        let slice_begin: usize = i * split_into;
        let mut slice_end: usize = i * split_into + split_into;
        if i == threads - 1 {
            slice_end = slice_end + split_into_rem;
        }
        let mut k: usize = slice_begin;
        while k < slice_end
            invariant
                snapshot_mode@ == "fastest"@,
                tree.wf(),
                unique_mod_paths(changed_files_vec@),
                count == changed_files_vec@.len(),
                td0 == *old(time_dir),
                base == old(target_paths)@.len() as int,
                old(patch_ids)@.len() == base,
                old(ref_patch_ids)@.len() == base,
                old(modified)@.len() == base,
                slice_begin <= k <= slice_end,
                slice_end <= count,
                g == k,
                patch_ids@.len() == base + g,
                ref_patch_ids@.len() == base + g,
                target_paths@.len() == base + g,
                modified@.len() == base + g,
                patch_ids@.take(base) == old(patch_ids)@,
                ref_patch_ids@.take(base) == old(ref_patch_ids)@,
                target_paths@.take(base) == old(target_paths)@,
                modified@.take(base) == old(modified)@,
                forall|t: int|
                    0 <= t < g ==> built_slot_ok(
                        #[trigger] changed_files_vec@[t],
                        base + t,
                        patch_ids@,
                        ref_patch_ids@,
                        target_paths@,
                        modified@,
                        td0,
                        *tree,
                        created_at@,
                        initial_run,
                    ),
                built_store_ok(
                    changed_files_vec@,
                    g as int,
                    td0,
                    *time_dir,
                    *tree,
                    created_at@,
                    initial_run,
                    compression_level as int,
                    create_reverse,
                ),
            decreases slice_end - k,
        {
            let entry = &changed_files_vec[k];
            let ghost td_before = *time_dir;
            let ghost pids_before = patch_ids@;
            let ghost rids_before = ref_patch_ids@;
            let ghost tps_before = target_paths@;
            let ghost mods_before = modified@;
            proof {
                assert forall|x: int|
                    td0.patch_store@.len() <= x < td_before.patch_store@.len() implies (
                #[trigger] td_before.patch_store@[x]).target_path@ != entry.path@ by {
                    let w = choose|w: int|
                        0 <= w < g && (#[trigger] changed_files_vec@[w]).path@
                            == td_before.patch_store@[x].target_path@ && entry_cuts_patch(
                            changed_files_vec@[w],
                            *tree,
                        );
                    assert(changed_files_vec@[w].path@ != changed_files_vec@[k as int].path@);
                }
                lemma_record_frame(td0.patch_store@, td_before.patch_store@, entry.path@);
            }
            match process_entry(
                entry,
                patch_ids,
                ref_patch_ids,
                target_paths,
                modified,
                tree,
                created_at,
                compression_level,
                time_dir,
                create_reverse,
                initial_run,
                snapshot_mode,
            ) {
                Ok(()) => {},
                Err(e) => {
                    proof {
                        assert(e != crate::EngineError::UnsupportedMode);
                        if run_ids_fresh(changed_files_vec@, *tree, created_at@) && (forall|t: int|
                            0 <= t < changed_files_vec@.len() ==> process_can_succeed(
                                #[trigger] changed_files_vec@[t],
                                td0,
                                *tree,
                                created_at@,
                                compression_level as int,
                                create_reverse,
                                initial_run,
                            )) {
                            lemma_can_succeed_translate(
                                changed_files_vec@,
                                k as int,
                                g as int,
                                td0,
                                td_before,
                                *tree,
                                created_at@,
                                compression_level as int,
                                create_reverse,
                                initial_run,
                            );
                            assert(false);
                        }
                    }
                    return Err(e);
                },
            }
            proof {
                reveal_strlit("First patch");
                let e_g = changed_files_vec@[k as int];
                let tdn = *time_dir;
                assert(patch_ids@.drop_last() == pids_before);
                assert(ref_patch_ids@.drop_last() == rids_before);
                assert(target_paths@.drop_last() == tps_before);
                assert(modified@.drop_last() == mods_before);
                assert(patch_ids@.take(base) =~= pids_before.take(base));
                assert(ref_patch_ids@.take(base) =~= rids_before.take(base));
                assert(target_paths@.take(base) =~= tps_before.take(base));
                assert(modified@.take(base) =~= mods_before.take(base));
                assert forall|t: int| 0 <= t < g + 1 implies built_slot_ok(
                    #[trigger] changed_files_vec@[t],
                    base + t,
                    patch_ids@,
                    ref_patch_ids@,
                    target_paths@,
                    modified@,
                    td0,
                    *tree,
                    created_at@,
                    initial_run,
                ) by {
                    if t < g {
                        assert(patch_ids@[base + t] == pids_before[base + t]);
                        assert(ref_patch_ids@[base + t] == rids_before[base + t]);
                        assert(target_paths@[base + t] == tps_before[base + t]);
                        assert(modified@[base + t] == mods_before[base + t]);
                        assert(built_slot_ok(
                            changed_files_vec@[t],
                            base + t,
                            pids_before,
                            rids_before,
                            tps_before,
                            mods_before,
                            td0,
                            *tree,
                            created_at@,
                            initial_run,
                        ));
                    } else {
                        assert(patch_ids@[base + t] == patch_ids@.last());
                        assert(ref_patch_ids@[base + t] == ref_patch_ids@.last());
                        assert(target_paths@[base + t] == target_paths@.last());
                        assert(modified@[base + t] == modified@.last());
                        if entry_cuts_patch(e_g, *tree) && !initial_run
                            && crate::stores::has_record(td0.patch_store@, e_g.path@) {
                            lemma_best_ref_translate(
                                td0.patch_store@,
                                td_before.patch_store@,
                                e_g.path@,
                                ref_patch_ids@.last()@,
                            );
                        }
                    }
                }
                // the store summary
                if entry_cuts_patch(e_g, *tree) {
                    let new_id = patch_ids@.last()@;
                    assert forall|x: int|
                        td0.patch_store@.len() <= x < tdn.patch_store@.len() implies appended_rec_ok(
                        #[trigger] tdn.patch_store@[x],
                        changed_files_vec@,
                        g + 1,
                        td0,
                        tdn,
                        *tree,
                        created_at@,
                        initial_run,
                        compression_level as int,
                        create_reverse,
                    ) by {
                        if x < td_before.patch_store@.len() {
                            assert(tdn.patch_store@[x] == td_before.patch_store@[x]);
                            lemma_appended_preserved(
                                td_before.patch_store@[x],
                                changed_files_vec@,
                                g as int,
                                td0,
                                td_before,
                                tdn,
                                *tree,
                                created_at@,
                                initial_run,
                                compression_level as int,
                                create_reverse,
                                new_id,
                            );
                        } else {
                            let newr = tdn.patch_store@.last();
                            assert(x == tdn.patch_store@.len() - 1);
                            assert(newr.target_path@ == e_g.path@);
                            assert(changed_files_vec@[k as int].path@ == newr.target_path@
                                && entry_cuts_patch(changed_files_vec@[k as int], *tree));
                            assert(crate::stores::rec_id(newr) == new_id);
                            assert(entry_content(
                                ModifiedList {
                                    path: newr.target_path,
                                    exists: true,
                                    modified: true,
                                },
                                *tree,
                            ) == entry_content(e_g, *tree));
                            assert(td0.artifacts.find(new_id) is None) by {
                                if td0.artifacts.find(new_id) is Some {
                                    assert(td_before.artifacts.find(new_id)
                                        == td0.artifacts.find(new_id));
                                }
                            }
                            assert(td0.artifacts.find(reverse_name_of(new_id)) is None) by {
                                if td0.artifacts.find(reverse_name_of(new_id)) is Some {
                                    assert(td_before.artifacts.find(reverse_name_of(new_id))
                                        == td0.artifacts.find(reverse_name_of(new_id)));
                                }
                            }
                            if newr.ref_patch@ != "First patch"@ {
                                let j = choose|j: int|
                                    #![trigger td_before.patch_store@[j]]
                                    {
                                        &&& crate::stores::is_best_baseline(
                                            td_before.patch_store@,
                                            e_g.path@,
                                            j,
                                        )
                                        &&& newr.ref_patch@ == crate::stores::rec_id(
                                            td_before.patch_store@[j],
                                        )
                                        &&& crate::stores::artifact_content(
                                            tdn,
                                            crate::stores::rec_id(td_before.patch_store@[j]),
                                        ) matches Some(bc)
                                        &&& crate::stores::decoded_artifact(tdn, new_id) == Some(
                                            crate::compression::delta_of(
                                                bc,
                                                entry_content(e_g, *tree),
                                            ),
                                        )
                                        &&& crate::compression::patched_of(
                                            bc,
                                            crate::compression::delta_of(
                                                bc,
                                                entry_content(e_g, *tree),
                                            ),
                                        ) == Some(entry_content(e_g, *tree))
                                        &&& tdn.artifacts.find(reverse_name_of(new_id)) == Some(
                                            crate::compression::compress_of(
                                                crate::compression::delta_of(
                                                    entry_content(e_g, *tree),
                                                    bc,
                                                ),
                                                compression_level as int,
                                            ),
                                        )
                                        &&& crate::stores::decoded_artifact(
                                            tdn,
                                            reverse_name_of(new_id),
                                        ) == Some(
                                            crate::compression::delta_of(
                                                entry_content(e_g, *tree),
                                                bc,
                                            ),
                                        )
                                        &&& crate::compression::patched_of(
                                            entry_content(e_g, *tree),
                                            crate::compression::delta_of(
                                                entry_content(e_g, *tree),
                                                bc,
                                            ),
                                        ) == Some(bc)
                                        &&& crate::compression::compress_of(
                                            crate::compression::delta_of(
                                                entry_content(e_g, *tree),
                                                bc,
                                            ),
                                            compression_level as int,
                                        ) != crate::stores::reverse_sentinel()
                                    };
                                assert(crate::stores::is_best_baseline(
                                    td0.patch_store@,
                                    e_g.path@,
                                    j,
                                ));
                                assert(td_before.patch_store@[j] == td0.patch_store@[j]);
                                assert(follow_patch_ok(
                                    td0,
                                    tdn,
                                    newr.target_path@,
                                    entry_content(e_g, *tree),
                                    compression_level as int,
                                    new_id,
                                    newr.ref_patch@,
                                ));
                            }
                        }
                    }
                    assert forall|x1: int, x2: int|
                        td0.patch_store@.len() <= x1 < x2 < tdn.patch_store@.len() implies (
                    #[trigger] tdn.patch_store@[x1]).target_path@ != (
                    #[trigger] tdn.patch_store@[x2]).target_path@ by {
                        if x2 == tdn.patch_store@.len() - 1 {
                            assert(tdn.patch_store@[x1] == td_before.patch_store@[x1]);
                        }
                    }
                } else {
                    assert(tdn == td_before);
                    assert forall|x: int|
                        td0.patch_store@.len() <= x < tdn.patch_store@.len() implies appended_rec_ok(
                        #[trigger] tdn.patch_store@[x],
                        changed_files_vec@,
                        g + 1,
                        td0,
                        tdn,
                        *tree,
                        created_at@,
                        initial_run,
                        compression_level as int,
                        create_reverse,
                    ) by {
                        lemma_appended_widen(
                            tdn.patch_store@[x],
                            changed_files_vec@,
                            g as int,
                            td0,
                            tdn,
                            *tree,
                            created_at@,
                            initial_run,
                            compression_level as int,
                            create_reverse,
                        );
                    }
                }
            }
            k = k + 1;
            g = g + 1;
        }
        i = i + 1;
    }
    proof {
        assert(threads as int * split_into as int + split_into_rem as int == count as int)
            by (nonlinear_arith)
            requires
                split_into as int == count as int / threads as int,
                split_into_rem as int == count as int % threads as int,
                threads >= 1,
        ;
        assert(g == count);
    }
    Ok(())
}

/// Baseline identity: a snapshot run never gives a path a second baseline
/// record.  A store holding at most one baseline per path before the run
/// still holds at most one after it, because a run cuts a fresh baseline
/// only for paths of which the store had no record at all (and an initial
/// run starts from an empty store).
pub proof fn lemma_baseline_identity(
    changed: Seq<ModifiedList>,
    n: int,
    td0: TimeDir,
    td1: TimeDir,
    tree: FileTree,
    created_at: Seq<char>,
    initial_run: bool,
    level: int,
    create_reverse: bool,
    path: Seq<char>,
)
    requires
        built_store_ok(changed, n, td0, td1, tree, created_at, initial_run, level,
            create_reverse),
        initial_run ==> td0.patch_store@.len() == 0,
        unique_mod_paths(changed),
        forall|i: int, j: int|
            0 <= i < j < td0.patch_store@.len() && crate::stores::is_baseline_rec(
                #[trigger] td0.patch_store@[i],
                path,
            ) && crate::stores::is_baseline_rec(#[trigger] td0.patch_store@[j], path) ==> false,
    ensures
        forall|i: int, j: int|
            0 <= i < j < td1.patch_store@.len() && crate::stores::is_baseline_rec(
                #[trigger] td1.patch_store@[i],
                path,
            ) && crate::stores::is_baseline_rec(#[trigger] td1.patch_store@[j], path) ==> false,
{
    reveal_strlit("First patch");
    let s0 = td0.patch_store@;
    let s1 = td1.patch_store@;
    assert forall|i: int, j: int|
        0 <= i < j < s1.len() && crate::stores::is_baseline_rec(#[trigger] s1[i], path)
            && crate::stores::is_baseline_rec(#[trigger] s1[j], path) implies false by {
        if j < s0.len() {
            assert(s1[i] == s0[i] && s1[j] == s0[j]);
        } else if i >= s0.len() {
            assert(s1[i].target_path@ != s1[j].target_path@);
        } else {
            assert(s1[i] == s0[i]);
            assert(appended_rec_ok(s1[j], changed, n, td0, td1, tree, created_at, initial_run,
                level, create_reverse));
            assert(s1[j].ref_patch@ == "First patch"@);
            if initial_run {
                assert(s0.len() == 0);
            } else {
                assert(!crate::stores::has_record(s0, s1[j].target_path@));
                assert(s0[i].target_path@ == path && s1[j].target_path@ == path);
            }
        }
    }
}

/// One side of manifest totality: a path occurs among the new-file change
/// entries exactly when the walk saw it and the index did not know it.
proof fn lemma_news_paths(metas: Seq<MetaFile>, cur: Seq<MetaFile>, p: Seq<char>)
    ensures
        (exists|k: int|
            0 <= k < news_view(metas, cur).len() && (#[trigger] news_view(metas, cur)[k]).path
                == p) <==> (has_meta(cur, p) && !has_meta(metas, p)),
    decreases cur.len(),
{
    if cur.len() == 0 {
        assert(!has_meta(cur, p));
    } else {
        lemma_news_paths(metas, cur.drop_last(), p);
        let nv = news_view(metas, cur);
        let prev = news_view(metas, cur.drop_last());
        assert(has_meta(cur, p) <==> (has_meta(cur.drop_last(), p) || cur.last().path@ == p)) by {
            if has_meta(cur, p) {
                let w = choose|w: int| 0 <= w < cur.len() && (#[trigger] cur[w]).path@ == p;
                if w < cur.len() - 1 {
                    assert(cur.drop_last()[w] == cur[w]);
                }
            }
            if has_meta(cur.drop_last(), p) {
                let w = choose|w: int|
                    0 <= w < cur.drop_last().len() && (#[trigger] cur.drop_last()[w]).path@ == p;
                assert(cur[w] == cur.drop_last()[w]);
            }
            if cur.last().path@ == p {
                assert(cur[cur.len() - 1].path@ == p);
            }
        }
        if !has_meta(metas, cur.last().path@) {
            assert(nv == prev.push(
                ModView { path: cur.last().path@, exists: true, modified: true },
            ));
            if exists|k: int| 0 <= k < nv.len() && (#[trigger] nv[k]).path == p {
                let k = choose|k: int| 0 <= k < nv.len() && (#[trigger] nv[k]).path == p;
                if k < prev.len() {
                    assert(prev[k] == nv[k]);
                }
            }
            if exists|k: int| 0 <= k < prev.len() && (#[trigger] prev[k]).path == p {
                let k = choose|k: int| 0 <= k < prev.len() && (#[trigger] prev[k]).path == p;
                assert(nv[k] == prev[k]);
            }
            if cur.last().path@ == p {
                assert(nv[nv.len() - 1].path == p);
            }
        } else {
            assert(nv == prev);
            if cur.last().path@ == p {
                assert(has_meta(metas, p));
            }
        }
    }
}

/// The other side: a path occurs among the per-row verdicts exactly when
/// the index knew it.
proof fn lemma_checks_paths(metas: Seq<MetaFile>, cur: Seq<MetaFile>, check_hash: bool, p: Seq<
    char,
>)
    ensures
        (exists|k: int|
            0 <= k < checks_view(metas, cur, check_hash).len() && (#[trigger] checks_view(
                metas,
                cur,
                check_hash,
            )[k]).path == p) <==> has_meta(metas, p),
    decreases metas.len(),
{
    if metas.len() == 0 {
        assert(!has_meta(metas, p));
    } else {
        lemma_checks_paths(metas.drop_last(), cur, check_hash, p);
        let cv = checks_view(metas, cur, check_hash);
        let prev = checks_view(metas.drop_last(), cur, check_hash);
        assert(cv == prev.push(meta_check_view(metas.last(), cur, check_hash)));
        assert(meta_check_view(metas.last(), cur, check_hash).path == metas.last().path@);
        assert(has_meta(metas, p) <==> (has_meta(metas.drop_last(), p) || metas.last().path@
            == p)) by {
            if has_meta(metas, p) {
                let w = choose|w: int| 0 <= w < metas.len() && (#[trigger] metas[w]).path@ == p;
                if w < metas.len() - 1 {
                    assert(metas.drop_last()[w] == metas[w]);
                }
            }
            if has_meta(metas.drop_last(), p) {
                let w = choose|w: int|
                    0 <= w < metas.drop_last().len() && (#[trigger] metas.drop_last()[w]).path@
                        == p;
                assert(metas[w] == metas.drop_last()[w]);
            }
            if metas.last().path@ == p {
                assert(metas[metas.len() - 1].path@ == p);
            }
        }
        if exists|k: int| 0 <= k < cv.len() && (#[trigger] cv[k]).path == p {
            let k = choose|k: int| 0 <= k < cv.len() && (#[trigger] cv[k]).path == p;
            if k < prev.len() {
                assert(prev[k] == cv[k]);
            }
        }
        if exists|k: int| 0 <= k < prev.len() && (#[trigger] prev[k]).path == p {
            let k = choose|k: int| 0 <= k < prev.len() && (#[trigger] prev[k]).path == p;
            assert(cv[k] == prev[k]);
        }
        if metas.last().path@ == p {
            assert(cv[cv.len() - 1].path == p);
        }
    }
}

/// Manifest totality: the paths of a change list — and so the target paths
/// of the snapshot row built from it — are exactly the union of the walked
/// paths and the previously tracked paths.
pub proof fn lemma_manifest_totality(
    metas: Seq<MetaFile>,
    cur: Seq<MetaFile>,
    check_hash: bool,
    p: Seq<char>,
)
    ensures
        (exists|k: int|
            0 <= k < (news_view(metas, cur) + checks_view(metas, cur, check_hash)).len() && (
            #[trigger] (news_view(metas, cur) + checks_view(metas, cur, check_hash))[k]).path
                == p) <==> (has_meta(metas, p) || has_meta(cur, p)),
{
    lemma_news_paths(metas, cur, p);
    lemma_checks_paths(metas, cur, check_hash, p);
    let nv = news_view(metas, cur);
    let cv = checks_view(metas, cur, check_hash);
    let full = nv + cv;
    if exists|k: int| 0 <= k < full.len() && (#[trigger] full[k]).path == p {
        let k = choose|k: int| 0 <= k < full.len() && (#[trigger] full[k]).path == p;
        if k < nv.len() {
            assert(nv[k] == full[k]);
        } else {
            assert(cv[k - nv.len()] == full[k]);
        }
    }
    if has_meta(metas, p) {
        let k = choose|k: int| 0 <= k < cv.len() && (#[trigger] cv[k]).path == p;
        assert(full[nv.len() + k].path == p);
    } else if has_meta(cur, p) {
        let k = choose|k: int| 0 <= k < nv.len() && (#[trigger] nv[k]).path == p;
        assert(full[k].path == p);
    }
}

/// Two distinct positions of the reconciled index carry distinct paths.
proof fn lemma_update_distinct(
    orig: Seq<MetaFile>,
    list: Seq<ModifiedList>,
    cur: Seq<MetaFile>,
    a: int,
    b: int,
)
    requires
        unique_meta_paths(orig),
        unique_mod_paths(list),
        0 <= a < b < (kept_view(orig, list, cur) + added_view(list, orig, cur)).len(),
    ensures
        (kept_view(orig, list, cur) + added_view(list, orig, cur))[a].path@ != (kept_view(
            orig,
            list,
            cur,
        ) + added_view(list, orig, cur))[b].path@,
{
    let kv = kept_view(orig, list, cur);
    let av = added_view(list, orig, cur);
    let fin = kv + av;
    if fin[a].path@ == fin[b].path@ {
        let p = fin[a].path@;
        if b < kv.len() {
            lemma_kept_distinct(orig, list, cur, a, b);
        } else if a >= kv.len() {
            lemma_added_distinct(list, orig, cur, a - kv.len(), b - kv.len());
        } else {
            lemma_kept_members(orig, list, cur, a);
            lemma_added_members(list, orig, cur, b - kv.len());
        }
    }
}

/// Two distinct surviving rows carry distinct paths.
proof fn lemma_kept_distinct(
    s: Seq<MetaFile>,
    list: Seq<ModifiedList>,
    cur: Seq<MetaFile>,
    a: int,
    b: int,
)
    requires
        unique_meta_paths(s),
        0 <= a < b < kept_view(s, list, cur).len(),
    ensures
        kept_view(s, list, cur)[a].path@ != kept_view(s, list, cur)[b].path@,
    decreases s.len(),
{
    if s.len() > 0 {
        let first = s.first();
        let rest = s.drop_first();
        let head = keep_row(first, list, cur);
        let tail = kept_view(rest, list, cur);
        assert(kept_view(s, list, cur) == head + tail);
        assert forall|i: int, j: int| 0 <= i < j < rest.len() implies (#[trigger] rest[i]).path@
            != (#[trigger] rest[j]).path@ by {
            assert(rest[i] == s[i + 1] && rest[j] == s[j + 1]);
        }
        if b < head.len() {
            assert(false);
        } else if a >= head.len() {
            lemma_kept_distinct(rest, list, cur, a - head.len(), b - head.len());
        } else {
            assert(head[a].path@ == first.path@) by {
                let fm = find_mod(list, first.path@);
                if fm is Some {
                    if fm->Some_0.exists && find_meta(cur, first.path@) is Some {
                        crate::stores::lemma_find_meta_some(cur, first.path@);
                    }
                }
            }
            lemma_kept_members(rest, list, cur, b - head.len());
            let q = tail[b - head.len()].path@;
            let w = choose|w: int| 0 <= w < rest.len() && (#[trigger] rest[w]).path@ == q;
            assert(s[w + 1] == rest[w]);
            assert(s[0].path@ != s[w + 1].path@);
        }
    }
}

/// Two distinct added rows carry distinct paths.
proof fn lemma_added_distinct(
    list: Seq<ModifiedList>,
    orig: Seq<MetaFile>,
    cur: Seq<MetaFile>,
    a: int,
    b: int,
)
    requires
        unique_mod_paths(list),
        0 <= a < b < added_view(list, orig, cur).len(),
    ensures
        added_view(list, orig, cur)[a].path@ != added_view(list, orig, cur)[b].path@,
    decreases list.len(),
{
    if list.len() > 0 {
        let first = list.first();
        let rest = list.drop_first();
        let head = add_row(first, orig, cur);
        let tail = added_view(rest, orig, cur);
        assert(added_view(list, orig, cur) == head + tail);
        assert forall|i: int, j: int| 0 <= i < j < rest.len() implies (#[trigger] rest[i]).path@
            != (#[trigger] rest[j]).path@ by {
            assert(rest[i] == list[i + 1] && rest[j] == list[j + 1]);
        }
        if b < head.len() {
            assert(false);
        } else if a >= head.len() {
            lemma_added_distinct(rest, orig, cur, a - head.len(), b - head.len());
        } else {
            assert(head[a].path@ == first.path@) by {
                if first.exists && !has_meta(orig, first.path@) && find_meta(cur, first.path@)
                    is Some {
                    crate::stores::lemma_find_meta_some(cur, first.path@);
                }
            }
            lemma_added_row_path(rest, orig, cur, b - head.len());
            let q = tail[b - head.len()].path@;
            let w = choose|w: int| 0 <= w < rest.len() && (#[trigger] rest[w]).path@ == q;
            assert(list[w + 1] == rest[w]);
            assert(list[0].path@ != list[w + 1].path@);
        }
    }
}

/// Every added row's path is named by some change entry.
proof fn lemma_added_row_path(
    list: Seq<ModifiedList>,
    orig: Seq<MetaFile>,
    cur: Seq<MetaFile>,
    i: int,
)
    requires
        0 <= i < added_view(list, orig, cur).len(),
    ensures
        exists|w: int|
            0 <= w < list.len() && (#[trigger] list[w]).path@ == added_view(list, orig, cur)[i].path@,
    decreases list.len(),
{
    if list.len() > 0 {
        let first = list.first();
        let head = add_row(first, orig, cur);
        let tail = added_view(list.drop_first(), orig, cur);
        assert(added_view(list, orig, cur) == head + tail);
        if i < head.len() {
            assert(head[i].path@ == first.path@) by {
                if first.exists && !has_meta(orig, first.path@) && find_meta(cur, first.path@)
                    is Some {
                    crate::stores::lemma_find_meta_some(cur, first.path@);
                }
            }
            assert(list[0].path@ == first.path@);
        } else {
            lemma_added_row_path(list.drop_first(), orig, cur, i - head.len());
            let q = added_view(list, orig, cur)[i].path@;
            assert(tail[i - head.len()] == added_view(list, orig, cur)[i]);
            let w = choose|w: int|
                0 <= w < list.drop_first().len() && (#[trigger] list.drop_first()[w]).path@ == q;
            assert(list[w + 1] == list.drop_first()[w]);
        }
    }
}

} // verus!
