use file_time_machine::compression::{apply_delta, decompress_data};
use file_time_machine::diffs::{
    create_diffs_multithread, get_diffs, get_properties, update_metadata, ScanEntry,
};
use file_time_machine::engine::{restore_direction, select_restore_target, snapshot_label};
use file_time_machine::hashing::{derive_patch_id, xxh3_64_bytes};
use file_time_machine::restore::{load_artifact_content, restore_snapshot, restore_snapshot_until};
use file_time_machine::stores::{
    ArtifactStore, FileTree, FsNode, MetaFile, ModifiedList, SnapshotEntries, TimeDir, TreeEntry,
};
use file_time_machine::text::literal_string;
use file_time_machine::EngineError;

const STAMP_1: &str = "2024-11-07 13:05:00.000000001 +0000";
const STAMP_2: &str = "2024-11-07 13:06:00.000000002 +0000";
const STAMP_3: &str = "2024-11-07 13:07:00.000000003 +0000";
const ROOT: &str = "/r";
const FILE_PATH: &str = "/r/a.txt";

fn tree_of(content: &[u8]) -> FileTree {
    FileTree {
        entries: vec![TreeEntry {
            path: literal_string(FILE_PATH),
            node: FsNode::File(content.to_vec()),
        }],
    }
}

fn empty_time_dir() -> TimeDir {
    TimeDir { patch_store: Vec::new(), artifacts: ArtifactStore { items: Vec::new() } }
}

fn run_builder(
    time_dir: &mut TimeDir,
    tree: &FileTree,
    changes: Vec<ModifiedList>,
    stamp: &str,
    initial_run: bool,
) -> SnapshotEntries {
    let mut patch_ids: Vec<String> = Vec::new();
    let mut ref_patch_ids: Vec<String> = Vec::new();
    let mut target_paths: Vec<String> = Vec::new();
    let mut modified: Vec<bool> = Vec::new();
    let count = changes.len() as u32;
    let created_at = literal_string(stamp);
    let mode = literal_string("fastest");
    create_diffs_multithread(
        &mut patch_ids,
        &mut ref_patch_ids,
        &mut target_paths,
        &mut modified,
        changes,
        count,
        1,
        5,
        time_dir,
        tree,
        &created_at,
        !initial_run,
        initial_run,
        &mode,
    )
    .unwrap();
    SnapshotEntries {
        date_created: created_at,
        patch_ids,
        target_path: target_paths,
        ref_patch_ids,
        modified,
    }
}

fn one_change(exists: bool, modified: bool) -> Vec<ModifiedList> {
    vec![ModifiedList { path: literal_string(FILE_PATH), exists, modified }]
}

#[test]
fn empty_root_has_nothing_to_do() {
    let root = literal_string(ROOT);
    let scan: Vec<ScanEntry> = Vec::new();
    let metadata = get_properties(&root, Vec::new(), false, &scan);
    assert!(metadata.is_empty());
    let changes = get_diffs(false, &Vec::new(), &metadata);
    assert!(changes.is_empty());
    let mut holder: Vec<MetaFile> = Vec::new();
    let current: Vec<MetaFile> = Vec::new();
    let r = update_metadata(&mut holder, &changes, &current);
    assert_eq!(r, Err(EngineError::NothingToDo));
    assert_eq!(
        EngineError::NothingToDo.message(),
        "no files changed, nothing to do"
    );
}

#[test]
fn scan_excludes_sidecar_and_vcs() {
    let root = literal_string(ROOT);
    let scan = vec![
        ScanEntry {
            path: literal_string(FILE_PATH),
            date_modified: 100,
            size: 5,
            node: FsNode::File(b"hello".to_vec()),
        },
        ScanEntry {
            path: literal_string("/r/.time/patches.json"),
            date_modified: 100,
            size: 9,
            node: FsNode::File(b"[]".to_vec()),
        },
        ScanEntry {
            path: literal_string("/r/.git"),
            date_modified: 100,
            size: 0,
            node: FsNode::Dir,
        },
        ScanEntry {
            path: literal_string(ROOT),
            date_modified: 100,
            size: 0,
            node: FsNode::Dir,
        },
    ];
    let metadata = get_properties(&root, Vec::new(), false, &scan);
    assert_eq!(metadata.len(), 1);
    assert_eq!(metadata[0].path, FILE_PATH);
    assert_eq!(metadata[0].size, 5);
    assert_eq!(metadata[0].hash, "");
}

#[test]
fn change_detection_by_mtime_size_and_hash() {
    let prior = vec![MetaFile {
        date_modified: 100,
        hash: literal_string(""),
        size: 5,
        path: literal_string(FILE_PATH),
    }];
    let same = vec![MetaFile {
        date_modified: 100,
        hash: literal_string(""),
        size: 5,
        path: literal_string(FILE_PATH),
    }];
    let changes = get_diffs(false, &prior, &same);
    assert_eq!(changes.len(), 1);
    assert!(changes[0].exists);
    assert!(!changes[0].modified);

    let grown = vec![MetaFile {
        date_modified: 100,
        hash: literal_string(""),
        size: 11,
        path: literal_string(FILE_PATH),
    }];
    let changes = get_diffs(false, &prior, &grown);
    assert!(changes[0].modified);

    let gone: Vec<MetaFile> = Vec::new();
    let changes = get_diffs(false, &prior, &gone);
    assert!(!changes[0].exists);
    assert!(changes[0].modified);

    let fresh = vec![MetaFile {
        date_modified: 7,
        hash: literal_string(""),
        size: 3,
        path: literal_string("/r/new.txt"),
    }];
    let changes = get_diffs(false, &Vec::new(), &fresh);
    assert!(changes[0].exists);
    assert!(changes[0].modified);
}

#[test]
fn first_snapshot_writes_a_baseline() {
    let mut td = empty_time_dir();
    let tree = tree_of(b"hello");
    let row = run_builder(&mut td, &tree, one_change(true, true), STAMP_1, true);

    assert_eq!(row.patch_ids.len(), 1);
    assert_eq!(row.patch_ids[0].len(), 64);
    assert_eq!(row.ref_patch_ids[0], "First patch");
    assert_eq!(row.target_path[0], FILE_PATH);
    assert!(row.modified[0]);

    assert_eq!(td.patch_store.len(), 1);
    assert_eq!(td.patch_store[0].ref_patch, "First patch");
    assert_eq!(td.patch_store[0].target_path, FILE_PATH);

    let baseline = load_artifact_content(&td, &row.patch_ids[0]).unwrap();
    assert_eq!(baseline, b"hello".to_vec());

    let reverse_name = format!("{}-reverse", row.patch_ids[0]);
    let sentinel = td.artifacts.read(&reverse_name).unwrap();
    assert_eq!(sentinel, &vec![58u8, 51u8]);
}

#[test]
fn second_snapshot_references_the_baseline() {
    let mut td = empty_time_dir();
    let row1 = run_builder(&mut td, &tree_of(b"hello"), one_change(true, true), STAMP_1, true);
    let row2 = run_builder(
        &mut td,
        &tree_of(b"hello world"),
        one_change(true, true),
        STAMP_2,
        false,
    );

    let baseline_id = derive_patch_id(
        &literal_string(STAMP_1),
        &literal_string(FILE_PATH),
    );
    assert_eq!(row1.patch_ids[0], baseline_id);
    assert_eq!(row2.ref_patch_ids[0], baseline_id);
    assert_eq!(td.patch_store.len(), 2);
    assert_eq!(td.patch_store[1].ref_patch, baseline_id);

    // the reverse patch is a real compressed delta that undoes the edit
    let reverse_name = format!("{}-reverse", row2.patch_ids[0]);
    let reverse_compressed = td.artifacts.read(&reverse_name).unwrap().clone();
    assert_ne!(reverse_compressed, vec![58u8, 51u8]);
    let reverse_delta = decompress_data(reverse_compressed).unwrap();
    let undone = apply_delta(&b"hello world".to_vec(), &reverse_delta).unwrap();
    assert_eq!(undone, b"hello".to_vec());
}

#[test]
fn deletion_becomes_a_removed_slot() {
    let mut td = empty_time_dir();
    let _row1 = run_builder(&mut td, &tree_of(b"hello"), one_change(true, true), STAMP_1, true);
    let empty_tree = FileTree { entries: Vec::new() };
    let row = run_builder(&mut td, &empty_tree, one_change(false, true), STAMP_3, false);
    assert_eq!(row.patch_ids[0], "REMOVED");
    assert_eq!(row.ref_patch_ids[0], "NONE");
    assert!(row.modified[0]);
}

#[test]
fn restore_reaches_each_snapshot_in_one_step() {
    let mut td = empty_time_dir();
    let row1 = run_builder(&mut td, &tree_of(b"hello"), one_change(true, true), STAMP_1, true);
    let row2 = run_builder(
        &mut td,
        &tree_of(b"hello world"),
        one_change(true, true),
        STAMP_2,
        false,
    );
    let empty_tree = FileTree { entries: Vec::new() };
    let _row3 = run_builder(&mut td, &empty_tree, one_change(false, true), STAMP_3, false);

    let mode = literal_string("fastest");
    let path = literal_string(FILE_PATH);

    // from the deleted state, back to the second snapshot
    let t2 = restore_snapshot(&row2, &td, &empty_tree, true, &mode).unwrap();
    match t2.lookup(&path) {
        Some(FsNode::File(c)) => assert_eq!(c, &b"hello world".to_vec()),
        other => panic!("expected the file, got {:?}", other),
    }

    // from there, further back to the first snapshot
    let t1 = restore_snapshot(&row1, &td, &t2, true, &mode).unwrap();
    match t1.lookup(&path) {
        Some(FsNode::File(c)) => assert_eq!(c, &b"hello".to_vec()),
        other => panic!("expected the file, got {:?}", other),
    }

    // and forward again to the second
    let t2b = restore_snapshot(&row2, &td, &t1, false, &mode).unwrap();
    match t2b.lookup(&path) {
        Some(FsNode::File(c)) => assert_eq!(c, &b"hello world".to_vec()),
        other => panic!("expected the file, got {:?}", other),
    }
}

#[test]
fn removed_slot_forward_drops_the_path() {
    let mut td = empty_time_dir();
    let _row1 = run_builder(&mut td, &tree_of(b"hello"), one_change(true, true), STAMP_1, true);
    let empty_tree = FileTree { entries: Vec::new() };
    let row3 = run_builder(&mut td, &empty_tree, one_change(false, true), STAMP_3, false);

    let mode = literal_string("fastest");
    let t = restore_snapshot(&row3, &td, &tree_of(b"hello"), false, &mode).unwrap();
    assert!(t.lookup(&literal_string(FILE_PATH)).is_none());
}

#[test]
fn unmodified_fingerprint_keeps_the_file() {
    let td = empty_time_dir();
    let content = b"steady".to_vec();
    let fingerprint = xxh3_64_bytes(&content);
    let row = SnapshotEntries {
        date_created: literal_string(STAMP_1),
        patch_ids: vec![format!("{}", fingerprint)],
        target_path: vec![literal_string(FILE_PATH)],
        ref_patch_ids: vec![literal_string("UNMODIFIED")],
        modified: vec![false],
    };
    let mode = literal_string("fastest");
    let t = restore_snapshot(&row, &td, &tree_of(b"steady"), true, &mode).unwrap();
    match t.lookup(&literal_string(FILE_PATH)) {
        Some(FsNode::File(c)) => assert_eq!(c, &content),
        other => panic!("expected the file, got {:?}", other),
    }
}

#[test]
fn restore_creates_ancestor_directories() {
    let mut td = empty_time_dir();
    let nested = FileTree {
        entries: vec![TreeEntry {
            path: literal_string("/r/sub/dir/x.txt"),
            node: FsNode::File(b"x".to_vec()),
        }],
    };
    let changes = vec![ModifiedList {
        path: literal_string("/r/sub/dir/x.txt"),
        exists: true,
        modified: true,
    }];
    let row = run_builder(&mut td, &nested, changes, STAMP_1, true);
    let mode = literal_string("fastest");
    let empty_tree = FileTree { entries: Vec::new() };
    let t = restore_snapshot(&row, &td, &empty_tree, true, &mode).unwrap();
    assert!(matches!(t.lookup(&literal_string("/r/sub")), Some(FsNode::Dir)));
    assert!(matches!(t.lookup(&literal_string("/r/sub/dir")), Some(FsNode::Dir)));
    assert!(matches!(
        t.lookup(&literal_string("/r/sub/dir/x.txt")),
        Some(FsNode::File(_))
    ));
}

#[test]
fn restore_until_matches_by_instant() {
    let mut td = empty_time_dir();
    let row1 = run_builder(&mut td, &tree_of(b"hello"), one_change(true, true), STAMP_1, true);
    let row2 = run_builder(
        &mut td,
        &tree_of(b"hello world"),
        one_change(true, true),
        STAMP_2,
        false,
    );
    let store = vec![row1, row2];
    let mode = literal_string("fastest");
    let empty_tree = FileTree { entries: Vec::new() };
    let t = restore_snapshot_until(
        &store,
        &literal_string(STAMP_2),
        empty_tree,
        &td,
        true,
        &mode,
    )
    .unwrap();
    match t.lookup(&literal_string(FILE_PATH)) {
        Some(FsNode::File(c)) => assert_eq!(c, &b"hello world".to_vec()),
        other => panic!("expected the file, got {:?}", other),
    }
}

#[test]
fn only_the_fastest_mode_is_supported() {
    let mut td = empty_time_dir();
    let tree = tree_of(b"hello");
    let mut patch_ids: Vec<String> = Vec::new();
    let mut ref_patch_ids: Vec<String> = Vec::new();
    let mut target_paths: Vec<String> = Vec::new();
    let mut modified: Vec<bool> = Vec::new();
    let r = create_diffs_multithread(
        &mut patch_ids,
        &mut ref_patch_ids,
        &mut target_paths,
        &mut modified,
        one_change(true, true),
        1,
        1,
        5,
        &mut td,
        &tree,
        &literal_string(STAMP_1),
        false,
        true,
        &literal_string("smallest"),
    );
    assert_eq!(r, Err(EngineError::UnsupportedMode));
}

#[test]
fn selection_and_direction() {
    let mut td = empty_time_dir();
    let row1 = run_builder(&mut td, &tree_of(b"hello"), one_change(true, true), STAMP_1, true);
    let row2 = run_builder(
        &mut td,
        &tree_of(b"hello world"),
        one_change(true, true),
        STAMP_2,
        false,
    );
    let store = vec![row1, row2];

    // index one is the most recent snapshot
    assert_eq!(select_restore_target(&store, 1).unwrap(), STAMP_2);
    assert_eq!(select_restore_target(&store, 2).unwrap(), STAMP_1);
    assert_eq!(
        select_restore_target(&store, 0),
        Err(EngineError::InvalidSelection)
    );
    assert_eq!(
        select_restore_target(&store, 3),
        Err(EngineError::InvalidSelection)
    );

    let s1 = literal_string(STAMP_1);
    let s2 = literal_string(STAMP_2);
    assert_eq!(restore_direction(None, &s1).unwrap(), Some(true));
    assert_eq!(restore_direction(Some(&s2), &s1).unwrap(), Some(true));
    assert_eq!(restore_direction(Some(&s1), &s2).unwrap(), Some(false));
    assert_eq!(restore_direction(Some(&s1), &s1).unwrap(), None);

    let label = snapshot_label(&store[0]).unwrap();
    assert_eq!(label, "2024-11-07 13:05:00 +0000 files changed: 1");
}

#[test]
fn metadata_update_follows_the_change_list() {
    let mut holder = vec![MetaFile {
        date_modified: 100,
        hash: literal_string(""),
        size: 5,
        path: literal_string(FILE_PATH),
    }];
    let current = vec![MetaFile {
        date_modified: 200,
        hash: literal_string(""),
        size: 11,
        path: literal_string(FILE_PATH),
    }];
    let changes = one_change(true, true);
    update_metadata(&mut holder, &changes, &current).unwrap();
    assert_eq!(holder.len(), 1);
    assert_eq!(holder[0].date_modified, 200);
    assert_eq!(holder[0].size, 11);

    let removal = one_change(false, true);
    let empty_current: Vec<MetaFile> = Vec::new();
    update_metadata(&mut holder, &removal, &empty_current).unwrap();
    assert!(holder.is_empty());
}

#[test]
fn restore_and_diff_cuts_a_patch_against_the_baseline() {
    let mut td = empty_time_dir();
    let _row1 = run_builder(&mut td, &tree_of(b"hello"), one_change(true, true), STAMP_1, true);
    let new_content = b"hello again".to_vec();
    let id = file_time_machine::restore::restore_and_diff(
        &literal_string(FILE_PATH),
        &new_content,
        &literal_string(STAMP_2),
        5,
        &mut td,
        true,
        &literal_string("fastest"),
    )
    .unwrap();
    assert_eq!(id.len(), 64);
    assert_eq!(td.patch_store.len(), 2);
    let baseline_id = derive_patch_id(&literal_string(STAMP_1), &literal_string(FILE_PATH));
    assert_eq!(td.patch_store[1].ref_patch, baseline_id);

    // the forward patch applied to the baseline content yields the new content
    let forward = decompress_data(td.artifacts.read(&id).unwrap().clone()).unwrap();
    let rebuilt = apply_delta(&b"hello".to_vec(), &forward).unwrap();
    assert_eq!(rebuilt, new_content);
}

#[test]
fn check_and_create_builds_parents_and_an_empty_file() {
    let mut tree = FileTree { entries: Vec::new() };
    let path = literal_string("/r/sub/dir/new.txt");
    file_time_machine::restore::check_and_create(&mut tree, &path);
    assert!(matches!(tree.lookup(&literal_string("/r/sub")), Some(FsNode::Dir)));
    assert!(matches!(tree.lookup(&literal_string("/r/sub/dir")), Some(FsNode::Dir)));
    match tree.lookup(&path) {
        Some(FsNode::File(c)) => assert!(c.is_empty()),
        other => panic!("expected an empty file, got {:?}", other),
    }
    // a present path is left untouched
    let mut existing = tree_of(b"keep me");
    file_time_machine::restore::check_and_create(&mut existing, &literal_string(FILE_PATH));
    match existing.lookup(&literal_string(FILE_PATH)) {
        Some(FsNode::File(c)) => assert_eq!(c, &b"keep me".to_vec()),
        other => panic!("expected the file, got {:?}", other),
    }
}

#[test]
fn restore_until_rejects_an_unknown_selection() {
    let mut td = empty_time_dir();
    let row1 = run_builder(&mut td, &tree_of(b"hello"), one_change(true, true), STAMP_1, true);
    let store = vec![row1];
    let mode = literal_string("fastest");
    let empty_tree = FileTree { entries: Vec::new() };
    let r = restore_snapshot_until(
        &store,
        &literal_string(STAMP_3),
        empty_tree,
        &td,
        true,
        &mode,
    );
    assert!(matches!(r, Err(EngineError::InvalidSelection)));

    let empty_tree = FileTree { entries: Vec::new() };
    let r = restore_snapshot_until(
        &store,
        &literal_string("not a timestamp"),
        empty_tree,
        &td,
        true,
        &mode,
    );
    assert!(matches!(r, Err(EngineError::InvalidSelection)));
}

#[test]
fn builder_touches_no_artifacts_beyond_its_patch_pairs() {
    let mut td = empty_time_dir();
    let _row1 = run_builder(&mut td, &tree_of(b"hello"), one_change(true, true), STAMP_1, true);
    let names_before: Vec<String> =
        td.artifacts.items.iter().map(|a| a.name.clone()).collect();

    // a run over a removed path and an unmodified directory writes nothing
    let empty_tree = FileTree {
        entries: vec![TreeEntry { path: literal_string("/r/d"), node: FsNode::Dir }],
    };
    let changes = vec![
        ModifiedList { path: literal_string(FILE_PATH), exists: false, modified: true },
        ModifiedList { path: literal_string("/r/d"), exists: true, modified: false },
    ];
    let row = run_builder(&mut td, &empty_tree, changes, STAMP_2, false);
    assert_eq!(row.patch_ids[0], "REMOVED");
    assert_eq!(row.patch_ids[1], "UNMODIFIED_DIRECTORY");
    let names_after: Vec<String> = td.artifacts.items.iter().map(|a| a.name.clone()).collect();
    assert_eq!(names_before, names_after);
}

#[test]
fn forward_patch_takes_the_baseline_to_the_new_content() {
    let mut td = empty_time_dir();
    let _row1 = run_builder(&mut td, &tree_of(b"hello"), one_change(true, true), STAMP_1, true);
    let row2 = run_builder(
        &mut td,
        &tree_of(b"hello world"),
        one_change(true, true),
        STAMP_2,
        false,
    );
    let forward = decompress_data(td.artifacts.read(&row2.patch_ids[0]).unwrap().clone()).unwrap();
    let rebuilt = apply_delta(&b"hello".to_vec(), &forward).unwrap();
    assert_eq!(rebuilt, b"hello world".to_vec());
}
