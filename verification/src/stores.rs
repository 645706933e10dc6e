//! The engine's data model: metadata index rows, change entries, patch
//! records, snapshot manifest rows, and the in-memory images of the tracked
//! tree and of the sidecar artifact store.
//!
//! The engine computes on these values; the surrounding program loads them
//! from and persists them to the sidecar directory.

use vstd::prelude::*;

verus! {

/// One row of the patch store: a patch record.  `ref_patch` is either the
/// literal `"First patch"` (the record is a baseline, reconstructing the
/// file from the empty buffer) or the hex identifier of the baseline record
/// it was computed against.
#[derive(Debug)]
pub struct DiffEntry {
    pub date_created: String,
    pub target_path: String,
    pub ref_patch: String,
}

impl Clone for DiffEntry {
    /// A clone is the same record.
    fn clone(&self) -> (r: Self)
        ensures
            r == *self,
    {
        DiffEntry {
            date_created: self.date_created.clone(),
            target_path: self.target_path.clone(),
            ref_patch: self.ref_patch.clone(),
        }
    }
}

/// One change-detection result: a tracked path, whether it still exists,
/// and whether its content or structure changed since the last snapshot.
#[derive(Debug)]
pub struct ModifiedList {
    pub path: String,
    pub exists: bool,
    pub modified: bool,
}

impl Clone for ModifiedList {
    /// A clone is the same entry.
    fn clone(&self) -> (r: Self)
        ensures
            r == *self,
    {
        ModifiedList { path: self.path.clone(), exists: self.exists, modified: self.modified }
    }
}

/// One row of the metadata index: the stat data (and optional strong hash)
/// a path had at the end of the last successful snapshot.
#[derive(Debug)]
pub struct MetaFile {
    pub date_modified: u64,
    pub hash: String,
    pub size: u64,
    pub path: String,
}

impl Clone for MetaFile {
    /// A clone is the same row.
    fn clone(&self) -> (r: Self)
        ensures
            r == *self,
    {
        MetaFile {
            date_modified: self.date_modified,
            hash: self.hash.clone(),
            size: self.size,
            path: self.path.clone(),
        }
    }
}

/// The mathematical value of a metadata row.
pub struct MetaView {
    pub date_modified: u64,
    pub hash: Seq<char>,
    pub size: u64,
    pub path: Seq<char>,
}

/// The mathematical value of a `MetaFile`.
pub open spec fn meta_view(m: MetaFile) -> MetaView {
    MetaView { date_modified: m.date_modified, hash: m.hash@, size: m.size, path: m.path@ }
}

/// The mathematical value of a change entry.
pub struct ModView {
    pub path: Seq<char>,
    pub exists: bool,
    pub modified: bool,
}

/// The mathematical value of a `ModifiedList` entry.
pub open spec fn mod_view(m: ModifiedList) -> ModView {
    ModView { path: m.path@, exists: m.exists, modified: m.modified }
}

/// The first metadata row carrying a path, scanning forward.
pub open spec fn find_meta(s: Seq<MetaFile>, p: Seq<char>) -> Option<MetaFile>
    decreases s.len(),
{
    if s.len() == 0 {
        None
    } else if s[0].path@ == p {
        Some(s[0])
    } else {
        find_meta(s.drop_first(), p)
    }
}

/// Whether some row carries the path.
pub open spec fn has_meta(s: Seq<MetaFile>, p: Seq<char>) -> bool {
    exists|i: int| 0 <= i < s.len() && (#[trigger] s[i]).path@ == p
}

/// Whether the rows carry pairwise distinct paths.
pub open spec fn unique_meta_paths(s: Seq<MetaFile>) -> bool {
    forall|i: int, j: int|
        0 <= i < j < s.len() ==> (#[trigger] s[i]).path@ != (#[trigger] s[j]).path@
}

/// Whether the change entries carry pairwise distinct paths.
pub open spec fn unique_mod_paths(s: Seq<ModifiedList>) -> bool {
    forall|i: int, j: int|
        0 <= i < j < s.len() ==> (#[trigger] s[i]).path@ != (#[trigger] s[j]).path@
}

/// `find_meta` returns the row at any index whose path occurs nowhere
/// earlier.
pub proof fn lemma_find_meta_at(s: Seq<MetaFile>, i: int)
    requires
        0 <= i < s.len(),
        forall|k: int| 0 <= k < i ==> (#[trigger] s[k]).path@ != s[i].path@,
    ensures
        find_meta(s, s[i].path@) == Some(s[i]),
    decreases s.len(),
{
    if i > 0 {
        assert(s[0].path@ != s[i].path@);
        assert(s.drop_first()[i - 1] == s[i]);
        assert forall|k: int| 0 <= k < i - 1 implies (#[trigger] s.drop_first()[k]).path@ != s
            .drop_first()[i - 1].path@ by {
            assert(s.drop_first()[k] == s[k + 1]);
        }
        lemma_find_meta_at(s.drop_first(), i - 1);
    }
}

/// A path carried by no row is not found.
pub proof fn lemma_find_meta_absent(s: Seq<MetaFile>, p: Seq<char>)
    requires
        forall|i: int| 0 <= i < s.len() ==> (#[trigger] s[i]).path@ != p,
    ensures
        find_meta(s, p) is None,
    decreases s.len(),
{
    if s.len() > 0 {
        assert forall|i: int| 0 <= i < s.drop_first().len() implies (
        #[trigger] s.drop_first()[i]).path@ != p by {
            assert(s.drop_first()[i] == s[i + 1]);
        }
        lemma_find_meta_absent(s.drop_first(), p);
    }
}

/// A found path is carried by some row, which the lookup returns.
pub proof fn lemma_find_meta_some(s: Seq<MetaFile>, p: Seq<char>)
    requires
        find_meta(s, p) is Some,
    ensures
        has_meta(s, p),
        find_meta(s, p)->Some_0.path@ == p,
    decreases s.len(),
{
    if s.len() > 0 {
        if s[0].path@ == p {
        } else {
            lemma_find_meta_some(s.drop_first(), p);
            let i = choose|i: int|
                0 <= i < s.drop_first().len() && (#[trigger] s.drop_first()[i]).path@ == p;
            assert(s[i + 1] == s.drop_first()[i]);
        }
    }
}

/// The first change entry carrying a path, scanning forward.
pub open spec fn find_mod(s: Seq<ModifiedList>, p: Seq<char>) -> Option<ModifiedList>
    decreases s.len(),
{
    if s.len() == 0 {
        None
    } else if s[0].path@ == p {
        Some(s[0])
    } else {
        find_mod(s.drop_first(), p)
    }
}

/// `find_mod` returns the entry at any index whose path occurs nowhere
/// earlier.
pub proof fn lemma_find_mod_at(s: Seq<ModifiedList>, i: int)
    requires
        0 <= i < s.len(),
        forall|k: int| 0 <= k < i ==> (#[trigger] s[k]).path@ != s[i].path@,
    ensures
        find_mod(s, s[i].path@) == Some(s[i]),
    decreases s.len(),
{
    if i > 0 {
        assert(s[0].path@ != s[i].path@);
        assert(s.drop_first()[i - 1] == s[i]);
        assert forall|k: int| 0 <= k < i - 1 implies (#[trigger] s.drop_first()[k]).path@ != s
            .drop_first()[i - 1].path@ by {
            assert(s.drop_first()[k] == s[k + 1]);
        }
        lemma_find_mod_at(s.drop_first(), i - 1);
    }
}

/// A path carried by no change entry is not found.
pub proof fn lemma_find_mod_absent(s: Seq<ModifiedList>, p: Seq<char>)
    requires
        forall|i: int| 0 <= i < s.len() ==> (#[trigger] s[i]).path@ != p,
    ensures
        find_mod(s, p) is None,
    decreases s.len(),
{
    if s.len() > 0 {
        assert forall|i: int| 0 <= i < s.drop_first().len() implies (
        #[trigger] s.drop_first()[i]).path@ != p by {
            assert(s.drop_first()[i] == s[i + 1]);
        }
        lemma_find_mod_absent(s.drop_first(), p);
    }
}

/// A found path is carried by some change entry, which the lookup returns.
pub proof fn lemma_find_mod_some(s: Seq<ModifiedList>, p: Seq<char>)
    requires
        find_mod(s, p) is Some,
    ensures
        exists|i: int| 0 <= i < s.len() && (#[trigger] s[i]).path@ == p,
        find_mod(s, p)->Some_0.path@ == p,
    decreases s.len(),
{
    if s.len() > 0 {
        if s[0].path@ == p {
        } else {
            lemma_find_mod_some(s.drop_first(), p);
            let i = choose|i: int|
                0 <= i < s.drop_first().len() && (#[trigger] s.drop_first()[i]).path@ == p;
            assert(s[i + 1] == s.drop_first()[i]);
        }
    }
}

/// One snapshot manifest row.  The four arrays are parallel; index `i`
/// describes the fate of `target_path[i]` in this snapshot.
#[derive(Debug, Clone)]
pub struct SnapshotEntries {
    pub date_created: String,
    pub patch_ids: Vec<String>,
    pub target_path: Vec<String>,
    pub ref_patch_ids: Vec<String>,
    pub modified: Vec<bool>,
}

impl SnapshotEntries {
    /// The four arrays describe one slot per index only when their lengths
    /// agree.
    pub open spec fn wf(&self) -> bool {
        &&& self.patch_ids@.len() == self.target_path@.len()
        &&& self.ref_patch_ids@.len() == self.target_path@.len()
        &&& self.modified@.len() == self.target_path@.len()
    }
}

/// A node of the tracked tree: a regular file with its content, or a
/// directory.
#[derive(Debug, Clone)]
pub enum FsNode {
    File(Vec<u8>),
    Dir,
}

/// The mathematical value of a tree node.
pub enum NodeView {
    File(Seq<u8>),
    Dir,
}

/// The mathematical value of an `FsNode`.
pub open spec fn node_view(n: FsNode) -> NodeView {
    match n {
        FsNode::File(c) => NodeView::File(c@),
        FsNode::Dir => NodeView::Dir,
    }
}

/// One entry of the in-memory tree image.
#[derive(Debug, Clone)]
pub struct TreeEntry {
    pub path: String,
    pub node: FsNode,
}

/// The node stored for a path, scanning from the end (a later entry for the
/// same path shadows an earlier one; with unique paths there is only one).
pub open spec fn tree_find(s: Seq<TreeEntry>, p: Seq<char>) -> Option<NodeView>
    decreases s.len(),
{
    if s.len() == 0 {
        None
    } else if s.last().path@ == p {
        Some(node_view(s.last().node))
    } else {
        tree_find(s.drop_last(), p)
    }
}

/// Whether the entries carry pairwise distinct paths.
pub open spec fn unique_tree_paths(s: Seq<TreeEntry>) -> bool {
    forall|i: int, j: int|
        0 <= i < j < s.len() ==> (#[trigger] s[i]).path@ != (#[trigger] s[j]).path@
}

/// With unique paths, `tree_find` returns the node of the one entry that
/// carries the path.
pub proof fn lemma_tree_find_at(s: Seq<TreeEntry>, i: int)
    requires
        unique_tree_paths(s),
        0 <= i < s.len(),
    ensures
        tree_find(s, s[i].path@) == Some(node_view(s[i].node)),
    decreases s.len(),
{
    if i == s.len() - 1 {
    } else {
        assert(s[i].path@ != s.last().path@);
        assert(s.drop_last()[i] == s[i]);
        lemma_tree_find_at(s.drop_last(), i);
    }
}

/// A path carried by no entry is not found.
pub proof fn lemma_tree_find_absent(s: Seq<TreeEntry>, p: Seq<char>)
    requires
        forall|i: int| 0 <= i < s.len() ==> (#[trigger] s[i]).path@ != p,
    ensures
        tree_find(s, p) is None,
    decreases s.len(),
{
    if s.len() > 0 {
        lemma_tree_find_absent(s.drop_last(), p);
    }
}

/// The in-memory image of the tracked tree, keyed by full path.
#[derive(Debug, Clone)]
pub struct FileTree {
    pub entries: Vec<TreeEntry>,
}

impl FileTree {
    /// Each path appears at most once.
    pub open spec fn wf(&self) -> bool {
        unique_tree_paths(self.entries@)
    }

    /// The node stored for a path.
    pub open spec fn find(&self, p: Seq<char>) -> Option<NodeView> {
        tree_find(self.entries@, p)
    }

    /// An empty tree.
    pub fn new() -> (r: FileTree)
        ensures
            r.wf(),
            forall|p: Seq<char>| r.find(p) is None,
    {
        FileTree { entries: Vec::new() }
    }

    /// Looks a path up.
    pub fn lookup(&self, path: &String) -> (r: Option<&FsNode>)
        requires
            self.wf(),
        ensures
            r matches Some(n) ==> self.find(path@) == Some(node_view(*n)),
            r is None ==> self.find(path@) is None,
    {
        let n = self.entries.len();
        let mut i: usize = 0;
        while i < n
            invariant
                self.wf(),
                n == self.entries@.len(),
                0 <= i <= n,
                forall|k: int| 0 <= k < i ==> (#[trigger] self.entries@[k]).path@ != path@,
            decreases n - i,
        {
            if self.entries[i].path == *path {
                proof {
                    lemma_tree_find_at(self.entries@, i as int);
                }
                return Some(&self.entries[i].node);
            }
            i = i + 1;
        }
        proof {
            lemma_tree_find_absent(self.entries@, path@);
        }
        None
    }

    /// Stores a node for a path, replacing any node the path had.
    pub fn set_node(&mut self, path: &String, node: FsNode)
        requires
            old(self).wf(),
        ensures
            final(self).wf(),
            final(self).find(path@) == Some(node_view(node)),
            forall|p: Seq<char>|
                p != path@ ==> tree_find(final(self).entries@, p) == tree_find(
                    old(self).entries@,
                    p,
                ),
    {
        let ghost orig = self.entries@;
        proof {
            assert(orig == old(self).entries@);
        }
        let n = self.entries.len();
        let mut i: usize = 0;
        while i < n
            invariant
                unique_tree_paths(orig),
                self.entries@ == orig,
                orig == old(self).entries@,
                n == orig.len(),
                0 <= i <= n,
                forall|k: int| 0 <= k < i ==> (#[trigger] orig[k]).path@ != path@,
            decreases n - i,
        {
            if self.entries[i].path == *path {
                let entry = TreeEntry { path: path.clone(), node };
                self.entries.set(i, entry);
                proof {
                    let s = self.entries@;
                    assert forall|a: int, b: int| 0 <= a < b < s.len() implies (
                    #[trigger] s[a]).path@ != (#[trigger] s[b]).path@ by {
                        assert(orig[a].path@ == s[a].path@ || a == i);
                        assert(orig[b].path@ == s[b].path@ || b == i);
                    }
                    assert(s[i as int].path@ == path@);
                    lemma_tree_find_at(s, i as int);
                    assert(tree_find(s, path@) == Some(node_view(node)));
                    assert forall|p: Seq<char>| p != path@ implies tree_find(self.entries@, p)
                        == tree_find(orig, p) by {
                        lemma_tree_find_frame(orig, self.entries@, p);
                    }
                }
                return ;
            }
            i = i + 1;
        }
        let entry = TreeEntry { path: path.clone(), node };
        self.entries.push(entry);
        proof {
            let s = self.entries@;
            assert(s.drop_last() =~= orig);
            assert(s.last().path@ == path@);
            assert(tree_find(s, path@) == Some(node_view(s.last().node)));
            assert(node_view(s.last().node) == node_view(node));
            assert forall|p: Seq<char>| p != path@ implies tree_find(s, p) == tree_find(
                orig,
                p,
            ) by {
                assert(s.drop_last() == orig);
            }
            assert forall|a: int, b: int| 0 <= a < b < s.len() implies (#[trigger] s[a]).path@
                != (#[trigger] s[b]).path@ by {
                if b == s.len() - 1 {
                    assert(orig[a].path@ != path@);
                    assert(s[a] == orig[a]);
                }
            }
        }
    }
}

/// Two entry sequences of the same length that agree everywhere except at
/// positions carrying path `q != p` find `p` alike.
proof fn lemma_tree_find_frame(s1: Seq<TreeEntry>, s2: Seq<TreeEntry>, p: Seq<char>)
    requires
        s1.len() == s2.len(),
        forall|i: int|
            0 <= i < s1.len() ==> ((#[trigger] s1[i]) == s2[i] || (s1[i].path@ != p
                && (#[trigger] s2[i]).path@ != p)),
    ensures
        tree_find(s1, p) == tree_find(s2, p),
    decreases s1.len(),
{
    if s1.len() > 0 {
        assert(s1[s1.len() - 1] == s2[s1.len() - 1] || (s1[s1.len() - 1].path@ != p && s2[s1.len()
            - 1].path@ != p));
        assert forall|i: int|
            0 <= i < s1.drop_last().len() implies ((#[trigger] s1.drop_last()[i])
            == s2.drop_last()[i] || (s1.drop_last()[i].path@ != p
            && (#[trigger] s2.drop_last()[i]).path@ != p)) by {
            assert(s1.drop_last()[i] == s1[i]);
            assert(s2.drop_last()[i] == s2[i]);
        }
        lemma_tree_find_frame(s1.drop_last(), s2.drop_last(), p);
    }
}

/// One stored patch artifact: the bytes kept under a name in the sidecar.
#[derive(Debug, Clone)]
pub struct Artifact {
    pub name: String,
    pub data: Vec<u8>,
}

/// The bytes stored under a name, scanning from the end.
pub open spec fn art_find(s: Seq<Artifact>, name: Seq<char>) -> Option<Seq<u8>>
    decreases s.len(),
{
    if s.len() == 0 {
        None
    } else if s.last().name@ == name {
        Some(s.last().data@)
    } else {
        art_find(s.drop_last(), name)
    }
}

/// The in-memory image of the sidecar's artifact files, keyed by name.
#[derive(Debug, Clone)]
pub struct ArtifactStore {
    pub items: Vec<Artifact>,
}

impl ArtifactStore {
    /// The bytes stored under a name.
    pub open spec fn find(&self, name: Seq<char>) -> Option<Seq<u8>> {
        art_find(self.items@, name)
    }

    /// An empty store.
    pub fn new() -> (r: ArtifactStore)
        ensures
            forall|n: Seq<char>| r.find(n) is None,
    {
        ArtifactStore { items: Vec::new() }
    }

    /// Whether a name is taken.
    pub fn contains(&self, name: &String) -> (r: bool)
        ensures
            r == (self.find(name@) is Some),
    {
        let n = self.items.len();
        let mut i: usize = 0;
        while i < n
            invariant
                n == self.items@.len(),
                0 <= i <= n,
                forall|k: int| 0 <= k < i ==> (#[trigger] self.items@[k]).name@ != name@,
            decreases n - i,
        {
            if self.items[i].name == *name {
                proof {
                    lemma_art_find_present(self.items@, i as int);
                }
                return true;
            }
            i = i + 1;
        }
        proof {
            lemma_art_find_absent(self.items@, name@);
        }
        false
    }

    /// Reads the bytes stored under a name.
    pub fn read(&self, name: &String) -> (r: Option<&Vec<u8>>)
        ensures
            r matches Some(d) ==> self.find(name@) == Some(d@),
            r is None ==> self.find(name@) is None,
    {
        let n = self.items.len();
        let mut i: usize = n;
        proof {
            assert(self.items@.take(n as int) =~= self.items@);
        }
        while i > 0
            invariant
                n == self.items@.len(),
                0 <= i <= n,
                art_find(self.items@, name@) == art_find(self.items@.take(i as int), name@),
            decreases i,
        {
            i = i - 1;
            proof {
                assert(self.items@.take(i + 1).drop_last() =~= self.items@.take(i as int));
                assert(self.items@.take(i + 1).last() == self.items@[i as int]);
            }
            if self.items[i].name == *name {
                return Some(&self.items[i].data);
            }
        }
        proof {
            assert(self.items@.take(0) =~= Seq::<Artifact>::empty());
        }
        None
    }

    /// Stores bytes under a name (appending; a repeated name shadows the
    /// older entry).
    pub fn put(&mut self, name: &String, data: Vec<u8>)
        ensures
            final(self).find(name@) == Some(data@),
            forall|n: Seq<char>| n != name@ ==> final(self).find(n) == old(self).find(n),
    {
        let item = Artifact { name: name.clone(), data };
        self.items.push(item);
        proof {
            assert(self.items@.drop_last() =~= old(self).items@);
        }
    }
}

/// `art_find` at an entry whose name occurs nowhere later.
proof fn lemma_art_find_present(s: Seq<Artifact>, i: int)
    requires
        0 <= i < s.len(),
        forall|k: int| 0 <= k < i ==> (#[trigger] s[k]).name@ != s[i].name@,
    ensures
        art_find(s, s[i].name@) is Some,
    decreases s.len(),
{
    if i == s.len() - 1 {
    } else if s.last().name@ == s[i].name@ {
    } else {
        assert(s.drop_last()[i] == s[i]);
        lemma_art_find_present(s.drop_last(), i);
    }
}

/// A name carried by no artifact is not found.
proof fn lemma_art_find_absent(s: Seq<Artifact>, name: Seq<char>)
    requires
        forall|i: int| 0 <= i < s.len() ==> (#[trigger] s[i]).name@ != name,
    ensures
        art_find(s, name) is None,
    decreases s.len(),
{
    if s.len() > 0 {
        lemma_art_find_absent(s.drop_last(), name);
    }
}

/// The in-memory image of the sidecar: the patch store rows and the patch
/// artifacts.
#[derive(Debug, Clone)]
pub struct TimeDir {
    pub patch_store: Vec<DiffEntry>,
    pub artifacts: ArtifactStore,
}

/// What a slot's `ref_patch_ids` value stands for: the slot's own record is
/// a baseline, or it references a baseline record by identifier.
#[derive(Debug, Clone)]
pub enum SlotRef {
    Baseline,
    Reference(String),
}

/// The decoded meaning of one slot of a snapshot row.
#[derive(Debug, Clone)]
pub enum Slot {
    /// A newly produced forward patch, identified by a strong digest.
    NewPatch { id: String, reference: SlotRef },
    /// A directory created or present this snapshot.
    Dir,
    /// A directory unchanged since the previous snapshot.
    UnmodifiedDir,
    /// A file unchanged since the previous snapshot, fingerprinted by its
    /// fast digest.
    UnmodifiedFile { fingerprint: u64 },
    /// A path that existed before and is gone this snapshot.
    Removed,
}

/// The mathematical value of a slot reference.
pub enum SlotRefView {
    Baseline,
    Reference(Seq<char>),
}

/// The mathematical value of a slot.
pub enum SlotView {
    NewPatch { id: Seq<char>, reference: SlotRefView },
    Dir,
    UnmodifiedDir,
    UnmodifiedFile { fingerprint: u64 },
    Removed,
}

/// The mathematical value of a `Slot`.
pub open spec fn slot_view(s: Slot) -> SlotView {
    match s {
        Slot::NewPatch { id, reference } => SlotView::NewPatch {
            id: id@,
            reference: match reference {
                SlotRef::Baseline => SlotRefView::Baseline,
                SlotRef::Reference(r) => SlotRefView::Reference(r@),
            },
        },
        Slot::Dir => SlotView::Dir,
        Slot::UnmodifiedDir => SlotView::UnmodifiedDir,
        Slot::UnmodifiedFile { fingerprint } => SlotView::UnmodifiedFile { fingerprint },
        Slot::Removed => SlotView::Removed,
    }
}

/// The `patch_ids` text under which a slot is persisted.
pub open spec fn slot_patch_text(v: SlotView) -> Seq<char> {
    match v {
        SlotView::NewPatch { id, .. } => id,
        SlotView::Dir => "DIR"@,
        SlotView::UnmodifiedDir => "UNMODIFIED_DIRECTORY"@,
        SlotView::UnmodifiedFile { fingerprint } => crate::text::dec_of(fingerprint as nat),
        SlotView::Removed => "REMOVED"@,
    }
}

/// The `ref_patch_ids` text under which a slot is persisted.
pub open spec fn slot_ref_text(v: SlotView) -> Seq<char> {
    match v {
        SlotView::NewPatch { reference: SlotRefView::Baseline, .. } => "First patch"@,
        SlotView::NewPatch { reference: SlotRefView::Reference(r), .. } => r,
        SlotView::Dir => "DIR"@,
        SlotView::UnmodifiedDir => "UNMODIFIED"@,
        SlotView::UnmodifiedFile { .. } => "UNMODIFIED"@,
        SlotView::Removed => "NONE"@,
    }
}

/// The `modified` flag under which a slot is persisted.
pub open spec fn slot_modified(v: SlotView) -> bool {
    match v {
        SlotView::UnmodifiedDir => false,
        SlotView::UnmodifiedFile { .. } => false,
        _ => true,
    }
}

/// A slot the engine itself would persist: a patch identifier is 64
/// characters, and a reference identifier never spells the baseline label.
pub open spec fn wf_slot(v: SlotView) -> bool {
    match v {
        SlotView::NewPatch { id, reference } => {
            &&& id.len() == 64
            &&& (reference matches SlotRefView::Reference(r) ==> r != "First patch"@)
        },
        _ => true,
    }
}

/// How a persisted `(patch_ids, ref_patch_ids)` pair decodes into a slot:
/// the fixed labels first, then a 64-character strong digest, then a decimal
/// fast-digest fingerprint; anything else is a corrupt row.
pub open spec fn parse_slot_spec(pid: Seq<char>, rid: Seq<char>) -> Result<
    SlotView,
    crate::EngineError,
> {
    if pid == "REMOVED"@ {
        Ok(SlotView::Removed)
    } else if pid == "DIR"@ {
        Ok(SlotView::Dir)
    } else if pid == "UNMODIFIED_DIRECTORY"@ {
        Ok(SlotView::UnmodifiedDir)
    } else if pid.len() == 64 {
        Ok(
            SlotView::NewPatch {
                id: pid,
                reference: if rid == "First patch"@ {
                    SlotRefView::Baseline
                } else {
                    SlotRefView::Reference(rid)
                },
            },
        )
    } else if crate::text::is_dec_string(pid) && crate::text::dec_val(pid) <= u64::MAX {
        Ok(SlotView::UnmodifiedFile { fingerprint: crate::text::dec_val(pid) as u64 })
    } else {
        Err(crate::EngineError::CorruptArtifact)
    }
}

/// Decodes one slot from its two persisted strings.
pub fn parse_slot(patch_id: &String, ref_id: &String) -> (r: Result<Slot, crate::EngineError>)
    ensures
        r matches Ok(s) ==> parse_slot_spec(patch_id@, ref_id@) == Ok::<
            SlotView,
            crate::EngineError,
        >(slot_view(s)),
        r matches Err(e) ==> parse_slot_spec(patch_id@, ref_id@) == Err::<
            SlotView,
            crate::EngineError,
        >(e),
{
    if crate::text::str_eq(patch_id.as_str(), "REMOVED") {
        return Ok(Slot::Removed);
    }
    if crate::text::str_eq(patch_id.as_str(), "DIR") {
        return Ok(Slot::Dir);
    }
    if crate::text::str_eq(patch_id.as_str(), "UNMODIFIED_DIRECTORY") {
        return Ok(Slot::UnmodifiedDir);
    }
    if patch_id.as_str().unicode_len() == 64 {
        let reference = if crate::text::str_eq(ref_id.as_str(), "First patch") {
            SlotRef::Baseline
        } else {
            SlotRef::Reference(ref_id.clone())
        };
        return Ok(Slot::NewPatch { id: patch_id.clone(), reference });
    }
    match crate::text::parse_decimal(patch_id) {
        Some(v) => Ok(Slot::UnmodifiedFile { fingerprint: v }),
        None => Err(crate::EngineError::CorruptArtifact),
    }
}

/// Encodes a slot into the three persisted values.
pub fn format_slot(s: &Slot) -> (r: (String, String, bool))
    ensures
        r.0@ == slot_patch_text(slot_view(*s)),
        r.1@ == slot_ref_text(slot_view(*s)),
        r.2 == slot_modified(slot_view(*s)),
{
    match s {
        Slot::NewPatch { id, reference } => {
            let rid = match reference {
                SlotRef::Baseline => crate::text::literal_string("First patch"),
                SlotRef::Reference(r) => r.clone(),
            };
            (id.clone(), rid, true)
        },
        Slot::Dir => (
            crate::text::literal_string("DIR"),
            crate::text::literal_string("DIR"),
            true,
        ),
        Slot::UnmodifiedDir => (
            crate::text::literal_string("UNMODIFIED_DIRECTORY"),
            crate::text::literal_string("UNMODIFIED"),
            false,
        ),
        Slot::UnmodifiedFile { fingerprint } => (
            crate::text::to_decimal(*fingerprint),
            crate::text::literal_string("UNMODIFIED"),
            false,
        ),
        Slot::Removed => (
            crate::text::literal_string("REMOVED"),
            crate::text::literal_string("NONE"),
            true,
        ),
    }
}

/// The two-byte in-band marker stored in place of a reverse patch when none
/// was produced: it directs restoration to recover from the baseline.
pub open spec fn reverse_sentinel() -> Seq<u8> {
    seq![58u8, 51u8]
}

/// The name under which a record's reverse artifact is stored.
pub open spec fn reverse_name_of(id: Seq<char>) -> Seq<char> {
    id + "-reverse"@
}

/// The delta a stored artifact decodes to, when the artifact exists and
/// decompresses.
pub open spec fn decoded_artifact(td: TimeDir, name: Seq<char>) -> Option<Seq<u8>> {
    match td.artifacts.find(name) {
        None => None,
        Some(a) => crate::compression::decompress_of(a),
    }
}

/// The file content a baseline-style forward artifact encodes: its decoded
/// delta applied to the empty buffer.
pub open spec fn artifact_content(td: TimeDir, name: Seq<char>) -> Option<Seq<u8>> {
    match decoded_artifact(td, name) {
        None => None,
        Some(d) => crate::compression::patched_of(Seq::empty(), d),
    }
}

/// Whether a record is the baseline record of a path.
pub open spec fn is_baseline_rec(e: DiffEntry, path: Seq<char>) -> bool {
    e.ref_patch@ == "First patch"@ && e.target_path@ == path
}

/// Whether a record is a non-baseline record of a path.
pub open spec fn is_follow_rec(e: DiffEntry, path: Seq<char>) -> bool {
    e.ref_patch@ != "First patch"@ && e.target_path@ == path
}

/// Whether some record of the store is a baseline for the path.
pub open spec fn has_baseline(s: Seq<DiffEntry>, path: Seq<char>) -> bool {
    exists|i: int| 0 <= i < s.len() && is_baseline_rec(#[trigger] s[i], path)
}

/// Whether some record of the store names the path at all.
pub open spec fn has_record(s: Seq<DiffEntry>, path: Seq<char>) -> bool {
    exists|i: int| 0 <= i < s.len() && (#[trigger] s[i]).target_path@ == path
}

/// The instant a record's creation timestamp denotes.
pub open spec fn rec_instant(e: DiffEntry) -> Option<int> {
    crate::clock::ts_instant_of(e.date_created@, crate::clock::full_format())
}

/// The identifier a record is stored under.
pub open spec fn rec_id(e: DiffEntry) -> Seq<char> {
    crate::hashing::patch_id_of(e.date_created@, e.target_path@)
}

/// The selection order on records: later creation instant wins, and among
/// equal instants the lexicographically larger identifier.  Meaningful for
/// records whose timestamps parse.
pub open spec fn rec_le(a: DiffEntry, b: DiffEntry) -> bool {
    ||| rec_instant(a)->Some_0 < rec_instant(b)->Some_0
    ||| (rec_instant(a)->Some_0 == rec_instant(b)->Some_0 && !crate::text::lex_less(
        rec_id(b),
        rec_id(a),
    ))
}

/// Whether index `j` holds a baseline record of `path` that the selection
/// order places above every other baseline record of `path`.
pub open spec fn is_best_baseline(s: Seq<DiffEntry>, path: Seq<char>, j: int) -> bool {
    &&& 0 <= j < s.len()
    &&& is_baseline_rec(s[j], path)
    &&& forall|k: int|
        0 <= k < s.len() && is_baseline_rec(#[trigger] s[k], path) ==> rec_le(s[k], s[j])
}

/// Locates the baseline record of a path in the patch store: the record
/// with `ref_patch = "First patch"` and the matching target path; if the
/// store holds several, the latest by creation instant, ties resolved
/// towards the lexicographically larger identifier.
pub fn select_baseline(patch_store: &Vec<DiffEntry>, target_path: &String) -> (r: Result<
    DiffEntry,
    crate::EngineError,
>)
    ensures
        r matches Ok(e) ==> is_baseline_rec(e, target_path@) && rec_instant(e) is Some && forall|
            i: int,
        |
            0 <= i < patch_store@.len() && is_baseline_rec(#[trigger] patch_store@[i], target_path@)
                ==> rec_instant(patch_store@[i]) is Some && rec_le(patch_store@[i], e),
        r matches Ok(e) ==> exists|j: int|
            0 <= j < patch_store@.len() && (#[trigger] patch_store@[j]) == e && is_best_baseline(
                patch_store@,
                target_path@,
                j,
            ),
        r is Err ==> r == Err::<DiffEntry, crate::EngineError>(
            crate::EngineError::MissingBaseline,
        ) || r == Err::<DiffEntry, crate::EngineError>(crate::EngineError::CorruptArtifact),
        r == Err::<DiffEntry, crate::EngineError>(crate::EngineError::MissingBaseline) <==> !has_baseline(
            patch_store@,
            target_path@,
        ),
        r == Err::<DiffEntry, crate::EngineError>(crate::EngineError::CorruptArtifact) <==> exists|
            i: int,
        |
            0 <= i < patch_store@.len() && is_baseline_rec(#[trigger] patch_store@[i], target_path@)
                && rec_instant(patch_store@[i]) is None,
{
    let n = patch_store.len();
    let mut best: Option<DiffEntry> = None;
    let mut best_instant: i64 = 0;
    let mut best_id: String = String::new();
    let mut i: usize = 0;
    while i < n
        invariant
            n == patch_store@.len(),
            0 <= i <= n,
            best is None ==> forall|k: int|
                0 <= k < i ==> !is_baseline_rec(#[trigger] patch_store@[k], target_path@),
            best matches Some(b) ==> is_baseline_rec(b, target_path@) && rec_instant(b) == Some(
                best_instant as int,
            ) && best_id@ == rec_id(b) && forall|k: int|
                0 <= k < i && is_baseline_rec(#[trigger] patch_store@[k], target_path@)
                    ==> rec_instant(patch_store@[k]) is Some && rec_le(patch_store@[k], b),
            best is Some ==> has_baseline(patch_store@, target_path@),
            best matches Some(b) ==> exists|w: int|
                0 <= w < n && (#[trigger] patch_store@[w]) == b,
        decreases n - i,
    {
        let e = &patch_store[i];
        if crate::text::str_eq(e.ref_patch.as_str(), "First patch") && e.target_path
            == *target_path {
            match crate::clock::parse_ts(e.date_created.as_str(), "%Y-%m-%d %H:%M:%S%.9f %z") {
                None => {
                    return Err(crate::EngineError::CorruptArtifact);
                },
                Some(instant) => {
                    let id = crate::hashing::derive_patch_id(&e.date_created, &e.target_path);
                    let take_it = match &best {
                        None => true,
                        Some(_) => instant > best_instant || (instant == best_instant
                            && crate::text::str_lex_less(best_id.as_str(), id.as_str())),
                    };
                    if take_it {
                        let ghost prev = best;
                        let ghost prev_instant = best_instant as int;
                        let ghost prev_id = best_id@;
                        best = Some(e.clone());
                        best_instant = instant;
                        best_id = id;
                        proof {
                            let b = best->Some_0;
                            assert(b.date_created@ == e.date_created@ && b.target_path@
                                == e.target_path@ && b.ref_patch@ == e.ref_patch@);
                            crate::text::lemma_lex_less_irrefl(rec_id(b));
                            if prev is Some {
                                let pb = prev->Some_0;
                                assert forall|k: int|
                                    0 <= k < i && is_baseline_rec(
                                        #[trigger] patch_store@[k],
                                        target_path@,
                                    ) implies rec_le(patch_store@[k], b) by {
                                    assert(rec_le(patch_store@[k], pb));
                                    if rec_instant(patch_store@[k])->Some_0 == prev_instant
                                        && instant as int == prev_instant {
                                        if crate::text::lex_less(rec_id(b), rec_id(
                                            patch_store@[k],
                                        )) {
                                            crate::text::lemma_lex_less_trans(
                                                prev_id,
                                                rec_id(b),
                                                rec_id(patch_store@[k]),
                                            );
                                        }
                                    }
                                }
                            }
                        }
                    }
                },
            }
        }
        i = i + 1;
    }
    match best {
        Some(b) => Ok(b),
        None => Err(crate::EngineError::MissingBaseline),
    }
}

/// A slot written by the engine decodes back to itself: the persisted form
/// loses nothing.
pub proof fn lemma_slot_round_trip(v: SlotView)
    requires
        wf_slot(v),
    ensures
        parse_slot_spec(slot_patch_text(v), slot_ref_text(v)) == Ok::<
            SlotView,
            crate::EngineError,
        >(v),
{
    reveal_strlit("REMOVED");
    reveal_strlit("DIR");
    reveal_strlit("UNMODIFIED_DIRECTORY");
    reveal_strlit("UNMODIFIED");
    reveal_strlit("NONE");
    reveal_strlit("First patch");
    match v {
        SlotView::UnmodifiedFile { fingerprint } => {
            let t = crate::text::dec_of(fingerprint as nat);
            crate::text::lemma_dec_of_canonical(fingerprint as nat);
            crate::text::lemma_dec_of_u64_len(fingerprint);
            assert(crate::text::is_dec_digit(t[0]));
            assert(t != "REMOVED"@ && t != "DIR"@ && t != "UNMODIFIED_DIRECTORY"@) by {
                if t == "REMOVED"@ {
                    assert(t[0] == 'R');
                }
                if t == "DIR"@ {
                    assert(t[0] == 'D');
                }
                if t == "UNMODIFIED_DIRECTORY"@ {
                    assert(t[0] == 'U');
                }
            }
            assert(t.len() <= 20);
            assert(parse_slot_spec(slot_patch_text(v), slot_ref_text(v)) == Ok::<
                SlotView,
                crate::EngineError,
            >(v));
        },
        SlotView::NewPatch { id, reference } => {
            assert(id != "REMOVED"@ && id != "DIR"@ && id != "UNMODIFIED_DIRECTORY"@);
            assert(parse_slot_spec(slot_patch_text(v), slot_ref_text(v)) == Ok::<
                SlotView,
                crate::EngineError,
            >(v));
        },
        SlotView::Dir => {
            assert(slot_patch_text(v) == "DIR"@);
            assert(parse_slot_spec(slot_patch_text(v), slot_ref_text(v)) == Ok::<
                SlotView,
                crate::EngineError,
            >(v));
        },
        SlotView::UnmodifiedDir => {
            assert("UNMODIFIED_DIRECTORY"@.len() == 20);
            assert("REMOVED"@.len() == 7);
            assert("DIR"@.len() == 3);
            assert("UNMODIFIED_DIRECTORY"@ != "REMOVED"@);
            assert("UNMODIFIED_DIRECTORY"@ != "DIR"@);
            assert(parse_slot_spec(slot_patch_text(v), slot_ref_text(v)) == Ok::<
                SlotView,
                crate::EngineError,
            >(v));
        },
        SlotView::Removed => {
            assert(parse_slot_spec(slot_patch_text(v), slot_ref_text(v)) == Ok::<
                SlotView,
                crate::EngineError,
            >(v));
        },
    }
}

} // verus!
