//! Materializing trees.
//!
//! The walker turns tree listings into work: every `blob` row becomes
//! one blob task (ensure the content is stored, then hard-link it into
//! the checkout), every `tree` row becomes one subtree to expand, and
//! rows of any other kind (symbolic links, submodules) are silently
//! ignored. Tasks are independent units: no task's outcome depends on
//! another's, so they may run in any order or in parallel.
//!
//! The checkout directory is modeled here the way the store is: a
//! table from target path to the store hash whose content the path is
//! hard-linked to (two paths carrying one hash share an inode), plus
//! the set of directories created. A path, once present, is never
//! linked again — an existing file is left untouched, which is what
//! makes an interrupted checkout resumable.

use vstd::prelude::*;

use crate::errors::Error;
use crate::paths::spec_join_rel;
use crate::paths::join_rel;
use crate::store::{store_write, ObjectStore};
use crate::text::{bytes_eq, clone_bytes};
use crate::tree::{blob_kind, tree_kind, tree_row_views, Tree, TreeRowV};

verus! {

/// One file to materialize: the blob hash, the permission mode text of
/// its row, the directory (relative to the checkout root) it lands in,
/// and its full root-relative path.
#[derive(Debug)]
pub struct BlobTask {
    pub hash: Vec<u8>,
    pub mode: Vec<u8>,
    pub dir: Vec<u8>,
    pub rel_path: Vec<u8>,
}

/// The mathematical value of a blob task.
pub ghost struct BlobTaskV {
    pub hash: Seq<u8>,
    pub mode: Seq<u8>,
    pub dir: Seq<u8>,
    pub rel_path: Seq<u8>,
}

impl View for BlobTask {
    type V = BlobTaskV;

    open spec fn view(&self) -> BlobTaskV {
        BlobTaskV {
            hash: self.hash@,
            mode: self.mode@,
            dir: self.dir@,
            rel_path: self.rel_path@,
        }
    }
}

/// One subtree to expand: the tree hash and the base path its entries
/// will be materialized under.
#[derive(Debug)]
pub struct SubtreeTask {
    pub hash: Vec<u8>,
    pub base: Vec<u8>,
}

/// The mathematical value of a subtree task.
pub ghost struct SubtreeTaskV {
    pub hash: Seq<u8>,
    pub base: Seq<u8>,
}

impl View for SubtreeTask {
    type V = SubtreeTaskV;

    open spec fn view(&self) -> SubtreeTaskV {
        SubtreeTaskV { hash: self.hash@, base: self.base@ }
    }
}

/// The views of a sequence of blob tasks.
pub open spec fn blob_task_views(ts: Seq<BlobTask>) -> Seq<BlobTaskV> {
    ts.map_values(|t: BlobTask| t@)
}

/// The views of a sequence of subtree tasks.
pub open spec fn subtree_task_views(ts: Seq<SubtreeTask>) -> Seq<SubtreeTaskV> {
    ts.map_values(|t: SubtreeTask| t@)
}

/// The blob task one row yields under a base path.
pub open spec fn spec_blob_task(row: TreeRowV, base: Seq<u8>) -> BlobTaskV {
    BlobTaskV {
        hash: row.name,
        mode: row.mode,
        dir: base,
        rel_path: spec_join_rel(base, row.path),
    }
}

/// The subtree task one row yields under a base path.
pub open spec fn spec_subtree_task(row: TreeRowV, base: Seq<u8>) -> SubtreeTaskV {
    SubtreeTaskV { hash: row.name, base: spec_join_rel(base, row.path) }
}

/// The blob tasks of a listing's rows, in row order.
pub open spec fn plan_blobs(rows: Seq<TreeRowV>, base: Seq<u8>) -> Seq<BlobTaskV>
    decreases rows.len(),
{
    if rows.len() == 0 {
        Seq::empty()
    } else {
        plan_blobs(rows.drop_last(), base) + (if rows.last().otype == blob_kind() {
            seq![spec_blob_task(rows.last(), base)]
        } else {
            Seq::empty()
        })
    }
}

/// The subtree tasks of a listing's rows, in row order.
pub open spec fn plan_subtrees(rows: Seq<TreeRowV>, base: Seq<u8>) -> Seq<SubtreeTaskV>
    decreases rows.len(),
{
    if rows.len() == 0 {
        Seq::empty()
    } else {
        plan_subtrees(rows.drop_last(), base) + (if rows.last().otype == tree_kind() {
            seq![spec_subtree_task(rows.last(), base)]
        } else {
            Seq::empty()
        })
    }
}

/// The work one directory level yields.
#[derive(Debug)]
pub struct LevelPlan {
    pub blobs: Vec<BlobTask>,
    pub subtrees: Vec<SubtreeTask>,
}

/// Plan one directory level: one blob task per `blob` row, one subtree
/// task per `tree` row, nothing for any other kind.
pub fn plan_level(tree: &Tree) -> (p: LevelPlan)
    ensures
        blob_task_views(p.blobs@) == plan_blobs(tree_row_views(tree.rows@), tree.path@),
        subtree_task_views(p.subtrees@) == plan_subtrees(tree_row_views(tree.rows@), tree.path@),
{
    let mut blobs: Vec<BlobTask> = Vec::new();
    let mut subtrees: Vec<SubtreeTask> = Vec::new();
    let mut k: usize = 0;
    proof {
        assert(blob_task_views(blobs@) =~= plan_blobs(
            tree_row_views(tree.rows@).take(0),
            tree.path@,
        ));
        assert(subtree_task_views(subtrees@) =~= plan_subtrees(
            tree_row_views(tree.rows@).take(0),
            tree.path@,
        ));
    }
    while k < tree.rows.len()
        invariant
            k <= tree.rows@.len(),
            blob_task_views(blobs@) == plan_blobs(
                tree_row_views(tree.rows@).take(k as int),
                tree.path@,
            ),
            subtree_task_views(subtrees@) == plan_subtrees(
                tree_row_views(tree.rows@).take(k as int),
                tree.path@,
            ),
        decreases tree.rows@.len() - k,
    {
        let ghost rv = tree_row_views(tree.rows@);
        proof {
            assert(rv[k as int] == tree.rows@[k as int]@);
            assert(rv.take(k + 1).drop_last() =~= rv.take(k as int));
            assert(rv.take(k + 1).last() == rv[k as int]);
        }
        let row = &tree.rows[k];
        if row.is_blob() {
            let task = BlobTask {
                hash: clone_bytes(&row.name),
                mode: clone_bytes(&row.mode),
                dir: clone_bytes(&tree.path),
                rel_path: join_rel(&tree.path, &row.path),
            };
            let ghost pre = blobs@;
            proof {
                assert(task@ == spec_blob_task(rv[k as int], tree.path@));
            }
            blobs.push(task);
            proof {
                assert(blob_task_views(blobs@) =~= blob_task_views(pre).push(
                    spec_blob_task(rv[k as int], tree.path@),
                ));
                assert(plan_blobs(rv.take(k + 1), tree.path@) =~= blob_task_views(blobs@));
                assert(plan_subtrees(rv.take(k + 1), tree.path@) =~= subtree_task_views(
                    subtrees@,
                ));
            }
        } else if row.is_tree() {
            let task = SubtreeTask {
                hash: clone_bytes(&row.name),
                base: join_rel(&tree.path, &row.path),
            };
            let ghost pre = subtrees@;
            proof {
                assert(task@ == spec_subtree_task(rv[k as int], tree.path@));
            }
            subtrees.push(task);
            proof {
                assert(subtree_task_views(subtrees@) =~= subtree_task_views(pre).push(
                    spec_subtree_task(rv[k as int], tree.path@),
                ));
                assert(plan_blobs(rv.take(k + 1), tree.path@) =~= blob_task_views(blobs@));
                assert(plan_subtrees(rv.take(k + 1), tree.path@) =~= subtree_task_views(
                    subtrees@,
                ));
            }
        } else {
            proof {
                assert(plan_blobs(rv.take(k + 1), tree.path@) =~= blob_task_views(blobs@));
                assert(plan_subtrees(rv.take(k + 1), tree.path@) =~= subtree_task_views(
                    subtrees@,
                ));
            }
        }
        k = k + 1;
    }
    proof {
        let rv = tree_row_views(tree.rows@);
        assert(rv.take(tree.rows@.len() as int) =~= rv);
    }
    LevelPlan { blobs, subtrees }
}

/// The walk frontier: subtrees discovered but not yet expanded. The
/// order of expansion is free; this frontier hands them back newest
/// first.
#[derive(Debug)]
pub struct Walker {
    pub pending: Vec<SubtreeTask>,
}

impl Walker {
    /// A walk with nothing pending.
    pub fn new() -> (w: Walker)
        ensures
            w.pending@.len() == 0,
    {
        Walker { pending: Vec::new() }
    }

    /// Expand one directory level: hand back its blob tasks and queue
    /// its subtrees.
    pub fn expand(&mut self, tree: &Tree) -> (blobs: Vec<BlobTask>)
        ensures
            blob_task_views(blobs@) == plan_blobs(tree_row_views(tree.rows@), tree.path@),
            subtree_task_views(final(self).pending@) == subtree_task_views(old(self).pending@)
                + plan_subtrees(tree_row_views(tree.rows@), tree.path@),
    {
        let plan = plan_level(tree);
        let mut subs = plan.subtrees;
        let ghost pre = self.pending@;
        let ghost subs_v = subs@;
        self.pending.append(&mut subs);
        proof {
            assert(subtree_task_views(self.pending@) =~= subtree_task_views(pre)
                + subtree_task_views(subs_v));
        }
        plan.blobs
    }

    /// The next subtree to expand, if any is pending.
    pub fn next(&mut self) -> (r: Option<SubtreeTask>)
        ensures
            match r {
                Some(t) => old(self).pending@.len() > 0 && t@ == old(self).pending@.last()@
                    && final(self).pending@ == old(self).pending@.drop_last(),
                None => old(self).pending@.len() == 0 && final(self).pending@ == old(
                    self,
                ).pending@,
            },
    {
        self.pending.pop()
    }
}

/// What one hard-link step does to the checkout's file table: nothing
/// when the path is already present, otherwise the path is bound to
/// the store hash it links to.
pub open spec fn link_apply(files: Map<Seq<u8>, Seq<u8>>, rel_path: Seq<u8>, hash: Seq<u8>) -> Map<
    Seq<u8>,
    Seq<u8>,
> {
    if files.contains_key(rel_path) {
        files
    } else {
        files.insert(rel_path, hash)
    }
}

/// One materialized file: its root-relative path and the store hash it
/// is hard-linked to.
#[derive(Debug)]
struct FileLink {
    path: Vec<u8>,
    hash: Vec<u8>,
}

/// The file table a sequence of links denotes; the earliest link for a
/// path wins, matching a checkout where an existing file is never
/// replaced.
spec fn links_map(ls: Seq<FileLink>) -> Map<Seq<u8>, Seq<u8>>
    decreases ls.len(),
{
    if ls.len() == 0 {
        Map::empty()
    } else {
        links_map(ls.skip(1)).insert(ls[0].path@, ls[0].hash@)
    }
}

/// The set of directories a sequence of paths denotes.
spec fn dir_set(ds: Seq<Vec<u8>>) -> Set<Seq<u8>>
    decreases ds.len(),
{
    if ds.len() == 0 {
        Set::empty()
    } else {
        dir_set(ds.drop_last()).insert(ds.last()@)
    }
}

proof fn lemma_links_map_domain(ls: Seq<FileLink>, k: Seq<u8>)
    ensures
        links_map(ls).contains_key(k) <==> exists|j: int|
            0 <= j < ls.len() && (#[trigger] ls[j].path)@ == k,
    decreases ls.len(),
{
    if ls.len() > 0 {
        lemma_links_map_domain(ls.skip(1), k);
        if links_map(ls).contains_key(k) {
            if ls[0].path@ != k {
                let j = choose|j: int| 0 <= j < ls.skip(1).len() && (#[trigger] ls.skip(
                    1,
                )[j].path)@ == k;
                assert(ls[j + 1].path@ == k);
            }
        }
        if exists|j: int| 0 <= j < ls.len() && (#[trigger] ls[j].path)@ == k {
            let j = choose|j: int| 0 <= j < ls.len() && (#[trigger] ls[j].path)@ == k;
            if j > 0 {
                assert(ls.skip(1)[j - 1].path@ == k);
            }
        }
    }
}

proof fn lemma_links_map_first(ls: Seq<FileLink>, i: int)
    requires
        0 <= i < ls.len(),
        forall|j: int| 0 <= j < i ==> (#[trigger] ls[j].path)@ != ls[i].path@,
    ensures
        links_map(ls).contains_key(ls[i].path@),
        links_map(ls)[ls[i].path@] == ls[i].hash@,
    decreases ls.len(),
{
    if i > 0 {
        assert(forall|j: int|
            0 <= j < i - 1 ==> (#[trigger] ls.skip(1)[j].path)@ == ls[j + 1].path@);
        lemma_links_map_first(ls.skip(1), i - 1);
        assert(ls.skip(1)[i - 1] == ls[i]);
    }
}

proof fn lemma_links_map_push(ls: Seq<FileLink>, l: FileLink)
    requires
        !links_map(ls).contains_key(l.path@),
    ensures
        links_map(ls.push(l)) == links_map(ls).insert(l.path@, l.hash@),
    decreases ls.len(),
{
    lemma_links_map_domain(ls, l.path@);
    if ls.len() == 0 {
        assert(ls.push(l).skip(1) =~= ls);
        assert(ls.push(l)[0] == l);
    } else {
        assert(ls.push(l)[0] == ls[0]);
        assert(ls.push(l).skip(1) =~= ls.skip(1).push(l));
        lemma_links_map_domain(ls.skip(1), l.path@);
        lemma_links_map_push(ls.skip(1), l);
        assert(links_map(ls.skip(1)).insert(l.path@, l.hash@).insert(ls[0].path@, ls[0].hash@)
            =~= links_map(ls.skip(1)).insert(ls[0].path@, ls[0].hash@).insert(l.path@, l.hash@));
    }
}

proof fn lemma_dir_set_domain(ds: Seq<Vec<u8>>, k: Seq<u8>)
    ensures
        dir_set(ds).contains(k) <==> exists|j: int| 0 <= j < ds.len() && (#[trigger] ds[j])@ == k,
    decreases ds.len(),
{
    if ds.len() > 0 {
        lemma_dir_set_domain(ds.drop_last(), k);
        if dir_set(ds).contains(k) && ds.last()@ != k {
            let j = choose|j: int| 0 <= j < ds.drop_last().len() && (#[trigger] ds.drop_last()[j])@
                == k;
            assert(ds[j]@ == k);
        }
        if exists|j: int| 0 <= j < ds.len() && (#[trigger] ds[j])@ == k {
            let j = choose|j: int| 0 <= j < ds.len() && (#[trigger] ds[j])@ == k;
            if j < ds.len() - 1 {
                assert(ds.drop_last()[j]@ == k);
            }
        }
    }
}

/// The mathematical value of a checkout directory: which root-relative
/// paths are materialized and which store hash each links to, plus the
/// directories created so far.
pub ghost struct CheckoutV {
    pub files: Map<Seq<u8>, Seq<u8>>,
    pub dirs: Set<Seq<u8>>,
}

/// The verified model of the checkout target directory. The unverified
/// shell mirrors each operation on the real directory: `ensure_dir` is
/// a create-all that tolerates existing directories, and a link is a
/// hard link from the store entry, skipped when the file exists.
#[derive(Debug)]
pub struct CheckoutDir {
    links: Vec<FileLink>,
    dirs: Vec<Vec<u8>>,
}

impl View for CheckoutDir {
    type V = CheckoutV;

    closed spec fn view(&self) -> CheckoutV {
        CheckoutV { files: links_map(self.links@), dirs: dir_set(self.dirs@) }
    }
}

impl CheckoutDir {
    /// An empty checkout directory.
    pub fn new() -> (c: CheckoutDir)
        ensures
            c@.files == Map::<Seq<u8>, Seq<u8>>::empty(),
            c@.dirs == Set::<Seq<u8>>::empty(),
    {
        CheckoutDir { links: Vec::new(), dirs: Vec::new() }
    }

    /// True iff a file is already materialized at the path.
    pub fn has_file(&self, rel_path: &Vec<u8>) -> (r: bool)
        ensures
            r == self@.files.contains_key(rel_path@),
    {
        let mut i: usize = 0;
        while i < self.links.len()
            invariant
                i <= self.links@.len(),
                forall|j: int| 0 <= j < i ==> (#[trigger] self.links@[j].path)@ != rel_path@,
            decreases self.links@.len() - i,
        {
            if bytes_eq(&self.links[i].path, rel_path) {
                proof {
                    lemma_links_map_domain(self.links@, rel_path@);
                }
                return true;
            }
            i = i + 1;
        }
        proof {
            lemma_links_map_domain(self.links@, rel_path@);
        }
        false
    }

    /// The store hash a materialized path links to, if the path is
    /// present. Two paths with the same answer share their content.
    pub fn linked_hash(&self, rel_path: &Vec<u8>) -> (r: Option<Vec<u8>>)
        ensures
            match r {
                Some(h) => self@.files.contains_key(rel_path@) && h@ == self@.files[rel_path@],
                None => !self@.files.contains_key(rel_path@),
            },
    {
        let mut i: usize = 0;
        while i < self.links.len()
            invariant
                i <= self.links@.len(),
                forall|j: int| 0 <= j < i ==> (#[trigger] self.links@[j].path)@ != rel_path@,
            decreases self.links@.len() - i,
        {
            if bytes_eq(&self.links[i].path, rel_path) {
                proof {
                    lemma_links_map_first(self.links@, i as int);
                }
                return Some(clone_bytes(&self.links[i].hash));
            }
            i = i + 1;
        }
        proof {
            lemma_links_map_domain(self.links@, rel_path@);
        }
        None
    }

    /// True iff the directory was already created.
    pub fn has_dir(&self, dir: &Vec<u8>) -> (r: bool)
        ensures
            r == self@.dirs.contains(dir@),
    {
        let mut i: usize = 0;
        while i < self.dirs.len()
            invariant
                i <= self.dirs@.len(),
                forall|j: int| 0 <= j < i ==> (#[trigger] self.dirs@[j])@ != dir@,
            decreases self.dirs@.len() - i,
        {
            if bytes_eq(&self.dirs[i], dir) {
                proof {
                    lemma_dir_set_domain(self.dirs@, dir@);
                }
                return true;
            }
            i = i + 1;
        }
        proof {
            lemma_dir_set_domain(self.dirs@, dir@);
        }
        false
    }

    /// Make sure a directory exists. One that already exists is
    /// success, not an error — concurrent creations are tolerated.
    pub fn ensure_dir(&mut self, dir: &Vec<u8>)
        ensures
            final(self)@.files == old(self)@.files,
            final(self)@.dirs == old(self)@.dirs.insert(dir@),
    {
        if self.has_dir(dir) {
            proof {
                assert(old(self)@.dirs.insert(dir@) =~= old(self)@.dirs);
            }
            return;
        }
        let ghost pre = self.dirs@;
        self.dirs.push(clone_bytes(dir));
        proof {
            assert(self.dirs@.drop_last() =~= pre);
            assert(dir_set(self.dirs@) == dir_set(pre).insert(dir@));
        }
    }

    /// Materialize one planned blob: make sure its directory exists,
    /// then hard-link the store entry at the target path — unless a
    /// file already sits there, which is left untouched so that an
    /// interrupted checkout resumes cleanly. Linking fails only when
    /// the path is absent and the store lacks the hash.
    pub fn link_blob(&mut self, store: &ObjectStore, task: &BlobTask) -> (r: Result<(), Error>)
        ensures
            final(self)@.dirs == old(self)@.dirs.insert(task.dir@),
            match r {
                Ok(()) => (old(self)@.files.contains_key(task.rel_path@) || store@.contains_key(
                    task.hash@,
                )) && final(self)@.files == link_apply(
                    old(self)@.files,
                    task.rel_path@,
                    task.hash@,
                ),
                Err(e) => e == Error::HardLinkError && !old(self)@.files.contains_key(
                    task.rel_path@,
                ) && !store@.contains_key(task.hash@) && final(self)@.files == old(self)@.files,
            },
    {
        self.ensure_dir(&task.dir);
        if self.has_file(&task.rel_path) {
            return Ok(());
        }
        if !store.has(&task.hash) {
            return Err(Error::HardLinkError);
        }
        let link = FileLink { path: clone_bytes(&task.rel_path), hash: clone_bytes(&task.hash) };
        let ghost pre = self.links@;
        proof {
            assert(link.path@ == task.rel_path@);
        }
        self.links.push(link);
        proof {
            lemma_links_map_push(pre, link);
        }
        Ok(())
    }
}

/// The file table after a whole sequence of blob tasks is linked, in
/// order.
pub open spec fn apply_links(files: Map<Seq<u8>, Seq<u8>>, tasks: Seq<BlobTaskV>) -> Map<
    Seq<u8>,
    Seq<u8>,
>
    decreases tasks.len(),
{
    if tasks.len() == 0 {
        files
    } else {
        link_apply(
            apply_links(files, tasks.drop_last()),
            tasks.last().rel_path,
            tasks.last().hash,
        )
    }
}

/// The directory set after a whole sequence of blob tasks has had its
/// directories ensured, in order.
pub open spec fn apply_dirs(dirs: Set<Seq<u8>>, tasks: Seq<BlobTaskV>) -> Set<Seq<u8>>
    decreases tasks.len(),
{
    if tasks.len() == 0 {
        dirs
    } else {
        apply_dirs(dirs, tasks.drop_last()).insert(tasks.last().dir)
    }
}

impl CheckoutDir {
    /// Materialize one level's blob tasks, in order, stopping at the
    /// first failure. On success the file table is exactly the table
    /// the plan denotes; on failure the tasks before the failing one
    /// are in place, the failing task's directory exists, and the
    /// failing task's path is absent with its hash missing from the
    /// store.
    pub fn materialize_level(&mut self, store: &ObjectStore, blobs: &Vec<BlobTask>) -> (r: Result<
        (),
        Error,
    >)
        ensures
            match r {
                Ok(()) => final(self)@.files == apply_links(
                    old(self)@.files,
                    blob_task_views(blobs@),
                ) && final(self)@.dirs == apply_dirs(old(self)@.dirs, blob_task_views(blobs@)),
                Err(e) => e == Error::HardLinkError && exists|k: int|
                    0 <= k < blobs@.len() && final(self)@.files == apply_links(
                        old(self)@.files,
                        blob_task_views(blobs@).take(k),
                    ) && !final(self)@.files.contains_key((#[trigger] blobs@[k])@.rel_path)
                        && !store@.contains_key(blobs@[k]@.hash) && final(self)@.dirs == apply_dirs(
                        old(self)@.dirs,
                        blob_task_views(blobs@).take(k + 1),
                    ),
            },
    {
        let ghost files0 = self@.files;
        let ghost dirs0 = self@.dirs;
        let ghost tv = blob_task_views(blobs@);
        let mut k: usize = 0;
        proof {
            assert(self@.files =~= apply_links(files0, tv.take(0)));
            assert(self@.dirs =~= apply_dirs(dirs0, tv.take(0)));
        }
        while k < blobs.len()
            invariant
                k <= blobs@.len(),
                tv == blob_task_views(blobs@),
                files0 == old(self)@.files,
                dirs0 == old(self)@.dirs,
                self@.files == apply_links(files0, tv.take(k as int)),
                self@.dirs == apply_dirs(dirs0, tv.take(k as int)),
            decreases blobs@.len() - k,
        {
            proof {
                assert(tv[k as int] == blobs@[k as int]@);
                assert(tv.take(k + 1).drop_last() =~= tv.take(k as int));
                assert(tv.take(k + 1).last() == tv[k as int]);
            }
            match self.link_blob(store, &blobs[k]) {
                Ok(()) => {},
                Err(e) => {
                    proof {
                        assert(self@.files == apply_links(files0, tv.take(k as int)));
                        assert(!self@.files.contains_key(blobs@[k as int]@.rel_path));
                        assert(!store@.contains_key(blobs@[k as int]@.hash));
                        assert(self@.dirs == apply_dirs(dirs0, tv.take(k as int + 1)));
                    }
                    return Err(e);
                },
            }
            k = k + 1;
        }
        proof {
            assert(tv.take(blobs@.len() as int) =~= tv);
        }
        Ok(())
    }
}

/// Linking never unbinds a path, and never rebinds a bound one.
pub proof fn lemma_apply_links_preserves(files: Map<Seq<u8>, Seq<u8>>, tasks: Seq<BlobTaskV>, k: Seq<u8>)
    requires
        files.contains_key(k),
    ensures
        apply_links(files, tasks).contains_key(k),
        apply_links(files, tasks)[k] == files[k],
    decreases tasks.len(),
{
    if tasks.len() > 0 {
        lemma_apply_links_preserves(files, tasks.drop_last(), k);
    }
}

/// After a run, every task's path is bound.
proof fn lemma_apply_links_covers(files: Map<Seq<u8>, Seq<u8>>, tasks: Seq<BlobTaskV>, i: int)
    requires
        0 <= i < tasks.len(),
    ensures
        apply_links(files, tasks).contains_key(tasks[i].rel_path),
    decreases tasks.len(),
{
    if i < tasks.len() - 1 {
        lemma_apply_links_covers(files, tasks.drop_last(), i);
    }
}

/// A run whose paths are all bound already changes nothing.
proof fn lemma_apply_links_noop(files: Map<Seq<u8>, Seq<u8>>, tasks: Seq<BlobTaskV>)
    requires
        forall|i: int| 0 <= i < tasks.len() ==> files.contains_key(#[trigger] tasks[i].rel_path),
    ensures
        apply_links(files, tasks) == files,
    decreases tasks.len(),
{
    if tasks.len() > 0 {
        lemma_apply_links_noop(files, tasks.drop_last());
    }
}

/// A path is bound after a run exactly when it was bound before or
/// some task of the run carries it: materializing touches nothing
/// outside its plan.
pub proof fn lemma_materialize_domain(
    files: Map<Seq<u8>, Seq<u8>>,
    tasks: Seq<BlobTaskV>,
    k: Seq<u8>,
)
    ensures
        apply_links(files, tasks).contains_key(k) <==> (files.contains_key(k) || exists|i: int|
            0 <= i < tasks.len() && (#[trigger] tasks[i]).rel_path == k),
    decreases tasks.len(),
{
    if tasks.len() > 0 {
        lemma_materialize_domain(files, tasks.drop_last(), k);
        if apply_links(files, tasks).contains_key(k) {
            if apply_links(files, tasks.drop_last()).contains_key(k) {
                if !files.contains_key(k) {
                    let i = choose|i: int|
                        0 <= i < tasks.drop_last().len() && (#[trigger] tasks.drop_last()[
                            i
                        ]).rel_path == k;
                    assert(tasks[i].rel_path == k);
                }
            } else {
                assert(tasks[tasks.len() - 1].rel_path == k);
            }
        }
        if !files.contains_key(k) && exists|i: int|
            0 <= i < tasks.len() && (#[trigger] tasks[i]).rel_path == k {
            let i = choose|i: int| 0 <= i < tasks.len() && (#[trigger] tasks[i]).rel_path == k;
            if i < tasks.len() - 1 {
                assert(tasks.drop_last()[i].rel_path == k);
            }
        }
    }
}

/// Exactness: a task whose path was absent and is not claimed by an
/// earlier task of the run ends up bound to exactly that task's hash.
/// Together with `lemma_materialize_domain` and
/// `lemma_apply_links_preserves`, a run on a fresh checkout produces
/// precisely the planned path-to-hash table.
pub proof fn lemma_materialize_exact(files: Map<Seq<u8>, Seq<u8>>, tasks: Seq<BlobTaskV>, i: int)
    requires
        0 <= i < tasks.len(),
        !files.contains_key(tasks[i].rel_path),
        forall|j: int| 0 <= j < i ==> (#[trigger] tasks[j]).rel_path != tasks[i].rel_path,
    ensures
        apply_links(files, tasks).contains_key(tasks[i].rel_path),
        apply_links(files, tasks)[tasks[i].rel_path] == tasks[i].hash,
    decreases tasks.len(),
{
    if i < tasks.len() - 1 {
        lemma_materialize_exact(files, tasks.drop_last(), i);
    } else {
        lemma_materialize_domain(files, tasks.drop_last(), tasks[i].rel_path);
        assert(forall|j: int|
            0 <= j < tasks.drop_last().len() ==> (#[trigger] tasks.drop_last()[j]).rel_path
                == tasks[j].rel_path);
    }
}

/// Idempotent materialize: running the same blob tasks a second time
/// against the same checkout leaves its file table exactly as the
/// first run left it.
pub proof fn lemma_materialize_idempotent(files: Map<Seq<u8>, Seq<u8>>, tasks: Seq<BlobTaskV>)
    ensures
        apply_links(apply_links(files, tasks), tasks) == apply_links(files, tasks),
{
    let once = apply_links(files, tasks);
    assert forall|i: int| 0 <= i < tasks.len() implies once.contains_key(
        #[trigger] tasks[i].rel_path,
    ) by {
        lemma_apply_links_covers(files, tasks, i);
    }
    lemma_apply_links_noop(once, tasks);
}

/// Dedup: when two checkouts need the same blob, the second store
/// write is a no-op — one entry serves both — and both target paths
/// end up linked to that one hash, sharing their content.
pub proof fn lemma_dedup(
    store: Map<Seq<u8>, Seq<u8>>,
    files: Map<Seq<u8>, Seq<u8>>,
    hash: Seq<u8>,
    bytes: Seq<u8>,
    p1: Seq<u8>,
    p2: Seq<u8>,
)
    requires
        p1 != p2,
        !files.contains_key(p1),
        !files.contains_key(p2),
    ensures
        store_write(store_write(store, hash, bytes), hash, bytes) == store_write(
            store,
            hash,
            bytes,
        ),
        link_apply(link_apply(files, p1, hash), p2, hash)[p1] == hash,
        link_apply(link_apply(files, p1, hash), p2, hash)[p2] == hash,
{
}

} // verus!
