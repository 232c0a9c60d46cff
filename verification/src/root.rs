use vstd::prelude::*;

use crate::commit::{Commit, CommitMetadata, CommitRef, CommitStore, CommitView};
use crate::content_store::ContentStore;
use crate::digest::digest_of;
use crate::error::GustError;
use crate::head::Head;
use crate::ignore::{is_path_ignored, rules_view, IgnoredFile, IgnoredFileView, spec_ignore_verdict};
use crate::pathmap::PathMap;
use crate::paths::{spec_path_join, spec_path_starts_with, AbsolutePath, RootPath, RootRelativePath};
use crate::staging_area::{ChangeType, StagingArea};
use crate::tracked_file::{spec_file_status, FileStatus, TrackedFile, TrackedFileView};
use crate::worktree::{WorkingFileView, WorkingTree};

verus! {

/// The engine facade: the whole repository state read into memory. The
/// caller loads the persisted records into it, runs one operation, and
/// writes back what the operation reports changed.
pub struct Root {
    pub path: RootPath,
    pub head: Head,
    pub staging_area: StagingArea,
    pub ignored_files: Vec<IgnoredFile>,
    pub commits: CommitStore,
    pub blobs: ContentStore,
}

/// The change a scanned file's status reports.
pub open spec fn status_change(s: FileStatus) -> ChangeType {
    match s {
        FileStatus::Added => ChangeType::Added,
        FileStatus::Modified => ChangeType::Modified,
        FileStatus::Unchanged => ChangeType::Added,
    }
}

/// The status of one scanned file against the current tree.
pub open spec fn spec_scan_status(
    tree: Map<Seq<char>, TrackedFileView>,
    w: WorkingFileView,
    k: Seq<char>,
) -> FileStatus {
    spec_file_status(
        if tree.contains_key(k) {
            Some(tree[k])
        } else {
            None
        },
        w.metadata,
        w.content,
    )
}

/// The single source of truth for pending changes: every scanned file that
/// is not ignored and differs from the current tree (added or modified), and
/// every tree path missing from the scan (removed).
pub open spec fn spec_changed_files(
    working: Map<Seq<char>, WorkingFileView>,
    tree: Map<Seq<char>, TrackedFileView>,
    rules: Seq<IgnoredFileView>,
    root: Seq<char>,
) -> Map<Seq<char>, ChangeType> {
    Map::new(
        |k: Seq<char>|
            (working.contains_key(k) && spec_ignore_verdict(rules, spec_path_join(root, k))
                is Clear && spec_scan_status(tree, working[k], k) != FileStatus::Unchanged) || (
            tree.contains_key(k) && !working.contains_key(k)),
        |k: Seq<char>|
            if working.contains_key(k) {
                status_change(spec_scan_status(tree, working[k], k))
            } else {
                ChangeType::Removed
            },
    )
}

/// No scanned file lies inside an ignored directory; change detection fails
/// on the first such file.
pub open spec fn spec_no_inside_ignored(
    working: Map<Seq<char>, WorkingFileView>,
    rules: Seq<IgnoredFileView>,
    root: Seq<char>,
) -> bool {
    forall|k: Seq<char>|
        working.contains_key(k) ==> !(spec_ignore_verdict(
            rules,
            #[trigger] spec_path_join(root, k),
        ) is InsideIgnoredDir)
}

impl Root {
    pub open spec fn wf(&self) -> bool {
        self.staging_area.wf() && self.commits.wf() && self.blobs.wf()
    }

    /// The reference at the tip of the current log, if any.
    pub open spec fn head_ref(&self) -> Option<CommitRef> {
        if self.head.log().len() == 0 {
            None
        } else {
            Some(self.head.log().last())
        }
    }

    /// Whether the tip's commit object is actually stored; a tip pointing at
    /// a missing commit means the project records are inconsistent.
    pub open spec fn head_resolvable(&self) -> bool {
        match self.head_ref() {
            None => true,
            Some(r) => self.commits@.contains_key(r.commit_id@),
        }
    }

    /// The currently checked-out tree: the tip commit's tree, or empty while
    /// no commit exists.
    pub open spec fn head_tree(&self) -> Map<Seq<char>, TrackedFileView> {
        match self.head_ref() {
            None => Map::empty(),
            Some(r) => self.commits@[r.commit_id@].tree,
        }
    }

    /// The changed-files map of this state, as `get_changed_files` computes
    /// it.
    pub open spec fn changed_files(&self, working: Map<Seq<char>, WorkingFileView>) -> Map<
        Seq<char>,
        ChangeType,
    > {
        spec_changed_files(working, self.head_tree(), rules_view(self.ignored_files@), self.path@)
    }

    /// Assemble the engine from the loaded records.
    pub fn new(
        path: RootPath,
        head: Head,
        staging_area: StagingArea,
        ignored_files: Vec<IgnoredFile>,
        commits: CommitStore,
        blobs: ContentStore,
    ) -> (r: Root)
        requires
            staging_area.wf(),
            commits.wf(),
            blobs.wf(),
        ensures
            r.wf(),
            r.path == path,
            r.head == head,
            r.staging_area == staging_area,
            r.ignored_files == ignored_files,
            r.commits == commits,
            r.blobs == blobs,
    {
        Root { path, head, staging_area, ignored_files, commits, blobs }
    }

    pub fn get_staging_area(&self) -> (r: &StagingArea)
        ensures
            r == &self.staging_area,
    {
        &self.staging_area
    }

    pub fn get_path(&self) -> (r: &RootPath)
        ensures
            r == &self.path,
    {
        &self.path
    }

    pub fn get_head(&self) -> (r: &Head)
        ensures
            r == &self.head,
    {
        &self.head
    }

    pub fn get_commits(&self) -> (r: &CommitStore)
        ensures
            r == &self.commits,
    {
        &self.commits
    }

    pub fn get_blobs(&self) -> (r: &ContentStore)
        ensures
            r == &self.blobs,
    {
        &self.blobs
    }

    /// The commit the current tip points at, or nothing while no commit
    /// exists; a tip pointing at a missing commit is refused.
    pub fn get_last_commit(&self) -> (r: Result<Option<Commit>, GustError>)
        requires
            self.wf(),
        ensures
            match r {
                Ok(oc) => match oc {
                    Some(c) => self.head_ref() is Some && self.head_resolvable() && c.wf() && c@
                        == CommitView { tree: self.head_tree(), message: c.message() },
                    None => self.head_ref() is None,
                },
                Err(_) => !self.head_resolvable(),
            },
    {
        Commit::from_commit_ref_option(self.head.get_tree(), &self.commits)
    }

    /// Compute the pending changes of the working directory against the
    /// current tree: the map both `status` and `add` consume.
    pub fn get_changed_files(&self, working: &WorkingTree) -> (r: Result<
        PathMap<ChangeType>,
        GustError,
    >)
        requires
            self.wf(),
            working.wf(),
        ensures
            r is Ok <==> self.head_resolvable() && spec_no_inside_ignored(
                working@,
                rules_view(self.ignored_files@),
                self.path@,
            ),
            r is Ok ==> r->Ok_0.wf() && r->Ok_0@ == self.changed_files(working@),
    {
        let ghost rules = rules_view(self.ignored_files@);
        let ghost wv = working@;
        let commit_opt = match Commit::from_commit_ref_option(self.head.get_tree(), &self.commits) {
            Ok(c) => c,
            Err(e) => {
                return Err(e);
            },
        };
        let ghost tree = self.head_tree();
        proof {
            match &commit_opt {
                Some(c) => {
                    assert(c@.tree == tree);
                },
                None => {
                    assert(tree =~= Map::<Seq<char>, TrackedFileView>::empty());
                },
            }
        }
        let mut changed: PathMap<ChangeType> = PathMap::new();
        let n = working.len();
        let ghost we = working.entries();
        let mut i: usize = 0;
        while i < n
            invariant
                i <= n,
                n == we.len(),
                we == working.entries(),
                self.wf(),
                working.wf(),
                changed.wf(),
                tree == self.head_tree(),
                rules == rules_view(self.ignored_files@),
                wv == working@,
                commit_opt matches Some(c) ==> c.wf() && c@.tree == tree,
                commit_opt is None ==> tree =~= Map::<Seq<char>, TrackedFileView>::empty(),
                forall|j: int|
                    0 <= j < i ==> !(spec_ignore_verdict(
                        rules,
                        spec_path_join(self.path@, (#[trigger] we[j]).0),
                    ) is InsideIgnoredDir),
                forall|k: Seq<char>| #[trigger]
                    changed@.contains_key(k) <==> exists|j: int|
                        0 <= j < i && (#[trigger] we[j]).0 == k && spec_ignore_verdict(
                            rules,
                            spec_path_join(self.path@, k),
                        ) is Clear && spec_scan_status(tree, we[j].1, k) != FileStatus::Unchanged,
                forall|k: Seq<char>| #[trigger]
                    changed@.contains_key(k) ==> wv.contains_key(k) && changed@[k] == status_change(
                        spec_scan_status(tree, wv[k], k),
                    ),
            decreases n - i,
        {
            let (p, f) = working.entry_at(i);
            proof {
                working.lemma_view();
            }
            let abs = self.path.join_path(p);
            let ignored = match is_path_ignored(&self.ignored_files, &abs) {
                Ok(b) => b,
                Err(e) => {
                    return Err(e);
                },
            };
            let ghost changed0 = changed@;
            if !ignored {
                let status = match &commit_opt {
                    Some(c) => c.has_file_changed(p, f.metadata, &f.content),
                    None => FileStatus::Added,
                };
                proof {
                    assert(status == spec_scan_status(tree, we[i as int].1, we[i as int].0));
                }
                match status {
                    FileStatus::Added => changed.insert(p.clone(), ChangeType::Added),
                    FileStatus::Modified => changed.insert(p.clone(), ChangeType::Modified),
                    FileStatus::Unchanged => {
                    },
                }
            }
            proof {
                let k_i = we[i as int].0;
                assert forall|k: Seq<char>| #[trigger]
                    changed@.contains_key(k) <==> exists|j: int|
                        0 <= j < i + 1 && (#[trigger] we[j]).0 == k && spec_ignore_verdict(
                            rules,
                            spec_path_join(self.path@, k),
                        ) is Clear && spec_scan_status(tree, we[j].1, k)
                        != FileStatus::Unchanged by {
                    if changed@.contains_key(k) {
                        if k == k_i && !changed0.contains_key(k) {
                            assert(we[i as int].0 == k);
                        } else {
                            assert(changed0.contains_key(k));
                            let j = choose|j: int|
                                0 <= j < i && (#[trigger] we[j]).0 == k && spec_ignore_verdict(
                                    rules,
                                    spec_path_join(self.path@, k),
                                ) is Clear && spec_scan_status(tree, we[j].1, k)
                                    != FileStatus::Unchanged;
                            assert(0 <= j < i + 1 && we[j].0 == k);
                        }
                    }
                    if exists|j: int|
                        0 <= j < i + 1 && (#[trigger] we[j]).0 == k && spec_ignore_verdict(
                            rules,
                            spec_path_join(self.path@, k),
                        ) is Clear && spec_scan_status(tree, we[j].1, k) != FileStatus::Unchanged {
                        let j = choose|j: int|
                            0 <= j < i + 1 && (#[trigger] we[j]).0 == k && spec_ignore_verdict(
                                rules,
                                spec_path_join(self.path@, k),
                            ) is Clear && spec_scan_status(tree, we[j].1, k)
                                != FileStatus::Unchanged;
                        if j < i {
                            assert(changed0.contains_key(k));
                        } else {
                            assert(we[i as int].1 == wv[k]);
                        }
                        assert(changed@.contains_key(k));
                    }
                }
            }
            i = i + 1;
        }
        // every tree path missing from the scan is a removal
        let tree_n = match &commit_opt {
            Some(c) => c.tree_len(),
            None => 0,
        };
        let ghost te = match &commit_opt {
            Some(c) => c.entries(),
            None => Seq::<(Seq<char>, TrackedFileView)>::empty(),
        };
        proof {
            working.lemma_view();
            match &commit_opt {
                Some(c) => {
                    crate::commit::lemma_commit_entries_denote_tree(c);
                    crate::pathmap::lemma_entry_seq_map_props(te);
                },
                None => {},
            }
        }
        let mut t: usize = 0;
        while t < tree_n
            invariant
                t <= tree_n,
                tree_n == te.len(),
                self.wf(),
                working.wf(),
                changed.wf(),
                tree == self.head_tree(),
                rules == rules_view(self.ignored_files@),
                wv == working@,
                commit_opt matches Some(c) ==> c.wf() && c@.tree == tree && te == c.entries(),
                commit_opt is None ==> tree =~= Map::<Seq<char>, TrackedFileView>::empty(),
                crate::pathmap::entry_seq_map(te) == tree,
                forall|j: int|
                    0 <= j < te.len() ==> tree.contains_key((#[trigger] te[j]).0),
                forall|k: Seq<char>| #[trigger]
                    changed@.contains_key(k) <==> (wv.contains_key(k) && spec_ignore_verdict(
                        rules,
                        spec_path_join(self.path@, k),
                    ) is Clear && spec_scan_status(tree, wv[k], k) != FileStatus::Unchanged) || (
                    exists|j: int|
                        0 <= j < t && (#[trigger] te[j]).0 == k && !wv.contains_key(k)),
                forall|k: Seq<char>| #[trigger]
                    changed@.contains_key(k) ==> if wv.contains_key(k) {
                        changed@[k] == status_change(spec_scan_status(tree, wv[k], k))
                    } else {
                        changed@[k] == ChangeType::Removed
                    },
            decreases tree_n - t,
        {
            let c = match &commit_opt {
                Some(c) => c,
                None => {
                    proof {
                        assert(false);
                    }
                    unreached()
                },
            };
            let (p, _entry) = c.tree_entry_at(t);
            let ghost changed0 = changed@;
            if !working.contains(p) {
                changed.insert(p.clone(), ChangeType::Removed);
            }
            proof {
                let k_t = te[t as int].0;
                assert forall|k: Seq<char>| #[trigger]
                    changed@.contains_key(k) <==> (wv.contains_key(k) && spec_ignore_verdict(
                        rules,
                        spec_path_join(self.path@, k),
                    ) is Clear && spec_scan_status(tree, wv[k], k) != FileStatus::Unchanged) || (
                    exists|j: int|
                        0 <= j < t + 1 && (#[trigger] te[j]).0 == k && !wv.contains_key(
                            k,
                        )) by {
                    if changed@.contains_key(k) && !changed0.contains_key(k) {
                        assert(te[t as int].0 == k);
                    }
                    if changed0.contains_key(k) && !(wv.contains_key(k) && spec_ignore_verdict(
                        rules,
                        spec_path_join(self.path@, k),
                    ) is Clear && spec_scan_status(tree, wv[k], k) != FileStatus::Unchanged) {
                        let j = choose|j: int|
                            0 <= j < t && (#[trigger] te[j]).0 == k && !wv.contains_key(k);
                        assert(0 <= j < t + 1 && te[j].0 == k);
                    }
                    if exists|j: int|
                        0 <= j < t + 1 && (#[trigger] te[j]).0 == k && !wv.contains_key(k) {
                        let j = choose|j: int|
                            0 <= j < t + 1 && (#[trigger] te[j]).0 == k && !wv.contains_key(k);
                        if j < t {
                        } else {
                            assert(k == k_t && !wv.contains_key(k));
                        }
                        assert(changed@.contains_key(k));
                    }
                }
            }
            t = t + 1;
        }
        proof {
            working.lemma_view();
            assert(changed@ =~= self.changed_files(wv)) by {
                assert forall|k: Seq<char>| #[trigger]
                    changed@.contains_key(k) <==> self.changed_files(wv).contains_key(k) by {
                    if self.changed_files(wv).contains_key(k) {
                        if wv.contains_key(k) {
                        } else {
                            assert(tree.contains_key(k));
                            assert(crate::pathmap::entry_seq_map(te).contains_key(k));
                            let j = choose|j: int| 0 <= j < te.len() && te[j].0 == k;
                        }
                    }
                }
            }
        }
        Ok(changed)
    }
}

/// The views of a list of absolute paths.
pub open spec fn paths_view(paths: Seq<AbsolutePath>) -> Seq<Seq<char>> {
    paths.map(|i: int, p: AbsolutePath| p@)
}

/// Whether a changed file at root-relative path `k` was named by the `add`
/// command: one of the given paths is the file itself or an ancestor
/// directory of it.
pub open spec fn spec_add_matched(k: Seq<char>, root: Seq<char>, pathviews: Seq<Seq<char>>) -> bool {
    exists|j: int|
        0 <= j < pathviews.len() && spec_path_starts_with(
            spec_path_join(root, k),
            #[trigger] pathviews[j],
        )
}

/// Whether an absolute path equals one of the given paths or lies inside
/// one of them.
fn path_matches_any(abs: &AbsolutePath, paths: &Vec<AbsolutePath>) -> (r: bool)
    ensures
        r <==> exists|j: int|
            0 <= j < paths@.len() && spec_path_starts_with(abs@, (#[trigger] paths_view(paths@))[j]),
{
    let n = paths.len();
    let mut i: usize = 0;
    while i < n
        invariant
            i <= n,
            n == paths@.len(),
            forall|j: int|
                0 <= j < i ==> !spec_path_starts_with(abs@, (#[trigger] paths_view(paths@))[j]),
        decreases n - i,
    {
        if abs.starts_with(&paths[i]) {
            proof {
                assert(paths_view(paths@)[i as int] == paths@[i as int]@);
            }
            return true;
        }
        proof {
            assert(paths_view(paths@)[i as int] == paths@[i as int]@);
        }
        i = i + 1;
    }
    false
}

/// The keys `rm` unstages: for a named directory, every scanned file inside
/// it; for a named file, its root-relative path. Only the first `upto`
/// named paths are counted.
pub open spec fn spec_remove_set(
    root: Seq<char>,
    pathviews: Seq<(Seq<char>, bool)>,
    working: Map<Seq<char>, WorkingFileView>,
    upto: int,
) -> Set<Seq<char>> {
    Set::new(
        |k: Seq<char>|
            exists|j: int|
                0 <= j < upto && {
                    let pv = #[trigger] pathviews[j];
                    if pv.1 {
                        working.contains_key(k) && spec_path_starts_with(
                            spec_path_join(root, k),
                            pv.0,
                        )
                    } else {
                        k == crate::paths::spec_strip_path_prefix(pv.0, root)
                    }
                },
    )
}

pub open spec fn remove_paths_view(paths: Seq<(AbsolutePath, bool)>) -> Seq<(Seq<char>, bool)> {
    paths.map(|i: int, p: (AbsolutePath, bool)| (p.0@, p.1))
}

/// The scanned paths among the first `upto` working entries that lie under
/// the directory `dir`.
spec fn spec_dir_partial_set(
    we: Seq<(Seq<char>, crate::worktree::WorkingFileView)>,
    upto: int,
    root: Seq<char>,
    dir: Seq<char>,
) -> Set<Seq<char>> {
    Set::new(
        |k: Seq<char>|
            (exists|m0: int| 0 <= m0 < upto && (#[trigger] we[m0]).0 == k)
                && spec_path_starts_with(spec_path_join(root, k), dir),
    )
}

impl Root {
    /// Stage every changed file that one of the given paths names, either
    /// directly or as an ancestor directory. An unrelated path stages
    /// nothing: a silent no-op, not an error.
    pub fn add(&mut self, paths: &Vec<AbsolutePath>, working: &WorkingTree) -> (r: Result<
        (),
        GustError,
    >)
        requires
            old(self).wf(),
            working.wf(),
        ensures
            final(self).wf(),
            final(self).path == old(self).path,
            final(self).head == old(self).head,
            final(self).ignored_files == old(self).ignored_files,
            final(self).commits == old(self).commits,
            final(self).blobs == old(self).blobs,
            r is Ok <==> old(self).head_resolvable() && spec_no_inside_ignored(
                working@,
                rules_view(old(self).ignored_files@),
                old(self).path@,
            ),
            r is Ok ==> final(self).staging_area@ == Map::<Seq<char>, ChangeType>::new(
                |k: Seq<char>|
                    old(self).staging_area@.contains_key(k) || (old(self).changed_files(
                        working@,
                    ).contains_key(k) && spec_add_matched(k, old(self).path@, paths_view(paths@))),
                |k: Seq<char>|
                    if old(self).changed_files(working@).contains_key(k) && spec_add_matched(
                        k,
                        old(self).path@,
                        paths_view(paths@),
                    ) {
                        old(self).changed_files(working@)[k]
                    } else {
                        old(self).staging_area@[k]
                    },
            ),
            r is Err ==> final(self).staging_area@ == old(self).staging_area@,
    {
        let changed = match self.get_changed_files(working) {
            Ok(c) => c,
            Err(e) => {
                return Err(e);
            },
        };
        let ghost cm = changed@;
        let ghost ce = changed.entries_view();
        let ghost st0 = self.staging_area@;
        let ghost pvs = paths_view(paths@);
        let n = changed.len();
        let mut i: usize = 0;
        while i < n
            invariant
                i <= n,
                n == ce.len(),
                ce == changed.entries_view(),
                cm == changed@,
                changed.wf(),
                self.staging_area.wf(),
                self.path == old(self).path,
                self.head == old(self).head,
                self.ignored_files == old(self).ignored_files,
                self.commits == old(self).commits,
                self.blobs == old(self).blobs,
                pvs == paths_view(paths@),
                forall|k: Seq<char>| #[trigger]
                    self.staging_area@.contains_key(k) <==> st0.contains_key(k) || (exists|j: int|
                        0 <= j < i && (#[trigger] ce[j]).0 == k && spec_add_matched(
                            k,
                            self.path@,
                            pvs,
                        )),
                forall|k: Seq<char>| #[trigger]
                    self.staging_area@.contains_key(k) ==> self.staging_area@[k] == if (exists|
                        j: int,
                    |
                        0 <= j < i && (#[trigger] ce[j]).0 == k && spec_add_matched(
                            k,
                            self.path@,
                            pvs,
                        )) {
                        cm[k]
                    } else {
                        st0[k]
                    },
            decreases n - i,
        {
            let (p, c) = changed.entry_at(i);
            proof {
                changed.lemma_view();
            }
            let abs = self.path.join_path(p);
            let ghost stb = self.staging_area@;
            if path_matches_any(&abs, paths) {
                self.staging_area.insert(p.clone(), *c);
            }
            proof {
                let k_i = ce[i as int].0;
                assert(cm.contains_key(k_i) && cm[k_i] == ce[i as int].1);
                assert forall|k: Seq<char>| #[trigger]
                    self.staging_area@.contains_key(k) <==> st0.contains_key(k) || (exists|j: int|
                        0 <= j < i + 1 && (#[trigger] ce[j]).0 == k && spec_add_matched(
                            k,
                            self.path@,
                            pvs,
                        )) by {
                    if self.staging_area@.contains_key(k) && !stb.contains_key(k) {
                        assert(ce[i as int].0 == k && spec_add_matched(k, self.path@, pvs));
                    }
                    if stb.contains_key(k) && !st0.contains_key(k) {
                        let j = choose|j: int|
                            0 <= j < i && (#[trigger] ce[j]).0 == k && spec_add_matched(
                                k,
                                self.path@,
                                pvs,
                            );
                        assert(0 <= j < i + 1 && ce[j].0 == k);
                    }
                    if exists|j: int|
                        0 <= j < i + 1 && (#[trigger] ce[j]).0 == k && spec_add_matched(
                            k,
                            self.path@,
                            pvs,
                        ) {
                        let j = choose|j: int|
                            0 <= j < i + 1 && (#[trigger] ce[j]).0 == k && spec_add_matched(
                                k,
                                self.path@,
                                pvs,
                            );
                        if j < i {
                            assert(stb.contains_key(k));
                        } else {
                            assert(k == k_i && spec_add_matched(k, self.path@, pvs));
                            assert(self.staging_area@.contains_key(k));
                        }
                    }
                }
            }
            i = i + 1;
        }
        proof {
            changed.lemma_view();
            assert(self.staging_area@ =~= Map::<Seq<char>, ChangeType>::new(
                |k: Seq<char>|
                    st0.contains_key(k) || (cm.contains_key(k) && spec_add_matched(
                        k,
                        self.path@,
                        pvs,
                    )),
                |k: Seq<char>|
                    if cm.contains_key(k) && spec_add_matched(k, self.path@, pvs) {
                        cm[k]
                    } else {
                        st0[k]
                    },
            )) by {
                assert forall|k: Seq<char>| #[trigger]
                    self.staging_area@.contains_key(k) <==> (st0.contains_key(k) || (
                    cm.contains_key(k) && spec_add_matched(k, self.path@, pvs))) by {
                    if cm.contains_key(k) && spec_add_matched(k, self.path@, pvs) {
                        let j = choose|j: int| 0 <= j < ce.len() && (#[trigger] ce[j]).0 == k;
                    }
                    if self.staging_area@.contains_key(k) && !st0.contains_key(k) {
                        let j = choose|j: int|
                            0 <= j < n && (#[trigger] ce[j]).0 == k && spec_add_matched(
                                k,
                                self.path@,
                                pvs,
                            );
                        assert(cm.contains_key(k));
                    }
                }
            }
        }
        Ok(())
    }

    /// Unstage every path the command names, expanding a directory to the
    /// scanned files inside it. Unstaging a path that is not staged is a
    /// no-op; a path outside the repository is refused.
    pub fn remove(&mut self, paths: &Vec<(AbsolutePath, bool)>, working: &WorkingTree) -> (r:
        Result<(), GustError>)
        requires
            old(self).wf(),
            working.wf(),
        ensures
            final(self).wf(),
            final(self).path == old(self).path,
            final(self).head == old(self).head,
            final(self).ignored_files == old(self).ignored_files,
            final(self).commits == old(self).commits,
            final(self).blobs == old(self).blobs,
            r is Ok <==> forall|j: int|
                0 <= j < paths@.len() ==> spec_path_starts_with(
                    (#[trigger] remove_paths_view(paths@)[j]).0,
                    old(self).path@,
                ),
            r is Ok ==> final(self).staging_area@ == old(self).staging_area@.remove_keys(
                spec_remove_set(
                    old(self).path@,
                    remove_paths_view(paths@),
                    working@,
                    paths@.len() as int,
                ),
            ),
            r is Err ==> exists|i: int|
                0 <= i < paths@.len() && !spec_path_starts_with(
                    (#[trigger] remove_paths_view(paths@)[i]).0,
                    old(self).path@,
                ) && (forall|j: int|
                    0 <= j < i ==> spec_path_starts_with(
                        (#[trigger] remove_paths_view(paths@)[j]).0,
                        old(self).path@,
                    )) && final(self).staging_area@ == old(self).staging_area@.remove_keys(
                    spec_remove_set(old(self).path@, remove_paths_view(paths@), working@, i),
                ),
    {
        let ghost st0 = self.staging_area@;
        let ghost rootv = self.path@;
        let ghost pvs = remove_paths_view(paths@);
        let ghost wv = working@;
        let n = paths.len();
        let mut i: usize = 0;
        while i < n
            invariant
                i <= n,
                n == paths@.len(),
                pvs == remove_paths_view(paths@),
                wv == working@,
                working.wf(),
                self.staging_area.wf(),
                self.commits.wf(),
                self.blobs.wf(),
                self.path == old(self).path,
                self.head == old(self).head,
                self.ignored_files == old(self).ignored_files,
                self.commits == old(self).commits,
                self.blobs == old(self).blobs,
                st0 == old(self).staging_area@,
                rootv == self.path@,
                forall|j: int|
                    0 <= j < i ==> spec_path_starts_with((#[trigger] pvs[j]).0, rootv),
                self.staging_area@ == st0.remove_keys(
                    spec_remove_set(rootv, pvs, wv, i as int),
                ),
            decreases n - i,
        {
            let p = &paths[i].0;
            let is_dir = paths[i].1;
            proof {
                assert(pvs[i as int] == (p@, is_dir));
            }
            if !self.path.is_inside_root(p) {
                let mut m = String::from_str("Path ");
                m.append(p.as_path());
                m.append(" is not a root path");
                proof {
                    assert(!spec_path_starts_with((remove_paths_view(paths@)[i as int]).0, self.path@));
                    assert(forall|j: int|
                        0 <= j < i ==> spec_path_starts_with(
                            (#[trigger] remove_paths_view(paths@)[j]).0,
                            old(self).path@,
                        ));
                }
                return Err(GustError::User(m));
            }
            if is_dir {
                let ghost set_i = spec_remove_set(rootv, pvs, wv, i as int);
                let wn = working.len();
                let ghost we = working.entries();
                proof {
                    assert(set_i.union(spec_dir_partial_set(we, 0, rootv, pvs[i as int].0))
                        =~= set_i);
                }
                let mut w: usize = 0;
                while w < wn
                    invariant
                        w <= wn,
                        wn == we.len(),
                        we == working.entries(),
                        working.wf(),
                        self.staging_area.wf(),
                        self.path == old(self).path,
                        self.head == old(self).head,
                        self.ignored_files == old(self).ignored_files,
                        self.commits == old(self).commits,
                        self.blobs == old(self).blobs,
                        wv == working@,
                        rootv == self.path@,
                        pvs[i as int] == (paths@[i as int].0@, paths@[i as int].1),
                        pvs[i as int].1,
                        p@ == pvs[i as int].0,
                        set_i == spec_remove_set(rootv, pvs, wv, i as int),
                        self.staging_area@ == st0.remove_keys(
                            set_i.union(spec_dir_partial_set(we, w as int, rootv, pvs[i as int].0)),
                        ),
                    decreases wn - w,
                {
                    let (wp, _wf) = working.entry_at(w);
                    proof {
                        working.lemma_view();
                    }
                    let abs = self.path.join_path(wp);
                    let ghost stb = self.staging_area@;
                    if abs.starts_with(p) {
                        self.staging_area.remove(wp);
                    }
                    proof {
                        let k_w = we[w as int].0;
                        let wset0 = spec_dir_partial_set(we, w as int, rootv, pvs[i as int].0);
                        let wset1 = spec_dir_partial_set(we, w + 1, rootv, pvs[i as int].0);
                        let matched = spec_path_starts_with(
                            spec_path_join(rootv, k_w),
                            pvs[i as int].0,
                        );
                        assert forall|k: Seq<char>| #[trigger]
                            wset1.contains(k) <==> wset0.contains(k) || (k == k_w && matched) by {
                            if wset1.contains(k) {
                                let m0 = choose|m0: int|
                                    0 <= m0 < w + 1 && (#[trigger] we[m0]).0 == k;
                                if m0 < w {
                                    assert(wset0.contains(k));
                                }
                            }
                            if wset0.contains(k) {
                                let m0 = choose|m0: int|
                                    0 <= m0 < w && (#[trigger] we[m0]).0 == k;
                                assert(0 <= m0 < w + 1 && we[m0].0 == k);
                                assert(wset1.contains(k));
                            }
                            if k == k_w && matched {
                                assert(we[w as int].0 == k);
                                assert(wset1.contains(k));
                            }
                        }
                        if matched {
                            assert(set_i.union(wset1) =~= set_i.union(wset0).insert(k_w));
                            assert(self.staging_area@ == st0.remove_keys(set_i.union(wset0)).remove(
                                k_w,
                            ));
                            assert(st0.remove_keys(set_i.union(wset0)).remove(k_w)
                                =~= st0.remove_keys(set_i.union(wset0).insert(k_w)));
                            assert(self.staging_area@ =~= st0.remove_keys(set_i.union(wset1)));
                        } else {
                            assert(wset1 =~= wset0);
                            assert(set_i.union(wset1) == set_i.union(wset0));
                            assert(self.staging_area@ == st0.remove_keys(set_i.union(wset0)));
                            assert(self.staging_area@ =~= st0.remove_keys(set_i.union(wset1)));
                        }
                    }
                    w = w + 1;
                }
                proof {
                    working.lemma_view();
                    assert(self.staging_area@ =~= st0.remove_keys(
                        spec_remove_set(rootv, pvs, wv, i + 1),
                    )) by {
                        assert forall|k: Seq<char>| #[trigger]
                            spec_remove_set(rootv, pvs, wv, i + 1).contains(k) <==> set_i.union(
                                spec_dir_partial_set(we, wn as int, rootv, pvs[i as int].0),
                            ).contains(k) by {
                            if spec_remove_set(rootv, pvs, wv, i + 1).contains(k) {
                                let j = choose|j: int|
                                    0 <= j < i + 1 && {
                                        let pv = #[trigger] pvs[j];
                                        if pv.1 {
                                            wv.contains_key(k) && spec_path_starts_with(
                                                spec_path_join(rootv, k),
                                                pv.0,
                                            )
                                        } else {
                                            k == crate::paths::spec_strip_path_prefix(
                                                pv.0,
                                                rootv,
                                            )
                                        }
                                    };
                                if j < i {
                                    assert(set_i.contains(k));
                                } else {
                                    assert(wv.contains_key(k));
                                    let m0 = choose|m0: int|
                                        0 <= m0 < we.len() && (#[trigger] we[m0]).0 == k;
                                }
                            }
                            if set_i.contains(k) {
                                let j = choose|j: int|
                                    0 <= j < i && {
                                        let pv = #[trigger] pvs[j];
                                        if pv.1 {
                                            wv.contains_key(k) && spec_path_starts_with(
                                                spec_path_join(rootv, k),
                                                pv.0,
                                            )
                                        } else {
                                            k == crate::paths::spec_strip_path_prefix(
                                                pv.0,
                                                rootv,
                                            )
                                        }
                                    };
                                assert(spec_remove_set(rootv, pvs, wv, i + 1).contains(k));
                            }
                            if spec_dir_partial_set(we, wn as int, rootv, pvs[i as int].0).contains(
                                k,
                            ) {
                                let m0 = choose|m0: int|
                                    0 <= m0 < wn && (#[trigger] we[m0]).0 == k;
                                assert(wv.contains_key(k));
                                assert(spec_remove_set(rootv, pvs, wv, i + 1).contains(k));
                            }
                        }
                    }
                }
            } else {
                let rel = match RootRelativePath::new(p, &self.path) {
                    Ok(rel) => rel,
                    Err(_) => {
                        proof {
                            assert(false);
                        }
                        unreached()
                    },
                };
                self.staging_area.remove(&rel);
                proof {
                    assert(self.staging_area@ =~= st0.remove_keys(
                        spec_remove_set(rootv, pvs, wv, i + 1),
                    )) by {
                        assert forall|k: Seq<char>|
                            spec_remove_set(rootv, pvs, wv, i + 1).contains(k) <==> (
                            spec_remove_set(rootv, pvs, wv, i as int).contains(k) || k
                                == rel@) by {
                            if spec_remove_set(rootv, pvs, wv, i + 1).contains(k) {
                                let j = choose|j: int|
                                    0 <= j < i + 1 && {
                                        let pv = #[trigger] pvs[j];
                                        if pv.1 {
                                            wv.contains_key(k) && spec_path_starts_with(
                                                spec_path_join(rootv, k),
                                                pv.0,
                                            )
                                        } else {
                                            k == crate::paths::spec_strip_path_prefix(
                                                pv.0,
                                                rootv,
                                            )
                                        }
                                    };
                                if j < i {
                                    assert(spec_remove_set(
                                        self.path@,
                                        pvs,
                                        wv,
                                        i as int,
                                    ).contains(k));
                                }
                            }
                            if spec_remove_set(rootv, pvs, wv, i as int).contains(k) {
                                let j = choose|j: int|
                                    0 <= j < i && {
                                        let pv = #[trigger] pvs[j];
                                        if pv.1 {
                                            wv.contains_key(k) && spec_path_starts_with(
                                                spec_path_join(rootv, k),
                                                pv.0,
                                            )
                                        } else {
                                            k == crate::paths::spec_strip_path_prefix(
                                                pv.0,
                                                rootv,
                                            )
                                        }
                                    };
                                assert(spec_remove_set(rootv, pvs, wv, i + 1).contains(k));
                            }
                            if k == rel@ {
                                assert(pvs[i as int].1 == false);
                                assert(k == crate::paths::spec_strip_path_prefix(
                                    pvs[i as int].0,
                                    rootv,
                                ));
                                assert(spec_remove_set(rootv, pvs, wv, i + 1).contains(k));
                            }
                        }
                    }
                }
            }
            i = i + 1;
        }
        Ok(())
    }
}


/// The tree of records as views: what the commit will say of each path.
pub open spec fn tree_view(m: Map<Seq<char>, TrackedFile>) -> Map<Seq<char>, TrackedFileView> {
    m.map_values(|t: TrackedFile| t@)
}

/// A staged addition or modification can only be committed while its file
/// still exists in the working directory.
pub open spec fn spec_staged_present(
    staged: Map<Seq<char>, ChangeType>,
    working: Map<Seq<char>, WorkingFileView>,
) -> bool {
    forall|k: Seq<char>| #[trigger]
        staged.contains_key(k) && staged[k] != ChangeType::Removed ==> working.contains_key(k)
}

/// The tree of the next commit: the current tree with every staged change
/// applied. A staged removal deletes the path; a staged addition or
/// modification records the file as it stands in the working directory.
pub open spec fn spec_apply_staged(
    tree: Map<Seq<char>, TrackedFileView>,
    staged: Map<Seq<char>, ChangeType>,
    working: Map<Seq<char>, WorkingFileView>,
) -> Map<Seq<char>, TrackedFileView> {
    Map::new(
        |k: Seq<char>|
            (tree.contains_key(k) || (staged.contains_key(k) && staged[k]
                != ChangeType::Removed)) && !(staged.contains_key(k) && staged[k]
                == ChangeType::Removed),
        |k: Seq<char>|
            if staged.contains_key(k) && staged[k] != ChangeType::Removed {
                TrackedFileView {
                    blob_id: digest_of(working[k].content),
                    metadata: working[k].metadata,
                }
            } else {
                tree[k]
            },
    )
}

/// What a successful commit does to the repository state: the staged changes
/// become a new commit whose reference is appended to the current log, the
/// staging area is cleared, and every staged file's bytes are stored as a
/// blob. Commits and blobs only ever grow.
pub open spec fn spec_commit_transition(
    pre: Root,
    post: Root,
    message: Seq<char>,
    working: Map<Seq<char>, WorkingFileView>,
) -> bool {
    let new_tree = spec_apply_staged(pre.head_tree(), pre.staging_area@, working);
    let id = post.head.log().last().commit_id@;
    &&& post.staging_area@ =~= Map::<Seq<char>, ChangeType>::empty()
    &&& post.head.log().len() == pre.head.log().len() + 1
    &&& post.head.log().drop_last() == pre.head.log()
    &&& post.head.log().last().metadata@ == message
    &&& post.commits@.contains_key(id)
    &&& (exists|te: Seq<(Seq<char>, TrackedFileView)>|
        crate::pathmap::entry_seq_sorted(te) && crate::pathmap::entry_seq_map(te) == new_tree
            && id == digest_of(vstd::utf8::encode_utf8(
            #[trigger] crate::commit::spec_encode_commit(te, message),
        )))
    &&& (!pre.commits@.contains_key(id) ==> post.commits@ == pre.commits@.insert(
        id,
        CommitView { tree: new_tree, message },
    ))
    &&& (pre.commits@.contains_key(id) ==> post.commits@ == pre.commits@)
    &&& (pre.head matches Head::Attached(b) ==> (post.head matches Head::Attached(b2) && b2.name@
        == b.name@))
    &&& (pre.head matches Head::Detached(d) ==> (post.head matches Head::Detached(d2)
        && d2.passed_hash@ == d.passed_hash@))
    &&& (forall|d: Seq<char>| #[trigger]
        pre.blobs@.contains_key(d) ==> post.blobs@.contains_key(d) && post.blobs@[d]
            == pre.blobs@[d])
    &&& (forall|k: Seq<char>| #[trigger]
        pre.staging_area@.contains_key(k) && pre.staging_area@[k] != ChangeType::Removed
            ==> post.blobs@.contains_key(digest_of(working[k].content)))
}

impl Root {
    /// Snapshot the staging area into a new commit: build the new tree from
    /// the current one by applying every staged change, store the commit
    /// under the digest of its serialized form, append a reference to the
    /// current log, and clear the staging area.
    pub fn commit(&mut self, message: String, working: &WorkingTree) -> (r: Result<(), GustError>)
        requires
            old(self).wf(),
            working.wf(),
        ensures
            final(self).wf(),
            final(self).path == old(self).path,
            final(self).ignored_files == old(self).ignored_files,
            r is Ok <==> old(self).head_resolvable() && spec_staged_present(
                old(self).staging_area@,
                working@,
            ),
            r is Ok ==> spec_commit_transition(*old(self), *final(self), message@, working@),
            r is Err ==> final(self).staging_area == old(self).staging_area && final(self).head
                == old(self).head && final(self).commits == old(self).commits,
            r is Err ==> forall|d: Seq<char>| #[trigger]
                old(self).blobs@.contains_key(d) ==> final(self).blobs@.contains_key(d)
                    && final(self).blobs@[d] == old(self).blobs@[d],
    {
        let ghost st = self.staging_area@;
        let ghost sv = self.staging_area.entries();
        let ghost wv = working@;
        let ghost tree0 = self.head_tree();
        let ghost blobs0 = self.blobs@;
        let prev = match Commit::from_commit_ref_option(self.head.get_tree(), &self.commits) {
            Ok(c) => c,
            Err(e) => {
                return Err(e);
            },
        };
        let mut tree: PathMap<TrackedFile> = match &prev {
            Some(c) => c.copy_tree(),
            None => PathMap::new(),
        };
        proof {
            self.staging_area.lemma_view();
            match &prev {
                Some(c) => {
                    assert(c.tree_map() == tree0);
                    assert(tree_view(tree@) =~= tree0);
                },
                None => {
                    assert(tree_view(tree@) =~= tree0);
                },
            }
        }
        let n = self.staging_area.len();
        let mut i: usize = 0;
        while i < n
            invariant
                i <= n,
                n == sv.len(),
                sv == self.staging_area.entries(),
                st == self.staging_area@,
                wv == working@,
                working.wf(),
                tree.wf(),
                self.staging_area.wf(),
                self.commits.wf(),
                self.blobs.wf(),
                self.path == old(self).path,
                self.head == old(self).head,
                self.ignored_files == old(self).ignored_files,
                self.commits == old(self).commits,
                self.staging_area == old(self).staging_area,
                blobs0 == old(self).blobs@,
                forall|j: int|
                    0 <= j < sv.len() ==> st.contains_key((#[trigger] sv[j]).0) && st[sv[j].0]
                        == sv[j].1,
                forall|j: int|
                    0 <= j < i && (#[trigger] sv[j]).1 != ChangeType::Removed ==> wv.contains_key(
                        sv[j].0,
                    ),
                forall|d: Seq<char>| #[trigger]
                    blobs0.contains_key(d) ==> self.blobs@.contains_key(d) && self.blobs@[d]
                        == blobs0[d],
                forall|j: int|
                    0 <= j < i && (#[trigger] sv[j]).1 != ChangeType::Removed
                        ==> self.blobs@.contains_key(digest_of(wv[sv[j].0].content)),
                forall|k: Seq<char>| #[trigger]
                    tree_view(tree@).contains_key(k) <==> ((
                    tree0.contains_key(k) || (exists|j: int|
                        0 <= j < i && (#[trigger] sv[j]).0 == k && sv[j].1 != ChangeType::Removed))
                        && !(exists|j: int|
                        0 <= j < i && (#[trigger] sv[j]).0 == k && sv[j].1 == ChangeType::Removed)),
                forall|k: Seq<char>| #[trigger]
                    tree_view(tree@).contains_key(k)
                        ==> tree_view(tree@)[k] == if (exists|j: int|
                        0 <= j < i && (#[trigger] sv[j]).0 == k && sv[j].1 != ChangeType::Removed) {
                        TrackedFileView {
                            blob_id: digest_of(wv[k].content),
                            metadata: wv[k].metadata,
                        }
                    } else {
                        tree0[k]
                    },
            decreases n - i,
        {
            let (p, c) = self.staging_area.entry_at(i);
            proof {
                self.staging_area.lemma_view();
            }
            let ghost treeb = tree_view(tree@);
            let ghost k_i = sv[i as int].0;
            match c {
                ChangeType::Removed => {
                    tree.remove(p);
                    proof {
                        assert(tree_view(tree@) =~= treeb.remove(k_i));
                    }
                },
                _ => {
                    let p_owned = p.clone();
                    let f = match working.get(p) {
                        Some(f) => f,
                        None => {
                            let mut m = String::from_str("File not found in working tree: ");
                            m.append(p_owned.as_str());
                            return Err(GustError::Io(m));
                        },
                    };
                    let tf = TrackedFile::new(&f.content, f.metadata, &mut self.blobs);
                    tree.insert(p_owned, tf);
                    proof {
                        assert(tree_view(tree@) =~= treeb.insert(
                            k_i,
                            TrackedFileView {
                                blob_id: digest_of(wv[k_i].content),
                                metadata: wv[k_i].metadata,
                            },
                        ));
                    }
                },
            }
            proof {
                let tv = tree_view(tree@);
                assert forall|k: Seq<char>| #[trigger]
                    tv.contains_key(k) <==> ((tree0.contains_key(k) || (exists|j: int|
                        0 <= j < i + 1 && (#[trigger] sv[j]).0 == k && sv[j].1
                            != ChangeType::Removed)) && !(exists|j: int|
                        0 <= j < i + 1 && (#[trigger] sv[j]).0 == k && sv[j].1
                            == ChangeType::Removed)) by {
                    if k != k_i {
                        assert(tv.contains_key(k) <==> treeb.contains_key(k));
                        assert forall|j: int|
                            0 <= j < i + 1 && (#[trigger] sv[j]).0 == k implies j < i by {
                            if j == i {
                                assert(sv[j].0 == k_i);
                            }
                        }
                    } else {
                        assert(sv[i as int].0 == k && 0 <= i < i + 1);
                        assert forall|j: int|
                            0 <= j < i + 1 && (#[trigger] sv[j]).0 == k implies j == i by {
                            if j < i {
                                crate::strutil::lemma_lex_lt_total(sv[j].0, sv[i as int].0);
                                assert(crate::strutil::lex_lt(sv[j].0, sv[i as int].0));
                            }
                        }
                    }
                }
            }
            i = i + 1;
        }
        proof {
            self.staging_area.lemma_view();
            assert(tree_view(tree@) =~= spec_apply_staged(tree0, st, wv)) by {
                assert forall|k: Seq<char>|
                    (exists|j: int|
                        0 <= j < sv.len() && (#[trigger] sv[j]).0 == k && sv[j].1
                            != ChangeType::Removed) <==> (st.contains_key(k) && st[k]
                    != ChangeType::Removed) by {
                    if st.contains_key(k) {
                        let j = choose|j: int| 0 <= j < sv.len() && (#[trigger] sv[j]).0 == k;
                        assert(st[k] == sv[j].1);
                    }
                    if exists|j: int|
                        0 <= j < sv.len() && (#[trigger] sv[j]).0 == k && sv[j].1
                            != ChangeType::Removed {
                        let j = choose|j: int|
                            0 <= j < sv.len() && (#[trigger] sv[j]).0 == k && sv[j].1
                                != ChangeType::Removed;
                        assert(st.contains_key(k) && st[k] == sv[j].1);
                    }
                }
                assert forall|k: Seq<char>|
                    (exists|j: int|
                        0 <= j < sv.len() && (#[trigger] sv[j]).0 == k && sv[j].1
                            == ChangeType::Removed) <==> (st.contains_key(k) && st[k]
                    == ChangeType::Removed) by {
                    if st.contains_key(k) {
                        let j = choose|j: int| 0 <= j < sv.len() && (#[trigger] sv[j]).0 == k;
                        assert(st[k] == sv[j].1);
                    }
                    if exists|j: int|
                        0 <= j < sv.len() && (#[trigger] sv[j]).0 == k && sv[j].1
                            == ChangeType::Removed {
                        let j = choose|j: int|
                            0 <= j < sv.len() && (#[trigger] sv[j]).0 == k && sv[j].1
                                == ChangeType::Removed;
                        assert(st.contains_key(k) && st[k] == sv[j].1);
                    }
                }
            }
            assert(spec_staged_present(st, wv)) by {
                assert forall|k: Seq<char>| #[trigger]
                    st.contains_key(k) && st[k] != ChangeType::Removed implies wv.contains_key(
                    k,
                ) by {
                    let j = choose|j: int| 0 <= j < sv.len() && (#[trigger] sv[j]).0 == k;
                    assert(sv[j].1 == st[k]);
                }
            }
        }
        let metadata = CommitMetadata::new(message);
        let ref_metadata = metadata.clone();
        let commit = Commit::new(tree, metadata);
        let id = commit.compute_id();
        let ghost commit_view = commit@;
        let ghost commit_entries = commit.entries();
        let id_for_ref = id.clone();
        self.commits.insert(id, commit);
        let commit_ref = CommitRef::from_parts(id_for_ref, ref_metadata);
        self.head.insert_commit(commit_ref);
        self.staging_area.clear();
        proof {
            assert(final(self).head.log().drop_last() =~= old(self).head.log());
            assert(crate::pathmap::entry_seq_sorted(commit_entries)
                && crate::pathmap::entry_seq_map(commit_entries) == spec_apply_staged(
                tree0,
                st,
                wv,
            )) by {
                crate::commit::lemma_entry_views(tree.entries_view());
            }
        }
        Ok(())
    }

    /// The history of the current checkout: the heading naming it, then one
    /// line per commit, newest first.
    pub fn info(&self) -> (r: String)
        ensures
            r@ == self.head.spec_display_heading() + crate::branch::spec_log_display(
                crate::branch::log_view(self.head.log()),
            ),
    {
        self.head.display()
    }
}


/// One line of the status report: marker, then path.
pub open spec fn spec_status_line(e: (Seq<char>, ChangeType)) -> Seq<char> {
    "  "@ + e.1.spec_display() + " "@ + e.0 + "\n"@
}

/// The lines of one status section, in entry order.
pub open spec fn spec_status_lines(es: Seq<(Seq<char>, ChangeType)>) -> Seq<char>
    decreases es.len(),
{
    if es.len() == 0 {
        Seq::empty()
    } else {
        spec_status_line(es[0]) + spec_status_lines(es.drop_first())
    }
}

/// One section of the status report: its entries, or the no-changes line.
pub open spec fn spec_status_section(es: Seq<(Seq<char>, ChangeType)>) -> Seq<char> {
    if es.len() == 0 {
        "  No changes\n"@
    } else {
        spec_status_lines(es)
    }
}

/// The whole status report: the staged section, then the unstaged section.
pub open spec fn spec_status_report(
    staged: Seq<(Seq<char>, ChangeType)>,
    unstaged: Seq<(Seq<char>, ChangeType)>,
) -> Seq<char> {
    "Changes to be committed:\n"@ + spec_status_section(staged) + "\nUnstaged changes:\n"@
        + spec_status_section(unstaged)
}

/// The changed files that are not staged: the second section of the report.
pub open spec fn spec_unstaged(
    changed: Map<Seq<char>, ChangeType>,
    staged: Map<Seq<char>, ChangeType>,
) -> Map<Seq<char>, ChangeType> {
    Map::new(
        |k: Seq<char>| changed.contains_key(k) && !staged.contains_key(k),
        |k: Seq<char>| changed[k],
    )
}

proof fn lemma_status_lines_push(es: Seq<(Seq<char>, ChangeType)>, e: (Seq<char>, ChangeType))
    ensures
        spec_status_lines(es.push(e)) == spec_status_lines(es) + spec_status_line(e),
    decreases es.len(),
{
    if es.len() == 0 {
        assert(es.push(e)[0] == e);
        assert(es.push(e).drop_first() =~= es);
        assert(spec_status_lines(es) == Seq::<char>::empty());
        assert(spec_status_lines(es.push(e)) =~= spec_status_lines(es) + spec_status_line(e));
    } else {
        assert(es.push(e)[0] == es[0]);
        assert(es.push(e).drop_first() =~= es.drop_first().push(e));
        lemma_status_lines_push(es.drop_first(), e);
        assert(spec_status_lines(es.push(e)) =~= spec_status_lines(es) + spec_status_line(e));
    }
}

/// Append one status section to the report being built.
fn push_status_section(out: &mut String, es: &PathMap<ChangeType>)
    requires
        es.wf(),
    ensures
        final(out)@ == old(out)@ + spec_status_section(es.entries_view()),
{
    let n = es.len();
    if n == 0 {
        out.append("  No changes\n");
        return ;
    }
    let ghost base = out@;
    proof {
        assert(es.entries_view().take(0) =~= Seq::<(Seq<char>, ChangeType)>::empty());
        assert(out@ =~= base + spec_status_lines(es.entries_view().take(0)));
    }
    let mut i: usize = 0;
    while i < n
        invariant
            i <= n,
            n == es.spec_len(),
            n > 0,
            es.wf(),
            out@ == base + spec_status_lines(es.entries_view().take(i as int)),
        decreases n - i,
    {
        let (p, c) = es.entry_at(i);
        let ghost before = out@;
        out.append("  ");
        out.append(c.display());
        out.append(" ");
        out.append(p.as_str());
        out.append("\n");
        proof {
            let e = es.entries_view()[i as int];
            assert(out@ =~= before + spec_status_line(e));
            assert(es.entries_view().take(i + 1) =~= es.entries_view().take(i as int).push(e));
            lemma_status_lines_push(es.entries_view().take(i as int), e);
            assert(out@ =~= base + spec_status_lines(es.entries_view().take(i + 1)));
        }
        i = i + 1;
    }
    proof {
        assert(es.entries_view().take(n as int) =~= es.entries_view());
    }
}

impl Root {
    /// The status report: first what is staged for the next commit, then the
    /// changed files that are not staged; each section says "No changes"
    /// when it is empty.
    pub fn status(&self, working: &WorkingTree) -> (r: Result<String, GustError>)
        requires
            self.wf(),
            working.wf(),
        ensures
            r is Ok <==> self.head_resolvable() && spec_no_inside_ignored(
                working@,
                rules_view(self.ignored_files@),
                self.path@,
            ),
            r is Ok ==> exists|unstaged: Seq<(Seq<char>, ChangeType)>|
                crate::pathmap::entry_seq_sorted(unstaged) && crate::pathmap::entry_seq_map(
                    unstaged,
                ) == spec_unstaged(self.changed_files(working@), self.staging_area@)
                    && r->Ok_0@ == spec_status_report(self.staging_area.entries(), unstaged),
    {
        let changed = match self.get_changed_files(working) {
            Ok(c) => c,
            Err(e) => {
                return Err(e);
            },
        };
        let ghost cm = changed@;
        let ghost ce = changed.entries_view();
        let ghost stm = self.staging_area@;
        let mut un: PathMap<ChangeType> = PathMap::new();
        let n = changed.len();
        let mut i: usize = 0;
        while i < n
            invariant
                i <= n,
                n == ce.len(),
                ce == changed.entries_view(),
                cm == changed@,
                changed.wf(),
                un.wf(),
                self.staging_area.wf(),
                stm == self.staging_area@,
                forall|k: Seq<char>| #[trigger]
                    un@.contains_key(k) <==> exists|j: int|
                        0 <= j < i && (#[trigger] ce[j]).0 == k && !stm.contains_key(k),
                forall|k: Seq<char>| #[trigger] un@.contains_key(k) ==> un@[k] == cm[k],
            decreases n - i,
        {
            let (p, c) = changed.entry_at(i);
            proof {
                changed.lemma_view();
            }
            let ghost unb = un@;
            if !self.staging_area.contains(p) {
                un.insert(p.clone(), *c);
            }
            proof {
                let k_i = ce[i as int].0;
                assert forall|k: Seq<char>| #[trigger]
                    un@.contains_key(k) <==> exists|j: int|
                        0 <= j < i + 1 && (#[trigger] ce[j]).0 == k && !stm.contains_key(k) by {
                    if un@.contains_key(k) {
                        if k == k_i && !unb.contains_key(k) {
                            assert(ce[i as int].0 == k);
                        } else {
                            assert(unb.contains_key(k));
                            let j = choose|j: int|
                                0 <= j < i && (#[trigger] ce[j]).0 == k && !stm.contains_key(k);
                            assert(0 <= j < i + 1 && ce[j].0 == k);
                        }
                    }
                    if exists|j: int|
                        0 <= j < i + 1 && (#[trigger] ce[j]).0 == k && !stm.contains_key(k) {
                        let j = choose|j: int|
                            0 <= j < i + 1 && (#[trigger] ce[j]).0 == k && !stm.contains_key(k);
                        if j < i {
                            assert(unb.contains_key(k));
                        }
                        assert(un@.contains_key(k));
                    }
                }
            }
            i = i + 1;
        }
        proof {
            changed.lemma_view();
            assert(un@ =~= spec_unstaged(cm, stm)) by {
                assert forall|k: Seq<char>| #[trigger]
                    un@.contains_key(k) <==> spec_unstaged(cm, stm).contains_key(k) by {
                    if cm.contains_key(k) && !stm.contains_key(k) {
                        let j = choose|j: int| 0 <= j < ce.len() && (#[trigger] ce[j]).0 == k;
                    }
                    if un@.contains_key(k) {
                        let j = choose|j: int|
                            0 <= j < n && (#[trigger] ce[j]).0 == k && !stm.contains_key(k);
                        assert(cm.contains_key(k));
                    }
                }
            }
        }
        let mut out = String::from_str("Changes to be committed:\n");
        push_status_section(&mut out, &self.staging_area.files);
        out.append("\nUnstaged changes:\n");
        push_status_section(&mut out, &un);
        proof {
            assert(out@ =~= spec_status_report(self.staging_area.entries(), un.entries_view()));
        }
        Ok(out)
    }
}


/// Law of a clean commit: stage every pending change, commit, and touch
/// nothing on disk; then nothing is pending any more, so both sections of
/// the status report say "No changes".
pub proof fn lemma_status_clean_after_commit(
    working: Map<Seq<char>, WorkingFileView>,
    tree: Map<Seq<char>, TrackedFileView>,
    rules: Seq<IgnoredFileView>,
    root: Seq<char>,
)
    ensures
        ({
            let staged = spec_changed_files(working, tree, rules, root);
            let new_tree = spec_apply_staged(tree, staged, working);
            spec_changed_files(working, new_tree, rules, root) =~= Map::<
                Seq<char>,
                ChangeType,
            >::empty()
        }),
{
    let staged = spec_changed_files(working, tree, rules, root);
    let new_tree = spec_apply_staged(tree, staged, working);
    let changed2 = spec_changed_files(working, new_tree, rules, root);
    assert forall|k: Seq<char>| !(#[trigger] changed2.contains_key(k)) by {
        if changed2.contains_key(k) {
            if working.contains_key(k) {
                // a scanned, unignored file that still counts as changed
                assert(spec_ignore_verdict(rules, spec_path_join(root, k)) is Clear);
                assert(spec_scan_status(new_tree, working[k], k) != FileStatus::Unchanged);
                if staged.contains_key(k) {
                    // it was staged, so the new tree records it as it stands
                    assert(staged[k] != ChangeType::Removed);
                    assert(new_tree.contains_key(k));
                    assert(new_tree[k].metadata == working[k].metadata);
                    assert(spec_scan_status(new_tree, working[k], k) == FileStatus::Unchanged);
                } else {
                    // it was unchanged before, and the commit kept its record
                    assert(spec_scan_status(tree, working[k], k) == FileStatus::Unchanged);
                    assert(tree.contains_key(k));
                    assert(new_tree.contains_key(k) && new_tree[k] == tree[k]);
                    assert(spec_scan_status(new_tree, working[k], k) == FileStatus::Unchanged);
                }
            } else {
                // a path of the new tree with no file on disk
                assert(new_tree.contains_key(k));
                if staged.contains_key(k) {
                    assert(staged[k] == ChangeType::Removed);
                    assert(!new_tree.contains_key(k));
                } else {
                    assert(tree.contains_key(k));
                    assert(staged.contains_key(k));
                }
            }
        }
    }
    assert(changed2 =~= Map::<Seq<char>, ChangeType>::empty());
}

} // verus!
