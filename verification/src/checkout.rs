use vstd::prelude::*;

use crate::commit::{Commit, CommitRef};
use crate::error::GustError;
use crate::pathmap::PathMap;
use crate::paths::{AbsolutePath, RootRelativePath};
use crate::root::{tree_view, Root};
use crate::strutil::is_prefix;
use crate::tracked_file::{TrackedFile, TrackedFileView};
use crate::worktree::{WorkingFileView, WorkingTree};

verus! {

/// Which kind of target a checkout names when the operator says so
/// explicitly.
#[derive(PartialEq, Eq, Structural, Clone, Copy, Debug)]
pub enum CheckoutMode {
    Branch,
    Commit,
}

/// How resolving a commit-hash prefix can fail: no stored commit id starts
/// with it, several do, or an unrelated error interfered.
#[derive(Debug)]
pub enum CommitCheckoutError {
    CommitNotFound,
    MultipleCommitsFound(Vec<String>),
    NormalError(GustError),
}

/// The text listing the candidates of an ambiguous prefix.
pub open spec fn spec_ids_listing(ids: Seq<String>) -> Seq<char>
    decreases ids.len(),
{
    if ids.len() == 0 {
        Seq::empty()
    } else {
        "\n"@ + ids[0]@ + spec_ids_listing(ids.drop_first())
    }
}

/// Write the candidates of an ambiguous prefix, one per line.
fn push_ids_listing(out: &mut String, ids: &Vec<String>)
    ensures
        final(out)@ == old(out)@ + spec_ids_listing(ids@),
{
    let n = ids.len();
    let ghost base = out@;
    proof {
        assert(ids@.take(0) =~= Seq::<String>::empty());
        assert(out@ =~= base + spec_ids_listing(ids@.take(0)));
    }
    let mut i: usize = 0;
    while i < n
        invariant
            i <= n,
            n == ids@.len(),
            out@ == base + spec_ids_listing(ids@.take(i as int)),
        decreases n - i,
    {
        let ghost before = out@;
        out.append("\n");
        out.append(ids[i].as_str());
        proof {
            lemma_ids_listing_push(ids@.take(i as int), ids@[i as int]);
            assert(ids@.take(i + 1) =~= ids@.take(i as int).push(ids@[i as int]));
            assert(out@ =~= base + spec_ids_listing(ids@.take(i + 1)));
        }
        i = i + 1;
    }
    proof {
        assert(ids@.take(n as int) =~= ids@);
    }
}

proof fn lemma_ids_listing_push(ids: Seq<String>, x: String)
    ensures
        spec_ids_listing(ids.push(x)) == spec_ids_listing(ids) + ("\n"@ + x@),
    decreases ids.len(),
{
    if ids.len() == 0 {
        assert(ids.push(x)[0] == x);
        assert(ids.push(x).drop_first() =~= ids);
        assert(spec_ids_listing(ids) == Seq::<char>::empty());
        assert(spec_ids_listing(ids.push(x)) =~= spec_ids_listing(ids) + ("\n"@ + x@));
    } else {
        assert(ids.push(x)[0] == ids[0]);
        assert(ids.push(x).drop_first() =~= ids.drop_first().push(x));
        lemma_ids_listing_push(ids.drop_first(), x);
        assert(spec_ids_listing(ids.push(x)) =~= spec_ids_listing(ids) + ("\n"@ + x@));
    }
}

impl CommitCheckoutError {
    /// The operator-facing error this resolution failure becomes.
    pub fn into_gust_error(self) -> (r: GustError)
        ensures
            match self {
                CommitCheckoutError::CommitNotFound => r matches GustError::User(m) && m@
                    == "Commit not found"@,
                CommitCheckoutError::MultipleCommitsFound(ids) => r matches GustError::User(m)
                    && m@ == "Multiple commits found"@ + spec_ids_listing(ids@),
                CommitCheckoutError::NormalError(e) => r == e,
            },
    {
        match self {
            CommitCheckoutError::CommitNotFound => GustError::User(
                String::from_str("Commit not found"),
            ),
            CommitCheckoutError::MultipleCommitsFound(ids) => {
                let mut m = String::from_str("Multiple commits found");
                push_ids_listing(&mut m, &ids);
                GustError::User(m)
            },
            CommitCheckoutError::NormalError(e) => e,
        }
    }
}

/// One step of bringing the working directory to a target tree: delete a
/// file the tree does not hold, or write a file with the tree's content for
/// it.
#[derive(Debug)]
pub enum WorkAction {
    Delete(RootRelativePath),
    WriteFile(RootRelativePath, Vec<u8>),
}

pub enum WorkActionView {
    Delete(Seq<char>),
    WriteFile(Seq<char>, Seq<u8>),
}

impl View for WorkAction {
    type V = WorkActionView;

    open spec fn view(&self) -> WorkActionView {
        match self {
            WorkAction::Delete(p) => WorkActionView::Delete(p@),
            WorkAction::WriteFile(p, c) => WorkActionView::WriteFile(p@, c@),
        }
    }
}

pub open spec fn actions_view(actions: Seq<WorkAction>) -> Seq<WorkActionView> {
    actions.map(|i: int, a: WorkAction| a@)
}

/// The deletions of a reconciliation: every scanned file whose path the
/// target tree does not hold, in scan order.
pub open spec fn spec_delete_actions(
    we: Seq<(Seq<char>, WorkingFileView)>,
    tree: Map<Seq<char>, TrackedFileView>,
) -> Seq<WorkActionView>
    decreases we.len(),
{
    if we.len() == 0 {
        Seq::empty()
    } else {
        (if !tree.contains_key(we[0].0) {
            seq![WorkActionView::Delete(we[0].0)]
        } else {
            Seq::empty()
        }) + spec_delete_actions(we.drop_first(), tree)
    }
}

/// The writes of a reconciliation: every target entry becomes a write of its
/// blob's bytes, in tree order. Unconditional replacement: no diffing.
pub open spec fn spec_write_actions(
    te: Seq<(Seq<char>, TrackedFileView)>,
    blobs: Map<Seq<char>, Seq<u8>>,
) -> Seq<WorkActionView>
    decreases te.len(),
{
    if te.len() == 0 {
        Seq::empty()
    } else {
        seq![WorkActionView::WriteFile(te[0].0, blobs[te[0].1.blob_id])] + spec_write_actions(
            te.drop_first(),
            blobs,
        )
    }
}

proof fn lemma_delete_actions_push(
    we: Seq<(Seq<char>, WorkingFileView)>,
    e: (Seq<char>, WorkingFileView),
    tree: Map<Seq<char>, TrackedFileView>,
)
    ensures
        spec_delete_actions(we.push(e), tree) == spec_delete_actions(we, tree) + (
        if !tree.contains_key(e.0) {
            seq![WorkActionView::Delete(e.0)]
        } else {
            Seq::empty()
        }),
    decreases we.len(),
{
    let tail = if !tree.contains_key(e.0) {
        seq![WorkActionView::Delete(e.0)]
    } else {
        Seq::<WorkActionView>::empty()
    };
    if we.len() == 0 {
        assert(we.push(e)[0] == e);
        assert(we.push(e).drop_first() =~= we);
        assert(spec_delete_actions(we, tree) == Seq::<WorkActionView>::empty());
        assert(spec_delete_actions(we.push(e), tree) =~= spec_delete_actions(we, tree) + tail);
    } else {
        assert(we.push(e)[0] == we[0]);
        assert(we.push(e).drop_first() =~= we.drop_first().push(e));
        lemma_delete_actions_push(we.drop_first(), e, tree);
        assert(spec_delete_actions(we.push(e), tree) =~= spec_delete_actions(we, tree) + tail);
    }
}

proof fn lemma_write_actions_push(
    te: Seq<(Seq<char>, TrackedFileView)>,
    e: (Seq<char>, TrackedFileView),
    blobs: Map<Seq<char>, Seq<u8>>,
)
    ensures
        spec_write_actions(te.push(e), blobs) == spec_write_actions(te, blobs) + seq![
            WorkActionView::WriteFile(e.0, blobs[e.1.blob_id]),
        ],
    decreases te.len(),
{
    let tail = seq![WorkActionView::WriteFile(e.0, blobs[e.1.blob_id])];
    if te.len() == 0 {
        assert(te.push(e)[0] == e);
        assert(te.push(e).drop_first() =~= te);
        assert(spec_write_actions(te, blobs) == Seq::<WorkActionView>::empty());
        assert(spec_write_actions(te.push(e), blobs) =~= spec_write_actions(te, blobs) + tail);
    } else {
        assert(te.push(e)[0] == te[0]);
        assert(te.push(e).drop_first() =~= te.drop_first().push(e));
        lemma_write_actions_push(te.drop_first(), e, blobs);
        assert(spec_write_actions(te.push(e), blobs) =~= spec_write_actions(te, blobs) + tail);
    }
}

/// Every blob a tree refers to is stored; reconciliation fails otherwise.
pub open spec fn spec_tree_blobs_present(
    te: Seq<(Seq<char>, TrackedFileView)>,
    blobs: Map<Seq<char>, Seq<u8>>,
) -> bool {
    forall|j: int| 0 <= j < te.len() ==> blobs.contains_key((#[trigger] te[j]).1.blob_id)
}

impl Root {
    /// Resolve a commit-hash prefix the operator typed to the one stored
    /// commit id that starts with it. No match and several matches are
    /// distinct failures; an ambiguity reports every candidate.
    pub fn get_full_commit_hash(&self, partial_hash: &str) -> (r: Result<
        String,
        CommitCheckoutError,
    >)
        requires
            self.wf(),
        ensures
            match r {
                Ok(id) => self.commits@.contains_key(id@) && is_prefix(partial_hash@, id@) && (
                forall|k: Seq<char>| #[trigger]
                    self.commits@.contains_key(k) && is_prefix(partial_hash@, k) ==> k == id@),
                Err(e) => match e {
                    CommitCheckoutError::CommitNotFound => forall|k: Seq<char>| #[trigger]
                        self.commits@.contains_key(k) ==> !is_prefix(partial_hash@, k),
                    CommitCheckoutError::MultipleCommitsFound(ids) => ids@.len() >= 2 && (forall|
                        j: int,
                    |
                        0 <= j < ids@.len() ==> self.commits@.contains_key((#[trigger] ids@[j])@)
                            && is_prefix(partial_hash@, ids@[j]@)) && (forall|j1: int, j2: int|
                        0 <= j1 < j2 < ids@.len() ==> ids@[j1]@ != ids@[j2]@) && (forall|
                        k: Seq<char>,
                    | #[trigger]
                        self.commits@.contains_key(k) && is_prefix(partial_hash@, k) ==> exists|
                            j: int,
                        | 0 <= j < ids@.len() && ids@[j]@ == k),
                    CommitCheckoutError::NormalError(_) => false,
                },
            },
    {
        let found_commit_hashes = self.commits.matching_ids(partial_hash);
        if found_commit_hashes.len() == 0 {
            proof {
                assert forall|k: Seq<char>| #[trigger]
                    self.commits@.contains_key(k) implies !is_prefix(partial_hash@, k) by {
                    if is_prefix(partial_hash@, k) {
                        let j = choose|j: int|
                            0 <= j < found_commit_hashes@.len() && found_commit_hashes@[j]@ == k;
                    }
                }
            }
            Err(CommitCheckoutError::CommitNotFound)
        } else if found_commit_hashes.len() == 1 {
            let id = found_commit_hashes[0].clone();
            proof {
                assert forall|k: Seq<char>| #[trigger]
                    self.commits@.contains_key(k) && is_prefix(partial_hash@, k) implies k
                    == id@ by {
                    let j = choose|j: int|
                        0 <= j < found_commit_hashes@.len() && found_commit_hashes@[j]@ == k;
                    assert(j == 0);
                }
            }
            Ok(id)
        } else {
            Err(CommitCheckoutError::MultipleCommitsFound(found_commit_hashes))
        }
    }

    /// Compute the steps that bring the working directory to the target
    /// tree: delete every scanned file the tree does not hold, then write
    /// every tree entry's blob content into place, replacing whatever is
    /// there. A tree entry whose blob is missing from the store means the
    /// project records are inconsistent.
    pub fn apply_changes_to_working_tree(
        &self,
        target_tree: &PathMap<TrackedFile>,
        working: &WorkingTree,
    ) -> (r: Result<Vec<WorkAction>, GustError>)
        requires
            self.wf(),
            working.wf(),
            target_tree.wf(),
        ensures
            r is Ok <==> spec_tree_blobs_present(
                target_tree.entries_view().map(
                    |i: int, e: (Seq<char>, TrackedFile)| (e.0, e.1@),
                ),
                self.blobs@,
            ),
            r is Ok ==> actions_view(r->Ok_0@) == spec_delete_actions(
                working.entries(),
                tree_view(target_tree@),
            ) + spec_write_actions(
                target_tree.entries_view().map(
                    |i: int, e: (Seq<char>, TrackedFile)| (e.0, e.1@),
                ),
                self.blobs@,
            ),
            r is Err ==> r->Err_0 matches GustError::ProjectParsing(_),
    {
        let ghost tv = tree_view(target_tree@);
        let ghost te = target_tree.entries_view().map(
            |i: int, e: (Seq<char>, TrackedFile)| (e.0, e.1@),
        );
        let ghost we = working.entries();
        let mut actions: Vec<WorkAction> = Vec::new();
        let n = working.len();
        proof {
            assert(we.take(0) =~= Seq::<(Seq<char>, WorkingFileView)>::empty());
            assert(actions_view(actions@) =~= spec_delete_actions(we.take(0), tv));
        }
        let mut i: usize = 0;
        while i < n
            invariant
                i <= n,
                n == we.len(),
                we == working.entries(),
                working.wf(),
                target_tree.wf(),
                tv == tree_view(target_tree@),
                actions_view(actions@) == spec_delete_actions(we.take(i as int), tv),
            decreases n - i,
        {
            let (p, _f) = working.entry_at(i);
            let ghost before = actions_view(actions@);
            if !target_tree.contains(p) {
                proof {
                    assert(!tv.contains_key(we[i as int].0));
                }
                actions.push(WorkAction::Delete(p.clone()));
                proof {
                    assert(actions_view(actions@) =~= before.push(
                        WorkActionView::Delete(we[i as int].0),
                    ));
                }
            } else {
                proof {
                    assert(tv.contains_key(we[i as int].0));
                }
            }
            proof {
                lemma_delete_actions_push(we.take(i as int), we[i as int], tv);
                assert(we.take(i + 1) =~= we.take(i as int).push(we[i as int]));
                assert(actions_view(actions@) =~= spec_delete_actions(we.take(i + 1), tv));
            }
            i = i + 1;
        }
        proof {
            assert(we.take(n as int) =~= we);
        }
        let ghost deletes = actions_view(actions@);
        let tn = target_tree.len();
        proof {
            assert(te.take(0) =~= Seq::<(Seq<char>, TrackedFileView)>::empty());
            assert(actions_view(actions@) =~= deletes + spec_write_actions(te.take(0), self.blobs@));
        }
        let mut t: usize = 0;
        while t < tn
            invariant
                t <= tn,
                tn == te.len(),
                te == target_tree.entries_view().map(
                    |i: int, e: (Seq<char>, TrackedFile)| (e.0, e.1@),
                ),
                target_tree.wf(),
                self.wf(),
                deletes == spec_delete_actions(we, tv),
                we == working.entries(),
                tv == tree_view(target_tree@),
                actions_view(actions@) == deletes + spec_write_actions(
                    te.take(t as int),
                    self.blobs@,
                ),
                forall|j: int|
                    0 <= j < t ==> self.blobs@.contains_key((#[trigger] te[j]).1.blob_id),
            decreases tn - t,
        {
            let (p, entry) = target_tree.entry_at(t);
            proof {
                assert(te[t as int].0 == target_tree.entries_view()[t as int].0);
                assert(te[t as int].1 == target_tree.entries_view()[t as int].1@);
            }
            let content = match self.blobs.get(entry.get_blob_id()) {
                Ok(c) => c,
                Err(e) => {
                    proof {
                        assert(!self.blobs@.contains_key(te[t as int].1.blob_id));
                    }
                    return Err(e);
                },
            };
            let ghost before = actions_view(actions@);
            let content_copy = content.clone();
            proof {
                assert(content_copy@ =~= content@);
            }
            actions.push(WorkAction::WriteFile(p.clone(), content_copy));
            proof {
                assert(actions_view(actions@) =~= before.push(
                    WorkActionView::WriteFile(
                        te[t as int].0,
                        self.blobs@[te[t as int].1.blob_id],
                    ),
                ));
                lemma_write_actions_push(te.take(t as int), te[t as int], self.blobs@);
                assert(te.take(t + 1) =~= te.take(t as int).push(te[t as int]));
                assert(actions_view(actions@) =~= deletes + spec_write_actions(
                    te.take(t + 1),
                    self.blobs@,
                ));
            }
            t = t + 1;
        }
        proof {
            assert(te.take(tn as int) =~= te);
        }
        Ok(actions)
    }
}


/// What a checkout hands back: the working-directory steps to run, and the
/// stale record to delete once the new head is durably written (the old
/// detached log's record, when there was one).
#[derive(Debug)]
pub struct CheckoutEffect {
    pub actions: Vec<WorkAction>,
    pub cleanup: Option<AbsolutePath>,
}

/// The tree at a branch's tip: empty while the branch has no commit.
pub open spec fn spec_branch_tree(
    log: Seq<CommitRef>,
    commits: Map<Seq<char>, crate::commit::CommitView>,
) -> Map<Seq<char>, TrackedFileView> {
    if log.len() == 0 {
        Map::empty()
    } else {
        commits[log.last().commit_id@].tree
    }
}

/// A tree's blob references are all stored exactly when every entry of its
/// sorted form names a stored blob.
proof fn lemma_tree_blobs_present_bridge(
    te: Seq<(Seq<char>, TrackedFileView)>,
    tree: Map<Seq<char>, TrackedFileView>,
    blobs: Map<Seq<char>, Seq<u8>>,
)
    requires
        crate::pathmap::entry_seq_sorted(te),
        crate::pathmap::entry_seq_map(te) == tree,
    ensures
        spec_tree_blobs_present(te, blobs) <==> spec_tree_map_blobs_present(tree, blobs),
{
    crate::pathmap::lemma_entry_seq_map_props(te);
    if spec_tree_blobs_present(te, blobs) {
        assert forall|k: Seq<char>| #[trigger]
            tree.contains_key(k) implies blobs.contains_key(tree[k].blob_id) by {
            let j = choose|j: int| 0 <= j < te.len() && (#[trigger] te[j]).0 == k;
            assert(te[j].1 == tree[k]);
        }
    }
    if spec_tree_map_blobs_present(tree, blobs) {
        assert forall|j: int| 0 <= j < te.len() implies blobs.contains_key(
            (#[trigger] te[j]).1.blob_id,
        ) by {
            assert(tree.contains_key(te[j].0) && tree[te[j].0] == te[j].1);
        }
    }
}

/// Exactly one stored commit id starts with the prefix.
pub open spec fn spec_unique_prefix_match(
    commits: Map<Seq<char>, crate::commit::CommitView>,
    prefix: Seq<char>,
) -> bool {
    exists|id: Seq<char>|
        {
            &&& #[trigger] commits.contains_key(id)
            &&& is_prefix(prefix, id)
            &&& forall|k: Seq<char>| #[trigger]
                commits.contains_key(k) && is_prefix(prefix, k) ==> k == id
        }
}

/// Whether every record of a tree names a stored blob.
pub open spec fn spec_tree_map_blobs_present(
    tree: Map<Seq<char>, TrackedFileView>,
    blobs: Map<Seq<char>, Seq<u8>>,
) -> bool {
    forall|k: Seq<char>| #[trigger]
        tree.contains_key(k) ==> blobs.contains_key(tree[k].blob_id)
}

/// When a branch checkout can succeed: the target record exists, its tip's
/// commit (if any) is stored, and every blob its tree refers to is stored.
pub open spec fn spec_branch_checkout_ok(
    commits: Map<Seq<char>, crate::commit::CommitView>,
    blobs: Map<Seq<char>, Seq<u8>>,
    target: Option<crate::branch::Branch>,
) -> bool {
    target matches Some(b) && (b.log().len() > 0 ==> commits.contains_key(
        b.log().last().commit_id@,
    )) && spec_tree_map_blobs_present(spec_branch_tree(b.log(), commits), blobs)
}

/// When a commit checkout can succeed: the prefix names exactly one stored
/// commit, and every blob of that commit's tree is stored.
pub open spec fn spec_commit_checkout_ok(
    commits: Map<Seq<char>, crate::commit::CommitView>,
    blobs: Map<Seq<char>, Seq<u8>>,
    prefix: Seq<char>,
) -> bool {
    exists|id: Seq<char>|
        {
            &&& #[trigger] commits.contains_key(id)
            &&& is_prefix(prefix, id)
            &&& (forall|k: Seq<char>| #[trigger]
                commits.contains_key(k) && is_prefix(prefix, k) ==> k == id)
            &&& spec_tree_map_blobs_present(commits[id].tree, blobs)
        }
}

/// With no stored id matching the prefix, a commit checkout cannot succeed.
proof fn lemma_commit_checkout_needs_match(
    commits: Map<Seq<char>, crate::commit::CommitView>,
    blobs: Map<Seq<char>, Seq<u8>>,
    prefix: Seq<char>,
)
    requires
        forall|k: Seq<char>| #[trigger] commits.contains_key(k) ==> !is_prefix(prefix, k),
    ensures
        !spec_commit_checkout_ok(commits, blobs, prefix),
{
    if spec_commit_checkout_ok(commits, blobs, prefix) {
        let id = choose|id: Seq<char>|
            {
                &&& #[trigger] commits.contains_key(id)
                &&& is_prefix(prefix, id)
                &&& (forall|k: Seq<char>| #[trigger]
                    commits.contains_key(k) && is_prefix(prefix, k) ==> k == id)
                &&& spec_tree_map_blobs_present(commits[id].tree, blobs)
            };
        assert(commits.contains_key(id));
    }
}

/// With two distinct stored ids matching the prefix, a commit checkout
/// cannot succeed.
proof fn lemma_commit_checkout_needs_unique(
    commits: Map<Seq<char>, crate::commit::CommitView>,
    blobs: Map<Seq<char>, Seq<u8>>,
    prefix: Seq<char>,
    a: Seq<char>,
    b: Seq<char>,
)
    requires
        commits.contains_key(a),
        is_prefix(prefix, a),
        commits.contains_key(b),
        is_prefix(prefix, b),
        a != b,
    ensures
        !spec_commit_checkout_ok(commits, blobs, prefix),
{
    if spec_commit_checkout_ok(commits, blobs, prefix) {
        let id = choose|id: Seq<char>|
            {
                &&& #[trigger] commits.contains_key(id)
                &&& is_prefix(prefix, id)
                &&& (forall|k: Seq<char>| #[trigger]
                    commits.contains_key(k) && is_prefix(prefix, k) ==> k == id)
                &&& spec_tree_map_blobs_present(commits[id].tree, blobs)
            };
        assert(a == id && b == id);
    }
}

/// The reconciliation steps a checkout to `tree` must hand back: the
/// deletions in scan order, then a write per tree entry in tree order.
pub open spec fn spec_reconcile_actions(
    actions: Seq<WorkAction>,
    working: &WorkingTree,
    tree: Map<Seq<char>, TrackedFileView>,
    blobs: Map<Seq<char>, Seq<u8>>,
) -> bool {
    exists|te: Seq<(Seq<char>, TrackedFileView)>|
        crate::pathmap::entry_seq_sorted(te) && crate::pathmap::entry_seq_map(te) == tree
            && actions_view(actions) == spec_delete_actions(working.entries(), tree)
            + #[trigger] spec_write_actions(te, blobs)
}

/// The cleanup of a checkout away from `pre_head`: nothing, or the old
/// detached record's path.
pub open spec fn spec_checkout_cleanup(
    cleanup: Option<AbsolutePath>,
    pre_head: crate::head::Head,
    root: Seq<char>,
) -> bool {
    match cleanup {
        Some(p) => pre_head matches crate::head::Head::Detached(_) && p@
            == crate::paths::spec_path_join(root, ".gust/branches/DETACHED_HEAD.json"@),
        None => pre_head matches crate::head::Head::Attached(_),
    }
}

impl Root {
    /// Switch the checkout to a named branch: reconcile the working
    /// directory to its tip's tree (empty if it has no commit) and attach
    /// the head to it. The caller passes the branch as loaded from its
    /// record, or nothing when no such record exists.
    pub fn checkout_branch(
        &mut self,
        name: &str,
        target: Option<crate::branch::Branch>,
        working: &WorkingTree,
    ) -> (r: Result<CheckoutEffect, GustError>)
        requires
            old(self).wf(),
            working.wf(),
        ensures
            final(self).wf(),
            final(self).path == old(self).path,
            final(self).ignored_files == old(self).ignored_files,
            final(self).staging_area == old(self).staging_area,
            final(self).commits == old(self).commits,
            final(self).blobs == old(self).blobs,
            r is Err ==> final(self).head == old(self).head,
            target is None ==> (r matches Err(e) && e matches GustError::Io(m) && m@
                == "Branch not found: "@ + name@),
            r is Ok <==> spec_branch_checkout_ok(old(self).commits@, old(self).blobs@, target),
            r is Ok ==> (target matches Some(b) && {
                let tree = spec_branch_tree(b.log(), old(self).commits@);
                &&& (b.log().len() > 0 ==> old(self).commits@.contains_key(
                    b.log().last().commit_id@,
                ))
                &&& final(self).head matches crate::head::Head::Attached(b2) && b2.name@ == b.name@
                    && b2.log() == b.log()
                &&& spec_reconcile_actions(r->Ok_0.actions@, working, tree, old(self).blobs@)
                &&& spec_checkout_cleanup(r->Ok_0.cleanup, old(self).head, old(self).path@)
            }),
    {
        let dest_branch = match target {
            Some(b) => b,
            None => {
                let mut m = String::from_str("Branch not found: ");
                m.append(name);
                return Err(GustError::Io(m));
            },
        };
        let dest_branch_latest = match Commit::from_commit_ref_option(
            dest_branch.get_last_commit_ref(),
            &self.commits,
        ) {
            Ok(c) => c,
            Err(e) => {
                return Err(e);
            },
        };
        let tree: PathMap<TrackedFile> = match &dest_branch_latest {
            Some(c) => c.copy_tree(),
            None => PathMap::new(),
        };
        let ghost target_tree = spec_branch_tree(dest_branch.log(), self.commits@);
        proof {
            match &dest_branch_latest {
                Some(c) => {
                    assert(tree_view(tree@) =~= target_tree);
                },
                None => {
                    assert(tree_view(tree@) =~= target_tree);
                },
            }
        }
        proof {
            crate::commit::lemma_entry_views(tree.entries_view());
            let te = tree.entries_view().map(|i: int, e: (Seq<char>, TrackedFile)| (e.0, e.1@));
            assert(crate::pathmap::entry_seq_map(te) =~= target_tree);
            lemma_tree_blobs_present_bridge(te, target_tree, self.blobs@);
        }
        let actions = match self.apply_changes_to_working_tree(&tree, working) {
            Ok(a) => a,
            Err(e) => {
                return Err(e);
            },
        };
        let cleanup = self.head.handle_checkout(&self.path);
        self.head = crate::head::Head::Attached(dest_branch);
        Ok(CheckoutEffect { actions, cleanup })
    }

    /// Switch the checkout to a commit named by a hash prefix: resolve the
    /// prefix, reconcile the working directory to that commit's tree, and
    /// detach the head onto a fresh log seeded with that commit.
    pub fn checkout_commit(&mut self, partial_hash: &str, working: &WorkingTree) -> (r: Result<
        CheckoutEffect,
        GustError,
    >)
        requires
            old(self).wf(),
            working.wf(),
        ensures
            final(self).wf(),
            final(self).path == old(self).path,
            final(self).ignored_files == old(self).ignored_files,
            final(self).staging_area == old(self).staging_area,
            final(self).commits == old(self).commits,
            final(self).blobs == old(self).blobs,
            r is Err ==> final(self).head == old(self).head,
            (forall|k: Seq<char>| #[trigger]
                old(self).commits@.contains_key(k) ==> !is_prefix(partial_hash@, k)) ==> (
            r matches Err(e) && e matches GustError::User(m) && m@ == "Commit not found"@),
            r is Ok <==> spec_commit_checkout_ok(
                old(self).commits@,
                old(self).blobs@,
                partial_hash@,
            ),
            r is Ok ==> exists|id: Seq<char>|
                {
                    &&& #[trigger] old(self).commits@.contains_key(id)
                    &&& is_prefix(partial_hash@, id)
                    &&& (forall|k: Seq<char>| #[trigger]
                        old(self).commits@.contains_key(k) && is_prefix(partial_hash@, k) ==> k
                            == id)
                    &&& final(self).head matches crate::head::Head::Detached(d) && d.passed_hash@
                        == partial_hash@ && d.log().len() == 1 && d.log()[0].commit_id@ == id
                        && d.log()[0].metadata@ == old(self).commits@[id].message
                    &&& spec_reconcile_actions(
                        r->Ok_0.actions@,
                        working,
                        old(self).commits@[id].tree,
                        old(self).blobs@,
                    )
                    &&& spec_checkout_cleanup(r->Ok_0.cleanup, old(self).head, old(self).path@)
                },
    {
        let full_hash = match self.get_full_commit_hash(partial_hash) {
            Ok(h) => h,
            Err(e) => {
                proof {
                    match &e {
                        CommitCheckoutError::CommitNotFound => {
                            lemma_commit_checkout_needs_match(
                                self.commits@,
                                self.blobs@,
                                partial_hash@,
                            );
                        },
                        CommitCheckoutError::MultipleCommitsFound(ids) => {
                            assert(self.commits@.contains_key(ids@[0]@) && is_prefix(
                                partial_hash@,
                                ids@[0]@,
                            ));
                            assert(self.commits@.contains_key(ids@[1]@) && is_prefix(
                                partial_hash@,
                                ids@[1]@,
                            ));
                            lemma_commit_checkout_needs_unique(
                                self.commits@,
                                self.blobs@,
                                partial_hash@,
                                ids@[0]@,
                                ids@[1]@,
                            );
                        },
                        CommitCheckoutError::NormalError(_) => {
                            assert(false);
                        },
                    }
                }
                return Err(e.into_gust_error());
            },
        };
        let (commit_ref, tree) = match self.commits.get(full_hash.as_str()) {
            Some(commit) => {
                (CommitRef::new_from_existing(commit, full_hash), commit.copy_tree())
            },
            None => {
                proof {
                    assert(false);
                }
                unreached()
            },
        };
        let ghost id = commit_ref.commit_id@;
        proof {
            crate::commit::lemma_entry_views(tree.entries_view());
            let te = tree.entries_view().map(|i: int, e: (Seq<char>, TrackedFile)| (e.0, e.1@));
            assert(crate::pathmap::entry_seq_map(te) =~= self.commits@[id].tree);
            lemma_tree_blobs_present_bridge(te, self.commits@[id].tree, self.blobs@);
        }
        let actions = match self.apply_changes_to_working_tree(&tree, working) {
            Ok(a) => a,
            Err(e) => {
                proof {
                    if spec_commit_checkout_ok(self.commits@, self.blobs@, partial_hash@) {
                        let id2 = choose|id2: Seq<char>|
                            {
                                &&& #[trigger] self.commits@.contains_key(id2)
                                &&& is_prefix(partial_hash@, id2)
                                &&& (forall|k: Seq<char>| #[trigger]
                                    self.commits@.contains_key(k) && is_prefix(
                                        partial_hash@,
                                        k,
                                    ) ==> k == id2)
                                &&& spec_tree_map_blobs_present(
                                    self.commits@[id2].tree,
                                    self.blobs@,
                                )
                            };
                        assert(id2 == id);
                        assert(false);
                    }
                }
                return Err(e);
            },
        };
        let cleanup = self.head.handle_checkout(&self.path);
        let detached_branch = crate::branch::DetachedBranch::new_from_commit_ref(
            commit_ref,
            partial_hash,
        );
        self.head = crate::head::Head::Detached(detached_branch);
        Ok(CheckoutEffect { actions, cleanup })
    }

    /// The checkout command. It is refused outright while anything is
    /// pending in the working directory. An explicit mode goes straight to
    /// its target kind; without one, the name is tried as a branch and as a
    /// commit-hash prefix, and any ambiguity is refused with an instruction
    /// to pass the mode.
    pub fn checkout(
        &mut self,
        checkout_mode: &Option<CheckoutMode>,
        name: &str,
        target_branch: Option<crate::branch::Branch>,
        working: &WorkingTree,
    ) -> (r: Result<CheckoutEffect, GustError>)
        requires
            old(self).wf(),
            working.wf(),
        ensures
            final(self).wf(),
            final(self).path == old(self).path,
            final(self).ignored_files == old(self).ignored_files,
            final(self).staging_area == old(self).staging_area,
            final(self).commits == old(self).commits,
            final(self).blobs == old(self).blobs,
            r is Err ==> final(self).head == old(self).head,
            old(self).head_resolvable() && crate::root::spec_no_inside_ignored(
                working@,
                crate::ignore::rules_view(old(self).ignored_files@),
                old(self).path@,
            ) && (exists|k: Seq<char>| #[trigger]
                old(self).changed_files(working@).contains_key(k)) ==> (r matches Err(e)
                && e matches GustError::User(m) && m@
                == "There are uncommitted changes in the project. Commit or stash them before checking out a branch"@),
            r is Ok ==> forall|k: Seq<char>|
                !(#[trigger] old(self).changed_files(working@).contains_key(k)),
            r is Ok ==> spec_checkout_cleanup(r->Ok_0.cleanup, old(self).head, old(self).path@),
            r is Ok <==> old(self).head_resolvable() && crate::root::spec_no_inside_ignored(
                working@,
                crate::ignore::rules_view(old(self).ignored_files@),
                old(self).path@,
            ) && (forall|k: Seq<char>|
                !(#[trigger] old(self).changed_files(working@).contains_key(k))) && (
            match checkout_mode {
                Some(CheckoutMode::Branch) => spec_branch_checkout_ok(
                    old(self).commits@,
                    old(self).blobs@,
                    target_branch,
                ),
                Some(CheckoutMode::Commit) => spec_commit_checkout_ok(
                    old(self).commits@,
                    old(self).blobs@,
                    name@,
                ),
                None => if target_branch is Some {
                    (forall|k: Seq<char>| #[trigger]
                        old(self).commits@.contains_key(k) ==> !is_prefix(name@, k))
                        && spec_branch_checkout_ok(
                        old(self).commits@,
                        old(self).blobs@,
                        target_branch,
                    )
                } else {
                    spec_commit_checkout_ok(old(self).commits@, old(self).blobs@, name@)
                },
            }),
            old(self).head_resolvable() && crate::root::spec_no_inside_ignored(
                working@,
                crate::ignore::rules_view(old(self).ignored_files@),
                old(self).path@,
            ) && (forall|k: Seq<char>|
                !(#[trigger] old(self).changed_files(working@).contains_key(k)))
                && checkout_mode is None && target_branch is Some && spec_unique_prefix_match(
                old(self).commits@,
                name@,
            ) ==> (r matches Err(e) && e matches GustError::User(m) && m@
                == "Branch has the same name as commit. Specify if you want to checkout a branch or a commit using --mode"@),
            r is Ok ==> (final(self).head matches crate::head::Head::Attached(b2)
                ==> target_branch matches Some(b) && b2.name@ == b.name@ && b2.log() == b.log()
                && spec_reconcile_actions(
                r->Ok_0.actions@,
                working,
                spec_branch_tree(b.log(), old(self).commits@),
                old(self).blobs@,
            )),
            r is Ok ==> (final(self).head matches crate::head::Head::Detached(d) ==> d.passed_hash@
                == name@ && d.log().len() == 1 && old(self).commits@.contains_key(
                d.log()[0].commit_id@,
            ) && is_prefix(name@, d.log()[0].commit_id@) && spec_reconcile_actions(
                r->Ok_0.actions@,
                working,
                old(self).commits@[d.log()[0].commit_id@].tree,
                old(self).blobs@,
            )),
    {
        let changed = match self.get_changed_files(working) {
            Ok(c) => c,
            Err(e) => {
                return Err(e);
            },
        };
        if !changed.is_empty() {
            proof {
                changed.lemma_view();
                assert(changed@.contains_key(changed.entries_view()[0].0));
            }
            return Err(
                GustError::User(
                    String::from_str(
                        "There are uncommitted changes in the project. Commit or stash them before checking out a branch",
                    ),
                ),
            );
        }
        proof {
            assert(forall|k: Seq<char>|
                !(#[trigger] old(self).changed_files(working@).contains_key(k)));
        }
        match checkout_mode {
            Some(CheckoutMode::Branch) => self.checkout_branch(name, target_branch, working),
            Some(CheckoutMode::Commit) => self.checkout_commit(name, working),
            None => {
                let branch_exists = target_branch.is_some();
                let commit_hash = self.get_full_commit_hash(name);
                if branch_exists {
                    match commit_hash {
                        Ok(resolved) => {
                            proof {
                                assert(self.commits@.contains_key(resolved@) && is_prefix(
                                    name@,
                                    resolved@,
                                ));
                            }
                            Err(
                                GustError::User(
                                    String::from_str(
                                        "Branch has the same name as commit. Specify if you want to checkout a branch or a commit using --mode",
                                    ),
                                ),
                            )
                        },
                        Err(CommitCheckoutError::CommitNotFound) => {
                            proof {
                                if spec_unique_prefix_match(self.commits@, name@) {
                                    let id = choose|id: Seq<char>|
                                        {
                                            &&& #[trigger] self.commits@.contains_key(id)
                                            &&& is_prefix(name@, id)
                                            &&& forall|k: Seq<char>| #[trigger]
                                                self.commits@.contains_key(k) && is_prefix(
                                                    name@,
                                                    k,
                                                ) ==> k == id
                                        };
                                    assert(self.commits@.contains_key(id));
                                    assert(false);
                                }
                            }
                            self.checkout_branch(name, target_branch, working)
                        },
                        Err(CommitCheckoutError::MultipleCommitsFound(found)) => {
                            proof {
                                assert(self.commits@.contains_key(found@[0]@) && is_prefix(
                                    name@,
                                    found@[0]@,
                                ));
                                if spec_unique_prefix_match(self.commits@, name@) {
                                    let id = choose|id: Seq<char>|
                                        {
                                            &&& #[trigger] self.commits@.contains_key(id)
                                            &&& is_prefix(name@, id)
                                            &&& forall|k: Seq<char>| #[trigger]
                                                self.commits@.contains_key(k) && is_prefix(
                                                    name@,
                                                    k,
                                                ) ==> k == id
                                        };
                                    assert(self.commits@.contains_key(found@[0]@) && is_prefix(
                                        name@,
                                        found@[0]@,
                                    ));
                                    assert(self.commits@.contains_key(found@[1]@) && is_prefix(
                                        name@,
                                        found@[1]@,
                                    ));
                                    assert(found@[0]@ == id && found@[1]@ == id);
                                    assert(false);
                                }
                            }
                            let mut m = String::from_str(
                                "Branch name matches with multiple commits:",
                            );
                            push_ids_listing(&mut m, &found);
                            m.append(
                                "
Specify if you want to checkout a branch or a commit using --mode",
                            );
                            Err(GustError::User(m))
                        },
                        Err(CommitCheckoutError::NormalError(error)) => Err(error),
                    }
                } else {
                    match commit_hash {
                        Ok(_) => self.checkout_commit(name, working),
                        Err(e) => {
                            proof {
                                match &e {
                                    CommitCheckoutError::CommitNotFound => {
                                        lemma_commit_checkout_needs_match(
                                            self.commits@,
                                            self.blobs@,
                                            name@,
                                        );
                                    },
                                    CommitCheckoutError::MultipleCommitsFound(ids) => {
                                        assert(self.commits@.contains_key(ids@[0]@) && is_prefix(
                                            name@,
                                            ids@[0]@,
                                        ));
                                        assert(self.commits@.contains_key(ids@[1]@) && is_prefix(
                                            name@,
                                            ids@[1]@,
                                        ));
                                        lemma_commit_checkout_needs_unique(
                                            self.commits@,
                                            self.blobs@,
                                            name@,
                                            ids@[0]@,
                                            ids@[1]@,
                                        );
                                    },
                                    CommitCheckoutError::NormalError(_) => {
                                        assert(false);
                                    },
                                }
                            }
                            Err(e.into_gust_error())
                        },
                    }
                }
            },
        }
    }
}


/// The file contents of a working snapshot: bytes by path.
pub open spec fn spec_contents_of(working: Map<Seq<char>, WorkingFileView>) -> Map<
    Seq<char>,
    Seq<u8>,
> {
    working.map_values(|f: WorkingFileView| f.content)
}

/// The disk contents after running reconciliation steps, one by one.
pub open spec fn spec_apply_actions(
    m: Map<Seq<char>, Seq<u8>>,
    actions: Seq<WorkActionView>,
) -> Map<Seq<char>, Seq<u8>>
    decreases actions.len(),
{
    if actions.len() == 0 {
        m
    } else {
        match actions[0] {
            WorkActionView::Delete(k) => spec_apply_actions(m.remove(k), actions.drop_first()),
            WorkActionView::WriteFile(k, c) => spec_apply_actions(
                m.insert(k, c),
                actions.drop_first(),
            ),
        }
    }
}

proof fn lemma_apply_actions_concat(
    m: Map<Seq<char>, Seq<u8>>,
    a: Seq<WorkActionView>,
    b: Seq<WorkActionView>,
)
    ensures
        spec_apply_actions(m, a + b) == spec_apply_actions(spec_apply_actions(m, a), b),
    decreases a.len(),
{
    if a.len() == 0 {
        assert(a + b =~= b);
    } else {
        assert((a + b)[0] == a[0]);
        assert((a + b).drop_first() =~= a.drop_first() + b);
        match a[0] {
            WorkActionView::Delete(k) => {
                lemma_apply_actions_concat(m.remove(k), a.drop_first(), b);
            },
            WorkActionView::WriteFile(k, c) => {
                lemma_apply_actions_concat(m.insert(k, c), a.drop_first(), b);
            },
        }
    }
}

/// The keys the deletions of a reconciliation drop.
spec fn spec_deleted_keys(
    we: Seq<(Seq<char>, WorkingFileView)>,
    tree: Map<Seq<char>, TrackedFileView>,
) -> Set<Seq<char>> {
    Set::new(
        |k: Seq<char>|
            (exists|j: int| 0 <= j < we.len() && (#[trigger] we[j]).0 == k) && !tree.contains_key(
                k,
            ),
    )
}

proof fn lemma_apply_deletes(
    m: Map<Seq<char>, Seq<u8>>,
    we: Seq<(Seq<char>, WorkingFileView)>,
    tree: Map<Seq<char>, TrackedFileView>,
)
    ensures
        spec_apply_actions(m, spec_delete_actions(we, tree)) =~= m.remove_keys(
            spec_deleted_keys(we, tree),
        ),
    decreases we.len(),
{
    if we.len() == 0 {
        assert(spec_delete_actions(we, tree) =~= Seq::<WorkActionView>::empty());
        assert(m.remove_keys(spec_deleted_keys(we, tree)) =~= m);
    } else {
        let k0 = we[0].0;
        let rest = we.drop_first();
        assert forall|k: Seq<char>| #[trigger]
            spec_deleted_keys(rest, tree).contains(k) || (k == k0 && !tree.contains_key(k))
                <==> spec_deleted_keys(we, tree).contains(k) by {
            if spec_deleted_keys(rest, tree).contains(k) {
                let j = choose|j: int| 0 <= j < rest.len() && (#[trigger] rest[j]).0 == k;
                assert(we[j + 1].0 == k);
            }
            if k == k0 && !tree.contains_key(k) {
                assert(we[0].0 == k);
            }
            if spec_deleted_keys(we, tree).contains(k) && k != k0 {
                let j = choose|j: int| 0 <= j < we.len() && (#[trigger] we[j]).0 == k;
                assert(j >= 1);
                assert(rest[j - 1].0 == k);
            }
        }
        if !tree.contains_key(k0) {
            assert(spec_delete_actions(we, tree) == seq![WorkActionView::Delete(k0)]
                + spec_delete_actions(rest, tree));
            lemma_apply_actions_concat(m, seq![WorkActionView::Delete(k0)], spec_delete_actions(rest, tree));
            assert(seq![WorkActionView::Delete(k0)].drop_first()
                =~= Seq::<WorkActionView>::empty());
            assert(spec_apply_actions(m.remove(k0), Seq::<WorkActionView>::empty())
                == m.remove(k0));
            assert(spec_apply_actions(m, seq![WorkActionView::Delete(k0)]) == m.remove(k0));
            lemma_apply_deletes(m.remove(k0), rest, tree);
            assert(m.remove(k0).remove_keys(spec_deleted_keys(rest, tree)) =~= m.remove_keys(
                spec_deleted_keys(we, tree),
            ));
        } else {
            assert(spec_delete_actions(we, tree) == Seq::<WorkActionView>::empty()
                + spec_delete_actions(rest, tree));
            assert(Seq::<WorkActionView>::empty() + spec_delete_actions(rest, tree)
                =~= spec_delete_actions(rest, tree));
            lemma_apply_deletes(m, rest, tree);
            assert(m.remove_keys(spec_deleted_keys(rest, tree)) =~= m.remove_keys(
                spec_deleted_keys(we, tree),
            ));
        }
    }
}

proof fn lemma_apply_writes(
    m: Map<Seq<char>, Seq<u8>>,
    te: Seq<(Seq<char>, TrackedFileView)>,
    blobs: Map<Seq<char>, Seq<u8>>,
)
    requires
        crate::pathmap::entry_seq_sorted(te),
    ensures
        forall|k: Seq<char>| #[trigger]
            spec_apply_actions(m, spec_write_actions(te, blobs)).contains_key(k) <==> (
            m.contains_key(k) || exists|j: int| 0 <= j < te.len() && (#[trigger] te[j]).0 == k),
        forall|j: int|
            0 <= j < te.len() ==> spec_apply_actions(m, spec_write_actions(te, blobs)).contains_key(
                (#[trigger] te[j]).0,
            ) && spec_apply_actions(m, spec_write_actions(te, blobs))[te[j].0]
                == blobs[te[j].1.blob_id],
        forall|k: Seq<char>|
            #![trigger spec_apply_actions(m, spec_write_actions(te, blobs))[k]]
            spec_apply_actions(m, spec_write_actions(te, blobs)).contains_key(k) && !(exists|j: int|
                0 <= j < te.len() && (#[trigger] te[j]).0 == k) ==> m.contains_key(k)
                && spec_apply_actions(m, spec_write_actions(te, blobs))[k] == m[k],
    decreases te.len(),
{
    if te.len() == 0 {
        assert(spec_write_actions(te, blobs) =~= Seq::<WorkActionView>::empty());
    } else {
        let k0 = te[0].0;
        let c0 = blobs[te[0].1.blob_id];
        let rest = te.drop_first();
        let m1 = m.insert(k0, c0);
        assert(spec_write_actions(te, blobs) == seq![WorkActionView::WriteFile(k0, c0)]
            + spec_write_actions(rest, blobs));
        lemma_apply_actions_concat(
            m,
            seq![WorkActionView::WriteFile(k0, c0)],
            spec_write_actions(rest, blobs),
        );
        assert(seq![WorkActionView::WriteFile(k0, c0)].drop_first()
            =~= Seq::<WorkActionView>::empty());
        assert(spec_apply_actions(m1, Seq::<WorkActionView>::empty()) == m1);
        assert(spec_apply_actions(m, seq![WorkActionView::WriteFile(k0, c0)]) == m1);
        assert(crate::pathmap::entry_seq_sorted(rest)) by {
            assert(forall|j: int| 0 <= j < rest.len() ==> rest[j] == te[j + 1]);
        }
        lemma_apply_writes(m1, rest, blobs);
        let result = spec_apply_actions(m, spec_write_actions(te, blobs));
        assert(result == spec_apply_actions(m1, spec_write_actions(rest, blobs)));
        assert(!(exists|j: int| 0 <= j < rest.len() && (#[trigger] rest[j]).0 == k0)) by {
            if exists|j: int| 0 <= j < rest.len() && (#[trigger] rest[j]).0 == k0 {
                let j = choose|j: int| 0 <= j < rest.len() && (#[trigger] rest[j]).0 == k0;
                assert(te[j + 1].0 == k0);
                assert(crate::strutil::lex_lt(te[0].0, te[j + 1].0));
                crate::strutil::lemma_lex_lt_total(te[0].0, te[j + 1].0);
            }
        }
        assert forall|k: Seq<char>| #[trigger]
            result.contains_key(k) <==> (m.contains_key(k) || exists|j: int|
                0 <= j < te.len() && (#[trigger] te[j]).0 == k) by {
            if result.contains_key(k) {
                if m1.contains_key(k) && !m.contains_key(k) {
                    assert(k == k0);
                    assert(te[0].0 == k);
                } else if !m1.contains_key(k) {
                    let j = choose|j: int| 0 <= j < rest.len() && (#[trigger] rest[j]).0 == k;
                    assert(te[j + 1].0 == k);
                }
            }
            if exists|j: int| 0 <= j < te.len() && (#[trigger] te[j]).0 == k {
                let j = choose|j: int| 0 <= j < te.len() && (#[trigger] te[j]).0 == k;
                if j == 0 {
                    assert(m1.contains_key(k));
                } else {
                    assert(rest[j - 1].0 == k);
                }
                assert(result.contains_key(k));
            }
        }
        assert forall|j: int| 0 <= j < te.len() implies result.contains_key((#[trigger] te[j]).0)
            && result[te[j].0] == blobs[te[j].1.blob_id] by {
            if j == 0 {
                assert(result.contains_key(k0) && result[k0] == m1[k0]);
            } else {
                assert(rest[j - 1] == te[j]);
            }
        }
    }
}

/// Law of checkout: the reconciliation steps restore exactly the target
/// tree's file set, and each restored file holds the bytes the blob store
/// keeps for the tree's record of it. No extra files survive, none are
/// missing.
pub proof fn lemma_reconcile_restores_tree(
    working: Map<Seq<char>, WorkingFileView>,
    we: Seq<(Seq<char>, WorkingFileView)>,
    te: Seq<(Seq<char>, TrackedFileView)>,
    tree: Map<Seq<char>, TrackedFileView>,
    blobs: Map<Seq<char>, Seq<u8>>,
)
    requires
        crate::pathmap::entry_seq_sorted(we),
        crate::pathmap::entry_seq_map(we) == working,
        crate::pathmap::entry_seq_sorted(te),
        crate::pathmap::entry_seq_map(te) == tree,
    ensures
        ({
            let result = spec_apply_actions(
                spec_contents_of(working),
                spec_delete_actions(we, tree) + spec_write_actions(te, blobs),
            );
            &&& (forall|k: Seq<char>| #[trigger] result.contains_key(k) <==> tree.contains_key(k))
            &&& (forall|k: Seq<char>| #[trigger]
                tree.contains_key(k) ==> result[k] == blobs[tree[k].blob_id])
        }),
{
    let m = spec_contents_of(working);
    crate::pathmap::lemma_entry_seq_map_props(we);
    crate::pathmap::lemma_entry_seq_map_props(te);
    lemma_apply_actions_concat(m, spec_delete_actions(we, tree), spec_write_actions(te, blobs));
    lemma_apply_deletes(m, we, tree);
    let m1 = m.remove_keys(spec_deleted_keys(we, tree));
    lemma_apply_writes(m1, te, blobs);
    let result = spec_apply_actions(
        m,
        spec_delete_actions(we, tree) + spec_write_actions(te, blobs),
    );
    assert(result == spec_apply_actions(m1, spec_write_actions(te, blobs)));
    assert forall|k: Seq<char>| #[trigger] result.contains_key(k) <==> tree.contains_key(k) by {
        if result.contains_key(k) {
            if m1.contains_key(k) {
                assert(m.contains_key(k));
                assert(working.contains_key(k));
                let j = choose|j: int| 0 <= j < we.len() && (#[trigger] we[j]).0 == k;
                assert(!spec_deleted_keys(we, tree).contains(k));
                assert(tree.contains_key(k));
            } else {
                let j = choose|j: int| 0 <= j < te.len() && (#[trigger] te[j]).0 == k;
                assert(tree.contains_key(te[j].0));
            }
        }
        if tree.contains_key(k) {
            let j = choose|j: int| 0 <= j < te.len() && (#[trigger] te[j]).0 == k;
            assert(result.contains_key(te[j].0));
        }
    }
    assert forall|k: Seq<char>| #[trigger] tree.contains_key(k) implies result[k]
        == blobs[tree[k].blob_id] by {
        let j = choose|j: int| 0 <= j < te.len() && (#[trigger] te[j]).0 == k;
        assert(result.contains_key(te[j].0) && result[te[j].0] == blobs[te[j].1.blob_id]);
        assert(te[j].1 == tree[k]);
    }
}

} // verus!
