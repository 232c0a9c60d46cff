use vstd::prelude::*;

use crate::commit::CommitRef;
use crate::pathmap::Dup;

verus! {

/// What one log entry says: the commit id and the commit message.
pub struct CommitRefView {
    pub commit_id: Seq<char>,
    pub metadata: Seq<char>,
}

impl View for CommitRef {
    type V = CommitRefView;

    open spec fn view(&self) -> CommitRefView {
        CommitRefView { commit_id: self.commit_id@, metadata: self.metadata@ }
    }
}

/// The log as a sequence of entry views, oldest first.
pub open spec fn log_view(commits: Seq<CommitRef>) -> Seq<CommitRefView> {
    commits.map(|i: int, c: CommitRef| c@)
}

/// One line of the history display.
pub open spec fn spec_log_line(c: CommitRefView) -> Seq<char> {
    c.metadata + ": "@ + c.commit_id
}

/// The history display: one line per log entry, newest first, each ended by
/// a line break.
pub open spec fn spec_log_display(log: Seq<CommitRefView>) -> Seq<char>
    decreases log.len(),
{
    if log.len() == 0 {
        Seq::empty()
    } else {
        spec_log_line(log.last()) + "\n"@ + spec_log_display(log.drop_last())
    }
}

/// An append-only ordered log of commit references under a name: the full
/// linear history of the branch, not just its tip.
#[derive(Debug)]
pub struct Branch {
    pub name: String,
    pub commits: Vec<CommitRef>,
}

/// The log Head points at while no branch is checked out: a copy of a
/// commit's history plus the hash the operator asked for. Commits made in
/// this state append here and stay unreachable from any named branch until
/// one is created from it.
#[derive(Debug)]
pub struct DetachedBranch {
    pub passed_hash: String,
    pub commits: Vec<CommitRef>,
}

/// Write the history lines of `commits`, newest first.
fn display_log(commits: &Vec<CommitRef>) -> (r: String)
    ensures
        r@ == spec_log_display(log_view(commits@)),
{
    let mut out = String::new();
    let n = commits.len();
    let mut i: usize = n;
    proof {
        assert(log_view(commits@).take(n as int) =~= log_view(commits@));
    }
    while i > 0
        invariant
            i <= n,
            n == commits@.len(),
            out@ + spec_log_display(log_view(commits@).take(i as int)) == spec_log_display(
                log_view(commits@),
            ),
        decreases i,
    {
        let c = &commits[i - 1];
        let ghost out0 = out@;
        let line = c.display();
        out.append(line.as_str());
        out.append("\n");
        proof {
            reveal_strlit("\n");
            let lv = log_view(commits@);
            assert(lv.take(i as int).last() == commits@[i - 1]@);
            assert(lv.take(i as int).drop_last() =~= lv.take(i - 1));
            assert(spec_log_display(lv.take(i as int)) == spec_log_line(commits@[i - 1]@) + "\n"@
                + spec_log_display(lv.take(i - 1)));
            assert(out@ + spec_log_display(lv.take(i - 1)) =~= out0 + spec_log_display(
                lv.take(i as int),
            ));
        }
        i = i - 1;
    }
    proof {
        assert(log_view(commits@).take(0) =~= Seq::<CommitRefView>::empty());
        assert(out@ + spec_log_display(log_view(commits@).take(0)) =~= out@);
    }
    out
}

/// The last reference of a log, if the log is not empty.
fn last_ref(commits: &Vec<CommitRef>) -> (r: Option<&CommitRef>)
    ensures
        match r {
            Some(c) => commits@.len() > 0 && *c == commits@.last(),
            None => commits@.len() == 0,
        },
{
    if commits.is_empty() {
        None
    } else {
        Some(&commits[commits.len() - 1])
    }
}

/// An independent copy of a log.
fn copy_log(commits: &Vec<CommitRef>) -> (r: Vec<CommitRef>)
    ensures
        r@ == commits@,
{
    let mut out: Vec<CommitRef> = Vec::new();
    let n = commits.len();
    let mut i: usize = 0;
    while i < n
        invariant
            i <= n,
            n == commits@.len(),
            out@ =~= commits@.take(i as int),
        decreases n - i,
    {
        out.push(commits[i].dup());
        proof {
            assert(out@ =~= commits@.take(i + 1));
        }
        i = i + 1;
    }
    proof {
        assert(commits@.take(n as int) =~= commits@);
    }
    out
}

impl Branch {
    /// A named branch over an existing log, as loaded from its record.
    pub fn from_log(name: String, commits: Vec<CommitRef>) -> (r: Self)
        ensures
            r.name@ == name@,
            r.log() == commits@,
    {
        Branch { name, commits }
    }

    /// The log of this branch, oldest first.
    pub open spec fn log(&self) -> Seq<CommitRef> {
        self.commits@
    }

    /// A new branch whose log starts at one commit: how a fork from an
    /// attached head records the branching point.
    pub fn new_from_commit_ref(commit_ref: CommitRef, name: &str) -> (r: Self)
        ensures
            r.name@ == name@,
            r.log().len() == 1,
            r.log()[0] == commit_ref,
    {
        let mut commits: Vec<CommitRef> = Vec::new();
        commits.push(commit_ref);
        Branch { name: name.to_owned(), commits }
    }

    /// A new branch whose log is a full copy of an existing one: how a fork
    /// from a detached head keeps every commit made while detached.
    pub fn new_from_tree(tree: &Vec<CommitRef>, name: &str) -> (r: Self)
        ensures
            r.name@ == name@,
            r.log() == tree@,
    {
        Branch { name: name.to_owned(), commits: copy_log(tree) }
    }

    /// A new branch with an empty log.
    pub fn new_empty(name: &str) -> (r: Self)
        ensures
            r.name@ == name@,
            r.log().len() == 0,
    {
        let r = Branch { name: name.to_owned(), commits: Vec::new() };
        r
    }

    /// The reference this branch's tip points at, if any commit was made.
    pub fn get_last_commit_ref(&self) -> (r: Option<&CommitRef>)
        ensures
            match r {
                Some(c) => self.log().len() > 0 && *c == self.log().last(),
                None => self.log().len() == 0,
            },
    {
        last_ref(&self.commits)
    }

    /// Append a reference: a branch log only ever grows at its end.
    pub fn insert(&mut self, commit_ref: CommitRef)
        ensures
            final(self).log() == old(self).log().push(commit_ref),
            final(self).name@ == old(self).name@,
    {
        self.commits.push(commit_ref);
    }

    /// The history of this branch, newest first.
    pub fn display(&self) -> (r: String)
        ensures
            r@ == spec_log_display(log_view(self.log())),
    {
        display_log(&self.commits)
    }

    pub fn log_len(&self) -> (r: usize)
        ensures
            r == self.log().len(),
    {
        self.commits.len()
    }

    pub fn log_at(&self, i: usize) -> (r: &CommitRef)
        requires
            i < self.log().len(),
        ensures
            *r == self.log()[i as int],
    {
        &self.commits[i]
    }

    /// An independent copy of this branch.
    pub fn duplicate(&self) -> (r: Self)
        ensures
            r.name@ == self.name@,
            r.log() == self.log(),
    {
        Branch { name: self.name.clone(), commits: copy_log(&self.commits) }
    }
}

impl DetachedBranch {
    /// A detached log over existing records.
    pub fn from_log(passed_hash: String, commits: Vec<CommitRef>) -> (r: Self)
        ensures
            r.passed_hash@ == passed_hash@,
            r.log() == commits@,
    {
        DetachedBranch { passed_hash, commits }
    }

    pub open spec fn log(&self) -> Seq<CommitRef> {
        self.commits@
    }

    /// A fresh detached log seeded with the commit the operator checked out,
    /// remembering the hash they passed.
    pub fn new_from_commit_ref(commit_ref: CommitRef, passed_hash: &str) -> (r: Self)
        ensures
            r.passed_hash@ == passed_hash@,
            r.log().len() == 1,
            r.log()[0] == commit_ref,
    {
        let mut commits: Vec<CommitRef> = Vec::new();
        commits.push(commit_ref);
        DetachedBranch { passed_hash: passed_hash.to_owned(), commits }
    }

    pub fn get_last_commit_ref(&self) -> (r: Option<&CommitRef>)
        ensures
            match r {
                Some(c) => self.log().len() > 0 && *c == self.log().last(),
                None => self.log().len() == 0,
            },
    {
        last_ref(&self.commits)
    }

    /// Append a reference to the detached log.
    pub fn insert(&mut self, commit_ref: CommitRef)
        ensures
            final(self).log() == old(self).log().push(commit_ref),
            final(self).passed_hash@ == old(self).passed_hash@,
    {
        self.commits.push(commit_ref);
    }

    /// The history of the detached log, newest first.
    pub fn display(&self) -> (r: String)
        ensures
            r@ == spec_log_display(log_view(self.log())),
    {
        display_log(&self.commits)
    }

    /// The full log, for materializing a named branch from it.
    pub fn commits(&self) -> (r: &Vec<CommitRef>)
        ensures
            r@ == self.log(),
    {
        &self.commits
    }

    pub fn log_len(&self) -> (r: usize)
        ensures
            r == self.log().len(),
    {
        self.commits.len()
    }

    pub fn log_at(&self, i: usize) -> (r: &CommitRef)
        requires
            i < self.log().len(),
        ensures
            *r == self.log()[i as int],
    {
        &self.commits[i]
    }
}

} // verus!
