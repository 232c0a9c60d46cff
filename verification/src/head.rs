use vstd::prelude::*;

use crate::branch::{log_view, spec_log_display, Branch, DetachedBranch};
use crate::commit::CommitRef;
use crate::paths::{spec_path_join, AbsolutePath, RootPath};

verus! {

/// The current checkout pointer: on a named branch, or directly at a commit.
/// It decides where new commits append and what the current tree is.
#[derive(Debug)]
pub enum Head {
    Attached(Branch),
    Detached(DetachedBranch),
}

/// The persisted form of Head: the branch name when attached, a bare marker
/// when detached (the detached log has its own record under a fixed key).
#[derive(Debug)]
pub enum StoredHead {
    Attached(String),
    Detached,
}

impl Default for StoredHead {
    /// A fresh repository starts attached to `main`.
    fn default() -> (r: Self)
        ensures
            r matches StoredHead::Attached(n) && n@ == "main"@,
    {
        StoredHead::Attached(String::from_str("main"))
    }
}

impl Head {
    /// The log of whatever is checked out, oldest first.
    pub open spec fn log(&self) -> Seq<CommitRef> {
        match self {
            Head::Attached(branch) => branch.log(),
            Head::Detached(branch) => branch.log(),
        }
    }

    /// The reference to the commit whose tree is currently checked out: the
    /// last entry of the current log, if any commit exists.
    pub fn get_tree(&self) -> (r: Option<&CommitRef>)
        ensures
            match r {
                Some(c) => self.log().len() > 0 && *c == self.log().last(),
                None => self.log().len() == 0,
            },
    {
        match self {
            Head::Attached(branch) => branch.get_last_commit_ref(),
            Head::Detached(branch) => branch.get_last_commit_ref(),
        }
    }

    /// Whether no branch is checked out. A caller warns the operator before
    /// committing in this state: the commits stay unreachable from any named
    /// branch until one is created.
    pub fn is_detached(&self) -> (r: bool)
        ensures
            r <==> self matches Head::Detached(_),
    {
        match self {
            Head::Attached(_) => false,
            Head::Detached(_) => true,
        }
    }

    /// Append a commit reference to the current log, attached or not.
    pub fn insert_commit(&mut self, commit_ref: CommitRef)
        ensures
            final(self).log() == old(self).log().push(commit_ref),
            *old(self) matches Head::Attached(ob) ==> (*final(self) matches Head::Attached(b)
                && b.name@ == ob.name@),
            *old(self) matches Head::Detached(od) ==> (*final(self) matches Head::Detached(d)
                && d.passed_hash@ == od.passed_hash@),
    {
        match self {
            Head::Attached(branch) => branch.insert(commit_ref),
            Head::Detached(branch) => branch.insert(commit_ref),
        }
    }

    /// The heading of the history display for the current checkout.
    pub open spec fn spec_display_heading(&self) -> Seq<char> {
        match self {
            Head::Attached(branch) => "Commit history of "@ + branch.name@ + " branch:\n"@,
            Head::Detached(branch) => "Commit history of detached HEAD(commit "@
                + branch.passed_hash@ + "):\n"@,
        }
    }

    /// The history display: a heading naming the checkout, then one line per
    /// commit, newest first.
    pub fn display(&self) -> (r: String)
        ensures
            r@ == self.spec_display_heading() + spec_log_display(log_view(self.log())),
    {
        match self {
            Head::Attached(branch) => {
                let mut s = String::from_str("Commit history of ");
                s.append(branch.name.as_str());
                s.append(" branch:\n");
                let body = branch.display();
                s.append(body.as_str());
                proof {
                    assert(s@ =~= self.spec_display_heading() + spec_log_display(
                        log_view(self.log()),
                    ));
                }
                s
            },
            Head::Detached(branch) => {
                let mut s = String::from_str("Commit history of detached HEAD(commit ");
                s.append(branch.passed_hash.as_str());
                s.append("):\n");
                let body = branch.display();
                s.append(body.as_str());
                proof {
                    assert(s@ =~= self.spec_display_heading() + spec_log_display(
                        log_view(self.log()),
                    ));
                }
                s
            },
        }
    }

    /// The cleanup a checkout away from this head must run once the new head
    /// is durably written: an attached head leaves nothing behind, a
    /// detached head's record under its fixed key must be deleted.
    pub fn handle_checkout(&self, root_path: &RootPath) -> (r: Option<AbsolutePath>)
        ensures
            match r {
                Some(p) => self matches Head::Detached(_) && p@ == spec_path_join(
                    root_path@,
                    ".gust/branches/DETACHED_HEAD.json"@,
                ),
                None => self matches Head::Attached(_),
            },
    {
        match self {
            Head::Attached(_) => None,
            Head::Detached(_) => Some(root_path.join(".gust/branches/DETACHED_HEAD.json")),
        }
    }

    /// The persisted form of this head.
    pub fn into_stored(&self) -> (r: StoredHead)
        ensures
            match r {
                StoredHead::Attached(name) => self matches Head::Attached(b) && name@ == b.name@,
                StoredHead::Detached => self matches Head::Detached(_),
            },
    {
        match self {
            Head::Attached(branch) => StoredHead::Attached(branch.name.clone()),
            Head::Detached(_) => StoredHead::Detached,
        }
    }

    /// The head of a fresh repository: attached to an empty `main` branch.
    pub fn new_default() -> (r: Self)
        ensures
            r matches Head::Attached(b) && b.name@ == "main"@ && b.log().len() == 0,
    {
        Head::Attached(Branch::new_empty("main"))
    }
}

} // verus!
