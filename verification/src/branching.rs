use vstd::prelude::*;

use crate::branch::Branch;
use crate::head::Head;
use crate::pathmap::Dup;
use crate::root::Root;
use crate::strutil::str_eq;

verus! {

/// What the `branch` command produced: a listing of the branches, or a new
/// branch that the caller must persist. Creating a branch never switches to
/// it.
pub enum BranchOutcome {
    Listing(String),
    Created(Branch),
}

/// One line of the branch listing: the checked-out branch is starred, and
/// the detached log's reserved storage key is never listed.
pub open spec fn spec_branch_line(name: Seq<char>, current: Seq<char>) -> Seq<char> {
    if name == "DETACHED_HEAD"@ {
        Seq::empty()
    } else if name == current {
        "* "@ + name + "\n"@
    } else {
        name + "\n"@
    }
}

/// The lines of the branch listing, in the given order.
pub open spec fn spec_branch_lines(names: Seq<Seq<char>>, current: Seq<char>) -> Seq<char>
    decreases names.len(),
{
    if names.len() == 0 {
        Seq::empty()
    } else {
        spec_branch_line(names[0], current) + spec_branch_lines(names.drop_first(), current)
    }
}

/// The heading of the listing, and which name is marked current: a detached
/// head announces itself and marks nothing.
pub open spec fn spec_branch_listing(head: Head, names: Seq<Seq<char>>) -> Seq<char> {
    match head {
        Head::Attached(b) => spec_branch_lines(names, b.name@),
        Head::Detached(d) => "* HEAD attached at "@ + d.passed_hash@ + "\n"@ + spec_branch_lines(
            names,
            Seq::empty(),
        ),
    }
}

proof fn lemma_branch_lines_push(names: Seq<Seq<char>>, x: Seq<char>, current: Seq<char>)
    ensures
        spec_branch_lines(names.push(x), current) == spec_branch_lines(names, current)
            + spec_branch_line(x, current),
    decreases names.len(),
{
    if names.len() == 0 {
        assert(names.push(x)[0] == x);
        assert(names.push(x).drop_first() =~= names);
        assert(spec_branch_lines(names, current) == Seq::<char>::empty());
        assert(spec_branch_lines(names.push(x), current) =~= spec_branch_lines(names, current)
            + spec_branch_line(x, current));
    } else {
        assert(names.push(x)[0] == names[0]);
        assert(names.push(x).drop_first() =~= names.drop_first().push(x));
        lemma_branch_lines_push(names.drop_first(), x, current);
        assert(spec_branch_lines(names.push(x), current) =~= spec_branch_lines(names, current)
            + spec_branch_line(x, current));
    }
}

pub open spec fn names_view(names: Seq<String>) -> Seq<Seq<char>> {
    names.map(|i: int, n: String| n@)
}

fn push_branch_lines(out: &mut String, names: &Vec<String>, current: &str)
    ensures
        final(out)@ == old(out)@ + spec_branch_lines(names_view(names@), current@),
{
    let n = names.len();
    let ghost base = out@;
    proof {
        assert(names_view(names@).take(0) =~= Seq::<Seq<char>>::empty());
        assert(out@ =~= base + spec_branch_lines(names_view(names@).take(0), current@));
    }
    let mut i: usize = 0;
    while i < n
        invariant
            i <= n,
            n == names@.len(),
            out@ == base + spec_branch_lines(names_view(names@).take(i as int), current@),
        decreases n - i,
    {
        let name = &names[i];
        let ghost before = out@;
        if str_eq(name.as_str(), "DETACHED_HEAD") {
            proof {
                reveal_strlit("DETACHED_HEAD");
            }
        } else if str_eq(name.as_str(), current) {
            out.append("* ");
            out.append(name.as_str());
            out.append("\n");
        } else {
            out.append(name.as_str());
            out.append("\n");
        }
        proof {
            reveal_strlit("DETACHED_HEAD");
            let x = names_view(names@)[i as int];
            assert(x == name@);
            assert(out@ =~= before + spec_branch_line(x, current@));
            assert(names_view(names@).take(i + 1) =~= names_view(names@).take(i as int).push(x));
            lemma_branch_lines_push(names_view(names@).take(i as int), x, current@);
            assert(out@ =~= base + spec_branch_lines(names_view(names@).take(i + 1), current@));
        }
        i = i + 1;
    }
    proof {
        assert(names_view(names@).take(n as int) =~= names_view(names@));
    }
}

impl Root {
    /// List the branches by name, marking the checked-out one; a detached
    /// head announces where it sits instead of marking a branch. The caller
    /// supplies the names found in the branch directory.
    pub fn display_branches(&self, branch_names: &Vec<String>) -> (r: String)
        ensures
            r@ == spec_branch_listing(self.head, names_view(branch_names@)),
    {
        match &self.head {
            Head::Attached(b) => {
                let mut out = String::new();
                push_branch_lines(&mut out, branch_names, b.name.as_str());
                proof {
                    assert(out@ =~= spec_branch_listing(self.head, names_view(branch_names@)));
                }
                out
            },
            Head::Detached(d) => {
                let mut out = String::from_str("* HEAD attached at ");
                out.append(d.passed_hash.as_str());
                out.append("\n");
                push_branch_lines(&mut out, branch_names, "");
                proof {
                    reveal_strlit("");
                    assert(""@ =~= Seq::<char>::empty());
                    assert(out@ =~= spec_branch_listing(self.head, names_view(branch_names@)));
                }
                out
            },
        }
    }

    /// Fork: a new branch from the current checkout. From an attached head
    /// the new log holds the branching commit alone (or is empty while no
    /// commit exists); from a detached head it is a full copy of the
    /// detached log, which makes its commits reachable again. The caller
    /// persists the new branch; the head does not switch to it.
    pub fn create_branch(&self, branch_name: &str) -> (r: Branch)
        ensures
            r.name@ == branch_name@,
            match self.head {
                Head::Attached(b) => {
                    if b.log().len() == 0 {
                        r.log().len() == 0
                    } else {
                        r.log().len() == 1 && r.log()[0] == b.log().last()
                    }
                },
                Head::Detached(d) => r.log() == d.log(),
            },
    {
        match &self.head {
            Head::Attached(b) => {
                match b.get_last_commit_ref() {
                    Some(c) => Branch::new_from_commit_ref(c.dup(), branch_name),
                    None => Branch::new_empty(branch_name),
                }
            },
            Head::Detached(d) => Branch::new_from_tree(d.commits(), branch_name),
        }
    }

    /// The `branch` command: with no name, list the branches; with a name,
    /// fork a new branch for the caller to persist.
    pub fn branch(&self, branch_name: &Option<String>, branch_names: &Vec<String>) -> (r:
        BranchOutcome)
        ensures
            match r {
                BranchOutcome::Listing(s) => branch_name is None && s@ == spec_branch_listing(
                    self.head,
                    names_view(branch_names@),
                ),
                BranchOutcome::Created(b) => branch_name matches Some(name) && b.name@ == name@
                    && (match self.head {
                    Head::Attached(hb) => {
                        if hb.log().len() == 0 {
                            b.log().len() == 0
                        } else {
                            b.log().len() == 1 && b.log()[0] == hb.log().last()
                        }
                    },
                    Head::Detached(d) => b.log() == d.log(),
                }),
            },
    {
        match branch_name {
            Some(name) => BranchOutcome::Created(self.create_branch(name.as_str())),
            None => BranchOutcome::Listing(self.display_branches(branch_names)),
        }
    }
}

} // verus!
