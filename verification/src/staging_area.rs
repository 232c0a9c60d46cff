use vstd::prelude::*;

use crate::pathmap::{Dup, PathMap};
use crate::paths::RootRelativePath;
use crate::worktree::{WorkingFileView, WorkingTree};

verus! {

/// The pending change recorded for a path in the staging area.
#[derive(PartialEq, Eq, Structural, Clone, Copy, Debug)]
pub enum ChangeType {
    Added,
    Modified,
    Removed,
}

impl ChangeType {
    /// The one-character marker used when a change is listed by `status`.
    pub fn display(&self) -> (r: &'static str)
        ensures
            r@ == self.spec_display(),
    {
        proof {
            reveal_strlit("+");
            reveal_strlit("M");
            reveal_strlit("-");
        }
        match self {
            ChangeType::Added => "+",
            ChangeType::Modified => "M",
            ChangeType::Removed => "-",
        }
    }

    pub open spec fn spec_display(&self) -> Seq<char> {
        match self {
            ChangeType::Added => seq!['+'],
            ChangeType::Modified => seq!['M'],
            ChangeType::Removed => seq!['-'],
        }
    }
}

impl Dup for ChangeType {
    fn dup(&self) -> (r: Self)
        ensures
            r == *self,
    {
        *self
    }
}

/// The persisted mapping from root-relative path to pending change: what the
/// next commit will apply to the current tree.
pub struct StagingArea {
    pub files: PathMap<ChangeType>,
}

impl View for StagingArea {
    type V = Map<Seq<char>, ChangeType>;

    open spec fn view(&self) -> Map<Seq<char>, ChangeType> {
        self.files@
    }
}

/// Whether a persisted staging entry survives a reload: a staged removal is
/// kept regardless (its file is expected to be absent), while a staged
/// addition or modification is kept only while its file still exists.
pub open spec fn spec_keep_entry(
    change: ChangeType,
    path: Seq<char>,
    working: Map<Seq<char>, WorkingFileView>,
) -> bool {
    change == ChangeType::Removed || working.contains_key(path)
}

impl StagingArea {
    pub open spec fn wf(&self) -> bool {
        self.files.wf()
    }

    pub open spec fn entries(&self) -> Seq<(Seq<char>, ChangeType)> {
        self.files.entries_view()
    }

    /// An empty staging area.
    pub fn new() -> (r: Self)
        ensures
            r.wf(),
            r@ == Map::<Seq<char>, ChangeType>::empty(),
    {
        StagingArea { files: PathMap::new() }
    }

    /// Reload the staging area as persisted, pruning entries whose file has
    /// vanished: `Removed` entries are kept, `Added`/`Modified` entries are
    /// dropped silently when `working` no longer holds their path.
    pub fn from_stored(stored: &PathMap<ChangeType>, working: &WorkingTree) -> (r: Self)
        requires
            stored.wf(),
            working.wf(),
        ensures
            r.wf(),
            r@ == Map::<Seq<char>, ChangeType>::new(
                |k: Seq<char>|
                    stored@.contains_key(k) && spec_keep_entry(stored@[k], k, working@),
                |k: Seq<char>| stored@[k],
            ),
    {
        proof {
            stored.lemma_view();
        }
        let ghost sv = stored.entries_view();
        let ghost goal = Map::<Seq<char>, ChangeType>::new(
            |k: Seq<char>| stored@.contains_key(k) && spec_keep_entry(stored@[k], k, working@),
            |k: Seq<char>| stored@[k],
        );
        let n = stored.len();
        let mut files: PathMap<ChangeType> = PathMap::new();
        let mut i: usize = 0;
        while i < n
            invariant
                i <= n,
                n == sv.len(),
                sv == stored.entries_view(),
                stored.wf(),
                working.wf(),
                files.wf(),
                forall|j: int|
                    0 <= j < sv.len() ==> stored@.contains_key((#[trigger] sv[j]).0)
                        && stored@[sv[j].0] == sv[j].1,
                forall|k: Seq<char>| #[trigger]
                    files@.contains_key(k) <==> exists|j: int|
                        0 <= j < i && (#[trigger] sv[j]).0 == k && spec_keep_entry(
                            sv[j].1,
                            k,
                            working@,
                        ),
                forall|k: Seq<char>| #[trigger]
                    files@.contains_key(k) ==> files@[k] == stored@[k],
            decreases n - i,
        {
            let (p, c) = stored.entry_at(i);
            let keep = match c {
                ChangeType::Removed => true,
                _ => working.contains(p),
            };
            let ghost files0 = files@;
            if keep {
                files.insert(p.clone(), *c);
            }
            proof {
                assert forall|k: Seq<char>| #[trigger]
                    files@.contains_key(k) <==> exists|j: int|
                        0 <= j < i + 1 && (#[trigger] sv[j]).0 == k && spec_keep_entry(
                            sv[j].1,
                            k,
                            working@,
                        ) by {
                    if files@.contains_key(k) {
                        if k == sv[i as int].0 && keep {
                            assert(sv[i as int].0 == k && spec_keep_entry(
                                sv[i as int].1,
                                k,
                                working@,
                            ));
                        } else {
                            assert(files0.contains_key(k));
                            let j = choose|j: int|
                                0 <= j < i && (#[trigger] sv[j]).0 == k && spec_keep_entry(
                                    sv[j].1,
                                    k,
                                    working@,
                                );
                            assert(0 <= j < i + 1 && sv[j].0 == k);
                        }
                    }
                    if exists|j: int|
                        0 <= j < i + 1 && (#[trigger] sv[j]).0 == k && spec_keep_entry(
                            sv[j].1,
                            k,
                            working@,
                        ) {
                        let j = choose|j: int|
                            0 <= j < i + 1 && (#[trigger] sv[j]).0 == k && spec_keep_entry(
                                sv[j].1,
                                k,
                                working@,
                            );
                        if j == i as int {
                            assert(keep);
                            assert(files@.contains_key(k));
                        } else {
                            assert(files0.contains_key(k));
                            if keep && k == sv[i as int].0 {
                            }
                            assert(files@.contains_key(k));
                        }
                    }
                }
            }
            i = i + 1;
        }
        proof {
            assert(files@ =~= goal) by {
                assert forall|k: Seq<char>| #[trigger]
                    files@.contains_key(k) <==> goal.contains_key(k) by {
                    if goal.contains_key(k) {
                        let j = choose|j: int| 0 <= j < sv.len() && (#[trigger] sv[j]).0 == k;
                        assert(sv[j].1 == stored@[k]);
                    }
                    if files@.contains_key(k) {
                        let j = choose|j: int|
                            0 <= j < i && (#[trigger] sv[j]).0 == k && spec_keep_entry(
                                sv[j].1,
                                k,
                                working@,
                            );
                        assert(stored@.contains_key(k));
                    }
                }
            }
        }
        StagingArea { files }
    }

    /// Stage a change for a path, superseding any earlier one.
    pub fn insert(&mut self, path: RootRelativePath, change: ChangeType)
        requires
            old(self).wf(),
        ensures
            final(self).wf(),
            final(self)@ == old(self)@.insert(path@, change),
    {
        self.files.insert(path, change);
    }

    /// Unstage a path; a path that is not staged is a no-op, not an error.
    pub fn remove(&mut self, path: &RootRelativePath)
        requires
            old(self).wf(),
        ensures
            final(self).wf(),
            final(self)@ == old(self)@.remove(path@),
    {
        self.files.remove(path);
    }

    pub fn is_empty(&self) -> (r: bool)
        requires
            self.wf(),
        ensures
            r <==> self@ =~= Map::<Seq<char>, ChangeType>::empty(),
            r <==> self.entries().len() == 0,
    {
        self.files.is_empty()
    }

    pub fn contains(&self, path: &RootRelativePath) -> (r: bool)
        requires
            self.wf(),
        ensures
            r <==> self@.contains_key(path@),
    {
        self.files.contains(path)
    }

    pub fn get(&self, path: &RootRelativePath) -> (r: Option<&ChangeType>)
        requires
            self.wf(),
        ensures
            r is Some <==> self@.contains_key(path@),
            r is Some ==> *r->0 == self@[path@],
    {
        self.files.get(path)
    }

    /// A copy of the staged changes.
    pub fn get_files(&self) -> (r: PathMap<ChangeType>)
        requires
            self.wf(),
        ensures
            r.wf(),
            r@ == self@,
            r.entries_view() == self.entries(),
    {
        self.files.duplicate()
    }

    /// Drop every staged change, as a successful commit does.
    pub fn clear(&mut self)
        ensures
            final(self).wf(),
            final(self)@ =~= Map::<Seq<char>, ChangeType>::empty(),
            final(self).entries().len() == 0,
    {
        self.files.clear();
    }

    pub fn len(&self) -> (r: usize)
        ensures
            r == self.entries().len(),
    {
        self.files.len()
    }

    /// The staged change at position `i`, in path order.
    pub fn entry_at(&self, i: usize) -> (r: (&RootRelativePath, &ChangeType))
        requires
            i < self.entries().len(),
        ensures
            r.0@ == self.entries()[i as int].0,
            *r.1 == self.entries()[i as int].1,
    {
        self.files.entry_at(i)
    }

    /// The staged paths are exactly the keys, in sorted order.
    pub proof fn lemma_view(&self)
        requires
            self.wf(),
        ensures
            forall|i: int|
                0 <= i < self.entries().len() ==> self@.contains_key(
                    #[trigger] self.entries()[i].0,
                ) && self@[self.entries()[i].0] == self.entries()[i].1,
            forall|k: Seq<char>| #[trigger]
                self@.contains_key(k) <==> exists|i: int| 0 <= i < self.entries().len()
                    && self.entries()[i].0 == k,
    {
        self.files.lemma_view();
        assert forall|k: Seq<char>| #[trigger]
            self@.contains_key(k) implies exists|i: int| 0 <= i < self.entries().len()
            && self.entries()[i].0 == k by {
            let i = choose|i: int|
                0 <= i < self.files.entries_view().len() && self.files.entries_view()[i].0 == k;
            assert(self.entries()[i].0 == k);
        }
        assert forall|k: Seq<char>| exists|i: int|
            0 <= i < self.entries().len() && self.entries()[i].0 == k implies #[trigger] self@.contains_key(k) by {
            let i = choose|i: int| 0 <= i < self.entries().len() && self.entries()[i].0 == k;
            assert(self.files.entries_view()[i].0 == k);
        }
    }
}

} // verus!
