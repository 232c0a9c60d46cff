use vstd::prelude::*;

use crate::pathmap::PathMap;
use crate::paths::RootRelativePath;
use crate::tracked_file::Metadata;

verus! {

/// One file of the working directory as the scan saw it: its current
/// fingerprint and its current bytes.
pub struct WorkingFile {
    pub metadata: Metadata,
    pub content: Vec<u8>,
}

pub struct WorkingFileView {
    pub metadata: Metadata,
    pub content: Seq<u8>,
}

impl View for WorkingFile {
    type V = WorkingFileView;

    open spec fn view(&self) -> WorkingFileView {
        WorkingFileView { metadata: self.metadata, content: self.content@ }
    }
}

/// A snapshot of the working directory: every file outside the metadata
/// directory, keyed by root-relative path. The engine reads the disk only
/// through such a snapshot.
pub struct WorkingTree {
    pub files: PathMap<WorkingFile>,
}

impl View for WorkingTree {
    type V = Map<Seq<char>, WorkingFileView>;

    open spec fn view(&self) -> Map<Seq<char>, WorkingFileView> {
        self.files@.map_values(|f: WorkingFile| f@)
    }
}

impl WorkingTree {
    pub open spec fn wf(&self) -> bool {
        self.files.wf()
    }

    /// The scanned files in path order, as views.
    pub open spec fn entries(&self) -> Seq<(Seq<char>, WorkingFileView)> {
        self.files.entries_view().map(|i: int, e: (Seq<char>, WorkingFile)| (e.0, e.1@))
    }

    /// An empty snapshot.
    pub fn new() -> (r: Self)
        ensures
            r.wf(),
            r@ =~= Map::<Seq<char>, WorkingFileView>::empty(),
    {
        WorkingTree { files: PathMap::new() }
    }

    /// Record one scanned file.
    pub fn insert(&mut self, path: RootRelativePath, metadata: Metadata, content: Vec<u8>)
        requires
            old(self).wf(),
        ensures
            final(self).wf(),
            final(self)@ == old(self)@.insert(
                path@,
                WorkingFileView { metadata, content: content@ },
            ),
    {
        let ghost cv = content@;
        self.files.insert(path, WorkingFile { metadata, content });
        proof {
            assert(final(self)@ =~= old(self)@.insert(path@, WorkingFileView { metadata, content: cv }));
        }
    }

    pub fn contains(&self, path: &RootRelativePath) -> (r: bool)
        requires
            self.wf(),
        ensures
            r <==> self@.contains_key(path@),
    {
        self.files.contains(path)
    }

    pub fn get(&self, path: &RootRelativePath) -> (r: Option<&WorkingFile>)
        requires
            self.wf(),
        ensures
            r is Some <==> self@.contains_key(path@),
            r is Some ==> r->0@ == self@[path@],
    {
        self.files.get(path)
    }

    pub fn len(&self) -> (r: usize)
        ensures
            r == self.entries().len(),
    {
        self.files.len()
    }

    /// The scanned file at position `i`, in path order.
    pub fn entry_at(&self, i: usize) -> (r: (&RootRelativePath, &WorkingFile))
        requires
            i < self.entries().len(),
        ensures
            r.0@ == self.entries()[i as int].0,
            r.1@ == self.entries()[i as int].1,
    {
        self.files.entry_at(i)
    }

    /// The keys of the snapshot are exactly the scanned paths, in order.
    pub proof fn lemma_view(&self)
        requires
            self.wf(),
        ensures
            forall|i: int|
                0 <= i < self.entries().len() ==> self@.contains_key(
                    #[trigger] self.entries()[i].0,
                ) && self@[self.entries()[i].0] == self.entries()[i].1,
            forall|k: Seq<char>| #[trigger]
                self@.contains_key(k) <==> exists|i: int| 0 <= i < self.entries().len()
                    && self.entries()[i].0 == k,
            crate::pathmap::entry_seq_sorted(self.entries()),
    {
        self.files.lemma_view();
        assert(crate::pathmap::entry_seq_sorted(self.entries())) by {
            assert(forall|i: int|
                0 <= i < self.entries().len() ==> (#[trigger] self.entries()[i]).0
                    == self.files.entries_view()[i].0);
        }
        assert forall|i: int| 0 <= i < self.entries().len() implies self@.contains_key(
            #[trigger] self.entries()[i].0,
        ) && self@[self.entries()[i].0] == self.entries()[i].1 by {
            assert(self.entries()[i].0 == self.files.entries_view()[i].0);
            assert(self.files@.contains_key(self.files.entries_view()[i].0));
        }
        assert forall|k: Seq<char>| #[trigger]
            self@.contains_key(k) implies exists|i: int| 0 <= i < self.entries().len()
            && self.entries()[i].0 == k by {
            assert(self.files@.contains_key(k));
            let i = choose|i: int|
                0 <= i < self.files.entries_view().len() && self.files.entries_view()[i].0 == k;
            assert(self.entries()[i].0 == k);
        }
        assert forall|k: Seq<char>| exists|i: int|
            0 <= i < self.entries().len() && self.entries()[i].0 == k implies #[trigger] self@.contains_key(k) by {
            let i = choose|i: int| 0 <= i < self.entries().len() && self.entries()[i].0 == k;
            assert(self.files.entries_view()[i].0 == k);
            assert(self.files@.contains_key(k));
        }
    }
}

} // verus!
