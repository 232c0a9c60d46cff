use vstd::prelude::*;

use crate::digest::{digest_of, hash_str};
use crate::encode::{enc_nat, enc_str, push_enc_nat, push_enc_str};
use crate::error::GustError;
use crate::pathmap::{Dup, PathMap};
use crate::strutil::{is_prefix, str_eq, str_starts_with};
use crate::tracked_file::{spec_file_status, FileStatus, Metadata, TrackedFile, TrackedFileView};
use vstd::utf8::encode_utf8;

verus! {

/// The metadata of a commit: its message.
#[derive(Debug)]
pub struct CommitMetadata {
    pub name: String,
}

impl View for CommitMetadata {
    type V = Seq<char>;

    open spec fn view(&self) -> Seq<char> {
        self.name@
    }
}

impl CommitMetadata {
    pub fn new(name: String) -> (r: Self)
        ensures
            r@ == name@,
    {
        CommitMetadata { name }
    }

    pub fn name(&self) -> (r: &str)
        ensures
            r@ == self@,
    {
        self.name.as_str()
    }
}

impl Clone for CommitMetadata {
    fn clone(&self) -> (r: Self)
        ensures
            r == *self,
    {
        CommitMetadata { name: self.name.clone() }
    }
}

/// What a commit says: a tree mapping each root-relative path to its file
/// record, and the commit message.
pub struct CommitView {
    pub tree: Map<Seq<char>, TrackedFileView>,
    pub message: Seq<char>,
}

/// An immutable snapshot: a tree of tracked files plus its metadata,
/// identified by the digest of its own serialized form.
#[derive(Debug)]
pub struct Commit {
    pub tree: PathMap<TrackedFile>,
    pub metadata: CommitMetadata,
}

impl Commit {
    /// The tree is stored sorted, so one mapping has one stored form and
    /// one encoding.
    pub open spec fn wf(&self) -> bool {
        self.tree.wf()
    }

    /// The tree entries in storage order, records as their views.
    pub open spec fn entries(&self) -> Seq<(Seq<char>, TrackedFileView)> {
        self.tree.entries_view().map(|i: int, e: (Seq<char>, TrackedFile)| (e.0, e.1@))
    }

    pub open spec fn tree_map(&self) -> Map<Seq<char>, TrackedFileView> {
        self.tree@.map_values(|t: TrackedFile| t@)
    }

    pub open spec fn message(&self) -> Seq<char> {
        self.metadata@
    }

    /// The serialized form whose digest identifies this commit.
    pub open spec fn spec_encoding(&self) -> Seq<char> {
        spec_encode_commit(self.entries(), self.message())
    }

    /// The commit id: the digest of the serialized form.
    pub open spec fn spec_id(&self) -> Seq<char> {
        digest_of(encode_utf8(self.spec_encoding()))
    }
}

impl View for Commit {
    type V = CommitView;

    open spec fn view(&self) -> CommitView {
        CommitView { tree: self.tree_map(), message: self.message() }
    }
}

/// One tree entry in the serialized form: the path, the blob digest, and the
/// three fingerprint numbers, each length- or digit-prefixed.
pub open spec fn enc_entry(path: Seq<char>, t: TrackedFileView) -> Seq<char> {
    enc_str(path) + enc_str(t.blob_id) + enc_nat(t.metadata.len as nat) + enc_nat(
        t.metadata.modify_time as nat,
    ) + enc_nat(t.metadata.access_time as nat)
}

/// The tree entries serialized in order.
pub open spec fn enc_entries(s: Seq<(Seq<char>, TrackedFileView)>) -> Seq<char>
    decreases s.len(),
{
    if s.len() == 0 {
        Seq::empty()
    } else {
        enc_entry(s[0].0, s[0].1) + enc_entries(s.drop_first())
    }
}

/// The serialized form of a commit: the message, the entry count, then the
/// entries in tree order. Every part is prefixed by its length, so two
/// different commits serialize differently.
pub open spec fn spec_encode_commit(
    entries: Seq<(Seq<char>, TrackedFileView)>,
    message: Seq<char>,
) -> Seq<char> {
    enc_str(message) + enc_nat(entries.len()) + enc_entries(entries)
}

proof fn lemma_enc_entries_push(s: Seq<(Seq<char>, TrackedFileView)>, e: (Seq<char>, TrackedFileView))
    ensures
        enc_entries(s.push(e)) == enc_entries(s) + enc_entry(e.0, e.1),
    decreases s.len(),
{
    if s.len() == 0 {
        let s2 = s.push(e);
        assert(s2[0] == e);
        assert(s2.drop_first() =~= s);
        assert(enc_entries(s2) == enc_entry(e.0, e.1) + enc_entries(s));
        assert(enc_entries(s) == Seq::<char>::empty());
        assert(enc_entry(e.0, e.1) + Seq::<char>::empty() =~= enc_entry(e.0, e.1));
        assert(enc_entries(s) + enc_entry(e.0, e.1) =~= enc_entry(e.0, e.1));
    } else {
        assert(s.push(e)[0] == s[0]);
        assert(s.push(e).drop_first() =~= s.drop_first().push(e));
        lemma_enc_entries_push(s.drop_first(), e);
        assert(enc_entries(s.push(e)) =~= enc_entries(s) + enc_entry(e.0, e.1));
    }
}

impl Commit {
    /// Build a commit from its tree and metadata.
    pub fn new(tree: PathMap<TrackedFile>, metadata: CommitMetadata) -> (r: Self)
        requires
            tree.wf(),
        ensures
            r.wf(),
            r.tree == tree,
            r.metadata == metadata,
    {
        Commit { tree, metadata }
    }

    /// The serialized form of this commit.
    pub fn encode(&self) -> (r: String)
        ensures
            r@ == self.spec_encoding(),
    {
        let mut out = String::new();
        push_enc_str(&mut out, self.metadata.name.as_str());
        let n = self.tree.len();
        push_enc_nat(&mut out, n as u64);
        let ghost head = enc_str(self.message()) + enc_nat(self.entries().len());
        proof {
            assert(out@ =~= head + enc_entries(self.entries().take(0)));
        }
        let mut i: usize = 0;
        while i < n
            invariant
                i <= n,
                n == self.tree.spec_len(),
                out@ == head + enc_entries(self.entries().take(i as int)),
            decreases n - i,
        {
            let (p, t) = self.tree.entry_at(i);
            let ghost before = out@;
            push_enc_str(&mut out, p.as_str());
            push_enc_str(&mut out, t.get_blob_id());
            push_enc_nat(&mut out, t.metadata.len);
            push_enc_nat(&mut out, t.metadata.modify_time);
            push_enc_nat(&mut out, t.metadata.access_time);
            proof {
                let e = self.entries()[i as int];
                assert(e.0 == self.tree.entries_view()[i as int].0);
                assert(e.1 == self.tree.entries_view()[i as int].1@);
                assert(out@ =~= before + enc_entry(e.0, e.1));
                assert(self.entries().take(i + 1) =~= self.entries().take(i as int).push(e));
                lemma_enc_entries_push(self.entries().take(i as int), e);
                assert(out@ =~= head + enc_entries(self.entries().take(i + 1)));
            }
            i = i + 1;
        }
        proof {
            assert(self.entries().take(n as int) =~= self.entries());
        }
        out
    }

    /// The id of this commit: the digest of its serialized form.
    pub fn compute_id(&self) -> (r: String)
        ensures
            r@ == self.spec_id(),
    {
        let enc = self.encode();
        hash_str(enc.as_str())
    }

    /// An independent copy of this commit.
    pub fn duplicate(&self) -> (r: Self)
        requires
            self.wf(),
        ensures
            r.wf(),
            r@ == self@,
            r.entries() == self.entries(),
            r.message() == self.message(),
    {
        let r = Commit { tree: self.tree.duplicate(), metadata: self.metadata.clone() };
        proof {
            assert(r.entries() =~= self.entries());
            assert(r.tree_map() =~= self.tree_map());
        }
        r
    }

    /// A copy of this commit's tree.
    pub fn copy_tree(&self) -> (r: PathMap<TrackedFile>)
        requires
            self.wf(),
        ensures
            r.wf(),
            r@ == self.tree@,
            r.entries_view() == self.tree.entries_view(),
    {
        self.tree.duplicate()
    }

    /// How many files the tree holds.
    pub fn tree_len(&self) -> (r: usize)
        ensures
            r == self.entries().len(),
    {
        self.tree.len()
    }

    /// The tree entry at position `i`, in path order.
    pub fn tree_entry_at(&self, i: usize) -> (r: (&crate::paths::RootRelativePath, &TrackedFile))
        requires
            i < self.entries().len(),
        ensures
            r.0@ == self.entries()[i as int].0,
            r.1@ == self.entries()[i as int].1,
    {
        self.tree.entry_at(i)
    }

    /// Classify a working file against this tree. `metadata` and `content`
    /// are the file's current fingerprint and bytes; a path the tree does
    /// not hold counts as added.
    pub fn has_file_changed(
        &self,
        relative_path: &crate::paths::RootRelativePath,
        metadata: Metadata,
        content: &Vec<u8>,
    ) -> (r: FileStatus)
        requires
            self.wf(),
        ensures
            r == spec_file_status(
                if self@.tree.contains_key(relative_path@) {
                    Some(self@.tree[relative_path@])
                } else {
                    None
                },
                metadata,
                content@,
            ),
    {
        match self.tree.get(relative_path) {
            Some(t) => t.classify(metadata, content),
            None => FileStatus::Added,
        }
    }
}

/// Serialized entry lists of equal entry count followed by arbitrary text
/// can only agree if the entries and the texts agree.
#[verifier::rlimit(100)]
proof fn lemma_enc_entries_unambiguous(
    e1: Seq<(Seq<char>, TrackedFileView)>,
    r1: Seq<char>,
    e2: Seq<(Seq<char>, TrackedFileView)>,
    r2: Seq<char>,
)
    requires
        e1.len() == e2.len(),
        enc_entries(e1) + r1 == enc_entries(e2) + r2,
    ensures
        e1 =~= e2,
        r1 == r2,
    decreases e1.len(),
{
    if e1.len() == 0 {
        assert(enc_entries(e1) + r1 =~= r1);
        assert(enc_entries(e2) + r2 =~= r2);
    } else {
        let (p1, t1) = (e1[0].0, e1[0].1);
        let (p2, t2) = (e2[0].0, e2[0].1);
        let tail1 = enc_entries(e1.drop_first()) + r1;
        let tail2 = enc_entries(e2.drop_first()) + r2;
        let n1 = enc_nat(t1.metadata.modify_time as nat) + (enc_nat(
            t1.metadata.access_time as nat,
        ) + tail1);
        let n2 = enc_nat(t2.metadata.modify_time as nat) + (enc_nat(
            t2.metadata.access_time as nat,
        ) + tail2);
        let l1 = enc_nat(t1.metadata.len as nat) + n1;
        let l2 = enc_nat(t2.metadata.len as nat) + n2;
        let b1 = enc_str(t1.blob_id) + l1;
        let b2 = enc_str(t2.blob_id) + l2;
        assert(enc_entries(e1) + r1 =~= enc_str(p1) + b1);
        assert(enc_entries(e2) + r2 =~= enc_str(p2) + b2);
        crate::encode::lemma_enc_str_unambiguous(p1, b1, p2, b2);
        crate::encode::lemma_enc_str_unambiguous(t1.blob_id, l1, t2.blob_id, l2);
        crate::encode::lemma_enc_nat_unambiguous(
            t1.metadata.len as nat,
            n1,
            t2.metadata.len as nat,
            n2,
        );
        crate::encode::lemma_enc_nat_unambiguous(
            t1.metadata.modify_time as nat,
            enc_nat(t1.metadata.access_time as nat) + tail1,
            t2.metadata.modify_time as nat,
            enc_nat(t2.metadata.access_time as nat) + tail2,
        );
        crate::encode::lemma_enc_nat_unambiguous(
            t1.metadata.access_time as nat,
            tail1,
            t2.metadata.access_time as nat,
            tail2,
        );
        lemma_enc_entries_unambiguous(e1.drop_first(), r1, e2.drop_first(), r2);
        assert(e1[0] == e2[0]);
        assert(e1 =~= e2) by {
            assert(forall|i: int|
                1 <= i < e1.len() ==> e1[i] == e1.drop_first()[i - 1] && e2[i]
                    == e2.drop_first()[i - 1]);
        }
    }
}

/// The serialized form of a commit is injective: two commits serialize
/// identically only when their trees (entry for entry) and messages agree.
pub proof fn lemma_encode_commit_injective(
    e1: Seq<(Seq<char>, TrackedFileView)>,
    m1: Seq<char>,
    e2: Seq<(Seq<char>, TrackedFileView)>,
    m2: Seq<char>,
)
    requires
        spec_encode_commit(e1, m1) == spec_encode_commit(e2, m2),
    ensures
        m1 == m2,
        e1 =~= e2,
{
    let body1 = enc_nat(e1.len()) + (enc_entries(e1) + Seq::<char>::empty());
    let body2 = enc_nat(e2.len()) + (enc_entries(e2) + Seq::<char>::empty());
    assert(spec_encode_commit(e1, m1) =~= enc_str(m1) + body1);
    assert(spec_encode_commit(e2, m2) =~= enc_str(m2) + body2);
    crate::encode::lemma_enc_str_unambiguous(m1, body1, m2, body2);
    crate::encode::lemma_enc_nat_unambiguous(
        e1.len(),
        enc_entries(e1) + Seq::<char>::empty(),
        e2.len(),
        enc_entries(e2) + Seq::<char>::empty(),
    );
    lemma_enc_entries_unambiguous(e1, Seq::<char>::empty(), e2, Seq::<char>::empty());
}

/// The ordered entries of a commit denote exactly the commit's tree map.
pub proof fn lemma_commit_entries_denote_tree(c: &Commit)
    requires
        c.wf(),
    ensures
        crate::pathmap::entry_seq_sorted(c.entries()),
        crate::pathmap::entry_seq_map(c.entries()) == c.tree_map(),
{
    lemma_entry_views(c.tree.entries_view());
    assert(c.entries() =~= c.tree.entries_view().map(
        |i: int, e: (Seq<char>, TrackedFile)| (e.0, e.1@),
    ));
}

/// Mapping records to their views commutes with reading off the denoted map.
pub proof fn lemma_entry_views(s: Seq<(Seq<char>, TrackedFile)>)
    ensures
        crate::pathmap::entry_seq_sorted(s) ==> crate::pathmap::entry_seq_sorted(
            s.map(|i: int, e: (Seq<char>, TrackedFile)| (e.0, e.1@)),
        ),
        crate::pathmap::entry_seq_map(s.map(|i: int, e: (Seq<char>, TrackedFile)| (e.0, e.1@)))
            == crate::pathmap::entry_seq_map(s).map_values(|t: TrackedFile| t@),
    decreases s.len(),
{
    let f = |i: int, e: (Seq<char>, TrackedFile)| (e.0, e.1@);
    let g = |t: TrackedFile| t@;
    if s.len() == 0 {
        assert(s.map(f) =~= Seq::<(Seq<char>, TrackedFileView)>::empty());
        assert(crate::pathmap::entry_seq_map(s.map(f)) =~= crate::pathmap::entry_seq_map(
            s,
        ).map_values(g));
    } else {
        let t = s.drop_last();
        lemma_entry_views(t);
        assert(s.map(f).drop_last() =~= t.map(f));
        assert(s.map(f).last() == (s.last().0, s.last().1@));
        if crate::pathmap::entry_seq_sorted(s) {
            assert(crate::pathmap::entry_seq_sorted(s.map(f))) by {
                assert(forall|i: int| 0 <= i < s.len() ==> (#[trigger] s.map(f)[i]).0 == s[i].0);
            }
        }
        assert(crate::pathmap::entry_seq_sorted(t) ==> crate::pathmap::entry_seq_sorted(
            t.map(f),
        ));
        assert(crate::pathmap::entry_seq_map(s.map(f)) == crate::pathmap::entry_seq_map(
            t.map(f),
        ).insert(s.last().0, s.last().1@));
        assert(crate::pathmap::entry_seq_map(s).map_values(g) =~= crate::pathmap::entry_seq_map(
            t,
        ).map_values(g).insert(s.last().0, s.last().1@));
        assert(crate::pathmap::entry_seq_map(s.map(f)) =~= crate::pathmap::entry_seq_map(
            s,
        ).map_values(g));
    }
}

/// Law of content addressing: two commits with the same tree and message
/// serialize identically and so get the same id; two commits that differ in
/// tree or message serialize differently, so their ids can only collide if
/// the digest itself collides on the two serialized forms.
pub proof fn lemma_commit_id_content_addressed(c1: &Commit, c2: &Commit)
    requires
        c1.wf(),
        c2.wf(),
    ensures
        c1@.tree == c2@.tree && c1@.message == c2@.message <==> c1.spec_encoding()
            == c2.spec_encoding(),
        c1.spec_encoding() == c2.spec_encoding() ==> c1.spec_id() == c2.spec_id(),
{
    lemma_commit_entries_denote_tree(c1);
    lemma_commit_entries_denote_tree(c2);
    if c1@.tree == c2@.tree && c1@.message == c2@.message {
        crate::pathmap::lemma_sorted_map_determines_entries(c1.entries(), c2.entries());
        assert(c1.spec_encoding() == c2.spec_encoding());
    }
    if c1.spec_encoding() == c2.spec_encoding() {
        lemma_encode_commit_injective(c1.entries(), c1.message(), c2.entries(), c2.message());
        assert(c1@.tree == c2@.tree);
        assert(c1@.message == c2@.message);
    }
}

/// A lightweight pointer into a branch log: the id of a commit plus its
/// metadata, kept separate from the full Commit so branch logs stay small.
#[derive(Debug)]
pub struct CommitRef {
    pub commit_id: String,
    pub metadata: CommitMetadata,
}

impl CommitRef {
    /// A reference to an already-stored commit under the given id.
    pub fn new_from_existing(commit: &Commit, hash: String) -> (r: Self)
        ensures
            r.commit_id@ == hash@,
            r.metadata@ == commit.message(),
    {
        CommitRef { commit_id: hash, metadata: commit.metadata.clone() }
    }

    /// A reference built from its two parts.
    pub fn from_parts(commit_id: String, metadata: CommitMetadata) -> (r: Self)
        ensures
            r.commit_id@ == commit_id@,
            r.metadata@ == metadata@,
    {
        CommitRef { commit_id, metadata }
    }

    /// The one-line form shown in the history log: message, then id.
    pub fn display(&self) -> (r: String)
        ensures
            r@ == self.metadata@ + ": "@ + self.commit_id@,
    {
        let mut s = self.metadata.name.clone();
        s.append(": ");
        s.append(self.commit_id.as_str());
        proof {
            reveal_strlit(": ");
        }
        s
    }
}

impl Dup for CommitRef {
    fn dup(&self) -> (r: Self)
        ensures
            r == *self,
    {
        CommitRef { commit_id: self.commit_id.clone(), metadata: self.metadata.clone() }
    }
}

/// The stored commit objects, keyed by commit id: the in-memory model of
/// the commits directory. Commits are immutable and never deleted.
pub struct CommitStore {
    entries: Vec<(String, Commit)>,
}

spec fn commit_map_of(s: Seq<(String, Commit)>) -> Map<Seq<char>, CommitView>
    decreases s.len(),
{
    if s.len() == 0 {
        Map::empty()
    } else {
        commit_map_of(s.drop_last()).insert(s.last().0@, s.last().1@)
    }
}

impl View for CommitStore {
    type V = Map<Seq<char>, CommitView>;

    closed spec fn view(&self) -> Map<Seq<char>, CommitView> {
        commit_map_of(self.entries@)
    }
}

spec fn commit_keys_distinct(s: Seq<(String, Commit)>) -> bool {
    forall|i: int, j: int| 0 <= i < j < s.len() ==> (#[trigger] s[i]).0@ != (#[trigger] s[j]).0@
}

proof fn lemma_commit_map_props(s: Seq<(String, Commit)>)
    requires
        commit_keys_distinct(s),
    ensures
        forall|k: Seq<char>| #[trigger]
            commit_map_of(s).contains_key(k) <==> exists|i: int| 0 <= i < s.len() && s[i].0@ == k,
        forall|i: int|
            0 <= i < s.len() ==> commit_map_of(s).contains_key((#[trigger] s[i]).0@)
                && commit_map_of(s)[s[i].0@] == s[i].1@,
    decreases s.len(),
{
    if s.len() == 0 {
    } else {
        let t = s.drop_last();
        let m = commit_map_of(s);
        assert(forall|i: int| 0 <= i < t.len() ==> t[i] == s[i]);
        lemma_commit_map_props(t);
        assert forall|i: int|
            0 <= i < s.len() implies m.contains_key((#[trigger] s[i]).0@) && m[s[i].0@]
            == s[i].1@ by {
            if i < s.len() - 1 {
                assert(s[i].0@ != s[s.len() - 1].0@);
                assert(commit_map_of(t).contains_key(t[i].0@));
            }
        }
        assert forall|k: Seq<char>| #[trigger]
            m.contains_key(k) implies exists|i: int| 0 <= i < s.len() && s[i].0@ == k by {
            if k == s.last().0@ {
                assert(s[s.len() - 1].0@ == k);
            } else {
                assert(commit_map_of(t).contains_key(k));
                let i = choose|i: int| 0 <= i < t.len() && t[i].0@ == k;
                assert(s[i].0@ == k);
            }
        }
        assert forall|k: Seq<char>| exists|i: int|
            0 <= i < s.len() && s[i].0@ == k implies #[trigger] m.contains_key(k) by {
            let i = choose|i: int| 0 <= i < s.len() && s[i].0@ == k;
            if i < s.len() - 1 {
                assert(t[i].0@ == k);
            }
        }
    }
}

impl CommitStore {
    /// Ids are distinct and every stored commit keeps its tree sorted.
    pub closed spec fn wf(&self) -> bool {
        commit_keys_distinct(self.entries@) && (forall|i: int|
            0 <= i < self.entries@.len() ==> (#[trigger] self.entries@[i]).1.wf())
    }

    pub closed spec fn spec_count(&self) -> nat {
        self.entries@.len()
    }

    /// An empty store.
    pub fn new() -> (r: Self)
        ensures
            r.wf(),
            r@ == Map::<Seq<char>, CommitView>::empty(),
            r.spec_count() == 0,
    {
        CommitStore { entries: Vec::new() }
    }

    fn find(&self, id: &str) -> (r: Option<usize>)
        ensures
            match r {
                Some(i) => i < self.spec_count() && self.entries@[i as int].0@ == id@ && (self.wf()
                    ==> self@.contains_key(id@) && self@[id@] == self.entries@[i as int].1@),
                None => self.wf() ==> !self@.contains_key(id@),
            },
    {
        let n = self.entries.len();
        let mut i: usize = 0;
        while i < n
            invariant
                i <= n,
                n == self.spec_count(),
                forall|j: int| 0 <= j < i ==> (#[trigger] self.entries@[j]).0@ != id@,
            decreases n - i,
        {
            if str_eq(self.entries[i].0.as_str(), id) {
                proof {
                    if self.wf() {
                        lemma_commit_map_props(self.entries@);
                        assert(commit_map_of(self.entries@).contains_key(
                            self.entries@[i as int].0@,
                        ));
                    }
                }
                return Some(i);
            }
            i = i + 1;
        }
        proof {
            if self.wf() && self@.contains_key(id@) {
                lemma_commit_map_props(self.entries@);
                let w = choose|w: int| 0 <= w < self.entries@.len() && self.entries@[w].0@ == id@;
                assert(self.entries@[w].0@ != id@);
            }
        }
        None
    }

    /// Whether a commit with this id is stored.
    pub fn contains(&self, id: &str) -> (r: bool)
        requires
            self.wf(),
        ensures
            r <==> self@.contains_key(id@),
    {
        self.find(id).is_some()
    }

    /// The stored commit with this id, if any.
    pub fn get(&self, id: &str) -> (r: Option<&Commit>)
        requires
            self.wf(),
        ensures
            r is Some <==> self@.contains_key(id@),
            r is Some ==> r->0@ == self@[id@] && r->0.wf(),
    {
        match self.find(id) {
            Some(i) => Some(&self.entries[i].1),
            None => None,
        }
    }

    /// Store a commit under its id. A commit whose id is already present is
    /// left as stored: commits are immutable.
    pub fn insert(&mut self, id: String, commit: Commit) -> (added: bool)
        requires
            old(self).wf(),
            commit.wf(),
        ensures
            final(self).wf(),
            added <==> !old(self)@.contains_key(id@),
            !added ==> final(self)@ == old(self)@,
            added ==> final(self)@ == old(self)@.insert(id@, commit@),
    {
        match self.find(id.as_str()) {
            Some(_) => false,
            None => {
                let ghost s = self.entries@;
                proof {
                    lemma_commit_map_props(s);
                    assert forall|i: int| 0 <= i < s.len() implies (#[trigger] s[i]).0@
                        != id@ by {
                        assert(commit_map_of(s).contains_key(s[i].0@));
                    }
                }
                let ghost commit_view = commit@;
                self.entries.push((id, commit));
                proof {
                    assert(self.entries@.drop_last() =~= s);
                    assert(forall|i: int| 0 <= i < s.len() ==> self.entries@[i] == s[i]);
                    assert(commit_keys_distinct(self.entries@));
                    assert(self@ == commit_map_of(s).insert(self.entries@.last().0@, commit_view));
                }
                true
            },
        }
    }

    /// The stored commit ids that begin with `prefix`, each exactly once.
    pub fn matching_ids(&self, prefix: &str) -> (r: Vec<String>)
        requires
            self.wf(),
        ensures
            forall|j: int|
                0 <= j < r@.len() ==> self@.contains_key((#[trigger] r@[j])@) && is_prefix(
                    prefix@,
                    r@[j]@,
                ),
            forall|k: Seq<char>| #[trigger]
                self@.contains_key(k) && is_prefix(prefix@, k) ==> exists|j: int|
                    0 <= j < r@.len() && r@[j]@ == k,
            forall|j1: int, j2: int| 0 <= j1 < j2 < r@.len() ==> r@[j1]@ != r@[j2]@,
    {
        proof {
            lemma_commit_map_props(self.entries@);
        }
        let n = self.entries.len();
        let mut r: Vec<String> = Vec::new();
        let ghost mut idxs: Seq<int> = Seq::empty();
        let mut i: usize = 0;
        while i < n
            invariant
                i <= n,
                n == self.spec_count(),
                self.wf(),
                r@.len() == idxs.len(),
                forall|j: int|
                    0 <= j < idxs.len() ==> 0 <= #[trigger] idxs[j] < i && r@[j]@
                        == self.entries@[idxs[j]].0@ && is_prefix(prefix@, r@[j]@),
                forall|j1: int, j2: int| 0 <= j1 < j2 < idxs.len() ==> idxs[j1] < idxs[j2],
                forall|l: int|
                    0 <= l < i && is_prefix(prefix@, (#[trigger] self.entries@[l]).0@)
                        ==> exists|j: int| 0 <= j < idxs.len() && idxs[j] == l,
            decreases n - i,
        {
            let ghost idxs0 = idxs;
            if str_starts_with(self.entries[i].0.as_str(), prefix) {
                r.push(self.entries[i].0.clone());
                proof {
                    idxs = idxs.push(i as int);
                }
            }
            proof {
                assert forall|l: int|
                    0 <= l < i + 1 && is_prefix(
                        prefix@,
                        (#[trigger] self.entries@[l]).0@,
                    ) implies exists|j: int| 0 <= j < idxs.len() && idxs[j] == l by {
                    if l == i as int {
                        assert(idxs[idxs.len() - 1] == l);
                    } else {
                        let j = choose|j: int| 0 <= j < idxs0.len() && idxs0[j] == l;
                        assert(idxs[j] == l);
                    }
                }
            }
            i = i + 1;
        }
        proof {
            assert forall|j: int|
                0 <= j < r@.len() implies self@.contains_key((#[trigger] r@[j])@) && is_prefix(
                prefix@,
                r@[j]@,
            ) by {
                assert(self@.contains_key(self.entries@[idxs[j]].0@));
            }
            assert forall|k: Seq<char>| #[trigger]
                self@.contains_key(k) && is_prefix(prefix@, k) implies exists|j: int|
                0 <= j < r@.len() && r@[j]@ == k by {
                let l = choose|l: int| 0 <= l < self.entries@.len() && self.entries@[l].0@ == k;
                assert(is_prefix(prefix@, self.entries@[l].0@));
                let j = choose|j: int| 0 <= j < idxs.len() && idxs[j] == l;
                assert(r@[j]@ == k);
            }
            assert forall|j1: int, j2: int| 0 <= j1 < j2 < r@.len() implies r@[j1]@ != r@[j2]@ by {
                assert(idxs[j1] < idxs[j2]);
                assert(self.entries@[idxs[j1]].0@ != self.entries@[idxs[j2]].0@);
            }
        }
        r
    }

    pub fn count(&self) -> (r: usize)
        ensures
            r == self.spec_count(),
    {
        self.entries.len()
    }

    /// The stored commit at position `i`: its id and the commit itself.
    pub fn entry_at(&self, i: usize) -> (r: (&String, &Commit))
        requires
            self.wf(),
            i < self.spec_count(),
        ensures
            self@.contains_key(r.0@),
            r.1@ == self@[r.0@],
            r.1.wf(),
    {
        proof {
            lemma_commit_map_props(self.entries@);
        }
        let e = &self.entries[i];
        (&e.0, &e.1)
    }
}

impl Commit {
    /// The stored commit that a reference points at; a reference to a commit
    /// the store does not hold means the project records are inconsistent.
    pub fn from_commit_ref(reference: &CommitRef, store: &CommitStore) -> (r: Result<
        Commit,
        GustError,
    >)
        requires
            store.wf(),
        ensures
            match r {
                Ok(c) => store@.contains_key(reference.commit_id@) && c@
                    == store@[reference.commit_id@] && c.wf(),
                Err(e) => !store@.contains_key(reference.commit_id@) && (
                e matches GustError::ProjectParsing(m) && m@
                    == "Tried to load nonexistent commit "@ + reference.commit_id@),
            },
    {
        match store.get(reference.commit_id.as_str()) {
            Some(c) => Ok(c.duplicate()),
            None => {
                let mut m = String::from_str("Tried to load nonexistent commit ");
                m.append(reference.commit_id.as_str());
                Err(GustError::ProjectParsing(m))
            },
        }
    }

    /// As `from_commit_ref`, for an optional reference: no reference means
    /// no commit, not an error.
    pub fn from_commit_ref_option(reference: Option<&CommitRef>, store: &CommitStore) -> (r: Result<
        Option<Commit>,
        GustError,
    >)
        requires
            store.wf(),
        ensures
            match r {
                Ok(oc) => match oc {
                    Some(c) => reference is Some && store@.contains_key(reference->0.commit_id@)
                        && c@ == store@[reference->0.commit_id@] && c.wf(),
                    None => reference is None,
                },
                Err(_) => reference is Some && !store@.contains_key(reference->0.commit_id@),
            },
    {
        match reference {
            Some(commit_ref) => {
                match Commit::from_commit_ref(commit_ref, store) {
                    Ok(c) => Ok(Some(c)),
                    Err(e) => Err(e),
                }
            },
            None => Ok(None),
        }
    }
}

} // verus!
