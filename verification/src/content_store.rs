use vstd::prelude::*;

use crate::digest::{digest_of, hash_bytes};
use crate::error::GustError;
use crate::strutil::str_eq;

verus! {

/// Content-addressed blob storage: whole file contents keyed by the digest
/// of the bytes. Objects are immutable once written; there is no update and
/// no delete.
pub struct ContentStore {
    entries: Vec<(String, Vec<u8>)>,
}

spec fn blob_map_of(s: Seq<(String, Vec<u8>)>) -> Map<Seq<char>, Seq<u8>>
    decreases s.len(),
{
    if s.len() == 0 {
        Map::empty()
    } else {
        blob_map_of(s.drop_last()).insert(s.last().0@, s.last().1@)
    }
}

impl View for ContentStore {
    type V = Map<Seq<char>, Seq<u8>>;

    closed spec fn view(&self) -> Map<Seq<char>, Seq<u8>> {
        blob_map_of(self.entries@)
    }
}

/// What `put` does to the stored mapping: nothing when the digest is already
/// a key, else one new entry under the digest of the bytes.
pub open spec fn spec_put(m: Map<Seq<char>, Seq<u8>>, content: Seq<u8>) -> Map<Seq<char>, Seq<u8>> {
    if m.contains_key(digest_of(content)) {
        m
    } else {
        m.insert(digest_of(content), content)
    }
}

spec fn keys_distinct(s: Seq<(String, Vec<u8>)>) -> bool {
    forall|i: int, j: int| 0 <= i < j < s.len() ==> (#[trigger] s[i]).0@ != (#[trigger] s[j]).0@
}

/// A sequence of entries with distinct keys maps each key to its paired
/// bytes, and holds exactly the keys of its entries.
proof fn lemma_blob_map_props(s: Seq<(String, Vec<u8>)>)
    requires
        keys_distinct(s),
    ensures
        forall|k: Seq<char>| #[trigger]
            blob_map_of(s).contains_key(k) <==> exists|i: int| 0 <= i < s.len() && s[i].0@ == k,
        forall|i: int|
            0 <= i < s.len() ==> blob_map_of(s).contains_key((#[trigger] s[i]).0@) && blob_map_of(
                s,
            )[s[i].0@] == s[i].1@,
    decreases s.len(),
{
    if s.len() == 0 {
    } else {
        let t = s.drop_last();
        let m = blob_map_of(s);
        assert(forall|i: int| 0 <= i < t.len() ==> t[i] == s[i]);
        lemma_blob_map_props(t);
        assert forall|i: int|
            0 <= i < s.len() implies m.contains_key((#[trigger] s[i]).0@) && m[s[i].0@]
            == s[i].1@ by {
            if i < s.len() - 1 {
                assert(s[i].0@ != s[s.len() - 1].0@);
                assert(blob_map_of(t).contains_key(t[i].0@));
            }
        }
        assert forall|k: Seq<char>| #[trigger]
            m.contains_key(k) implies exists|i: int| 0 <= i < s.len() && s[i].0@ == k by {
            if k == s.last().0@ {
                assert(s[s.len() - 1].0@ == k);
            } else {
                assert(blob_map_of(t).contains_key(k));
                let i = choose|i: int| 0 <= i < t.len() && t[i].0@ == k;
                assert(s[i].0@ == k);
            }
        }
        assert forall|k: Seq<char>| exists|i: int|
            0 <= i < s.len() && s[i].0@ == k implies #[trigger] m.contains_key(k) by {
            let i = choose|i: int| 0 <= i < s.len() && s[i].0@ == k;
            if i < s.len() - 1 {
                assert(t[i].0@ == k);
            }
        }
    }
}

impl ContentStore {
    /// Every stored entry sits under the digest of its own bytes, and no key
    /// repeats.
    pub closed spec fn wf(&self) -> bool {
        keys_distinct(self.entries@) && (forall|i: int|
            0 <= i < self.entries@.len() ==> (#[trigger] self.entries@[i]).0@ == digest_of(
                self.entries@[i].1@,
            ))
    }

    pub closed spec fn spec_count(&self) -> nat {
        self.entries@.len()
    }

    /// A well-formed store binds every key to bytes whose digest is that key.
    pub proof fn lemma_wf_faithful(&self)
        requires
            self.wf(),
        ensures
            forall|k: Seq<char>| #[trigger]
                self@.contains_key(k) ==> digest_of(self@[k]) == k,
    {
        lemma_blob_map_props(self.entries@);
        assert forall|k: Seq<char>| #[trigger]
            self@.contains_key(k) implies digest_of(self@[k]) == k by {
            let i = choose|i: int| 0 <= i < self.entries@.len() && self.entries@[i].0@ == k;
            assert(self@[k] == self.entries@[i].1@);
        }
    }

    /// An empty store.
    pub fn new() -> (r: Self)
        ensures
            r.wf(),
            r@ == Map::<Seq<char>, Seq<u8>>::empty(),
            r.spec_count() == 0,
    {
        ContentStore { entries: Vec::new() }
    }

    /// Position of `key` among the entries, if present.
    fn find(&self, key: &str) -> (r: Option<usize>)
        ensures
            match r {
                Some(i) => i < self.spec_count() && self.entries@[i as int].0@ == key@ && (self.wf()
                    ==> self@.contains_key(key@) && self@[key@] == self.entries@[i as int].1@),
                None => self.wf() ==> !self@.contains_key(key@),
            },
    {
        proof {
            if self.wf() {
                lemma_blob_map_props(self.entries@);
            }
        }
        let n = self.entries.len();
        let mut i: usize = 0;
        while i < n
            invariant
                i <= n,
                n == self.spec_count(),
                forall|j: int| 0 <= j < i ==> (#[trigger] self.entries@[j]).0@ != key@,
            decreases n - i,
        {
            if str_eq(self.entries[i].0.as_str(), key) {
                proof {
                    if self.wf() {
                        lemma_blob_map_props(self.entries@);
                        assert(blob_map_of(self.entries@).contains_key(
                            self.entries@[i as int].0@,
                        ));
                    }
                }
                return Some(i);
            }
            i = i + 1;
        }
        proof {
            if self.wf() && self@.contains_key(key@) {
                let w = choose|w: int| 0 <= w < self.entries@.len() && self.entries@[w].0@ == key@;
                assert(self.entries@[w].0@ != key@);
            }
        }
        None
    }

    /// Whether an object with this digest is stored.
    pub fn contains(&self, key: &str) -> (r: bool)
        requires
            self.wf(),
        ensures
            r <==> self@.contains_key(key@),
    {
        self.find(key).is_some()
    }

    /// Store `content` under the digest of its bytes. When an object with
    /// that digest already exists the store is left as it is.
    pub fn put(&mut self, content: &Vec<u8>) -> (d: String)
        requires
            old(self).wf(),
        ensures
            final(self).wf(),
            d@ == digest_of(content@),
            final(self)@ == spec_put(old(self)@, content@),
    {
        let d = hash_bytes(content.as_slice());
        match self.find(d.as_str()) {
            Some(_) => {
            },
            None => {
                let ghost s = self.entries@;
                proof {
                    lemma_blob_map_props(s);
                    assert forall|i: int| 0 <= i < s.len() implies (#[trigger] s[i]).0@ != d@ by {
                        assert(blob_map_of(s).contains_key(s[i].0@));
                    }
                }
                let content_copy = content.clone();
                proof {
                    assert(content_copy@ =~= content@);
                }
                self.entries.push((d.clone(), content_copy));
                proof {
                    assert(self.entries@.drop_last() =~= s);
                    assert(forall|i: int| 0 <= i < s.len() ==> self.entries@[i] == s[i]);
                    assert(self.entries@.last().0@ == d@);
                    assert(keys_distinct(self.entries@));
                    assert(self@ == blob_map_of(s).insert(d@, content@));
                }
            },
        }
        d
    }

    /// The bytes stored under `digest`; a digest with no object is refused.
    pub fn get(&self, digest: &str) -> (r: Result<&Vec<u8>, GustError>)
        requires
            self.wf(),
        ensures
            match r {
                Ok(v) => self@.contains_key(digest@) && v@ == self@[digest@],
                Err(e) => !self@.contains_key(digest@) && (e matches GustError::ProjectParsing(m)
                    && m@ == "Blob not found: "@ + digest@),
            },
    {
        match self.find(digest) {
            Some(i) => Ok(&self.entries[i].1),
            None => {
                let mut m = String::from_str("Blob not found: ");
                m.append(digest);
                Err(GustError::ProjectParsing(m))
            },
        }
    }

    /// Take a persisted object back in, verifying that it sits under the
    /// digest of its bytes; a mismatch means the record on disk is corrupt.
    pub fn insert_object(&mut self, key: &str, content: Vec<u8>) -> (r: Result<(), GustError>)
        requires
            old(self).wf(),
        ensures
            final(self).wf(),
            match r {
                Ok(_) => key@ == digest_of(content@) && final(self)@ == spec_put(
                    old(self)@,
                    content@,
                ),
                Err(e) => key@ != digest_of(content@) && final(self)@ == old(self)@ && (
                e matches GustError::ProjectParsing(m) && m@
                    == "Stored blob does not match its digest: "@ + key@),
            },
    {
        let d = hash_bytes(content.as_slice());
        if !str_eq(d.as_str(), key) {
            let mut m = String::from_str("Stored blob does not match its digest: ");
            m.append(key);
            return Err(GustError::ProjectParsing(m));
        }
        match self.find(key) {
            Some(_) => {
            },
            None => {
                let ghost s = self.entries@;
                proof {
                    lemma_blob_map_props(s);
                    assert forall|i: int| 0 <= i < s.len() implies (#[trigger] s[i]).0@ != key@ by {
                        assert(blob_map_of(s).contains_key(s[i].0@));
                    }
                }
                let ghost content_view = content@;
                self.entries.push((d, content));
                proof {
                    assert(self.entries@.drop_last() =~= s);
                    assert(forall|i: int| 0 <= i < s.len() ==> self.entries@[i] == s[i]);
                    assert(self.entries@.last().0@ == key@);
                    assert(keys_distinct(self.entries@));
                    assert(self@ == blob_map_of(s).insert(key@, content_view));
                }
            },
        }
        Ok(())
    }

    pub fn count(&self) -> (r: usize)
        ensures
            r == self.spec_count(),
    {
        self.entries.len()
    }

    /// The stored object at position `i`: its digest key and its bytes.
    pub fn entry_at(&self, i: usize) -> (r: (&String, &Vec<u8>))
        requires
            self.wf(),
            i < self.spec_count(),
        ensures
            self@.contains_key(r.0@),
            r.1@ == self@[r.0@],
            r.0@ == digest_of(r.1@),
    {
        proof {
            lemma_blob_map_props(self.entries@);
        }
        let e = &self.entries[i];
        (&e.0, &e.1)
    }
}

/// Putting the same bytes twice is a no-op on storage: the second `put`
/// changes nothing.
pub proof fn lemma_put_idempotent(m: Map<Seq<char>, Seq<u8>>, c: Seq<u8>)
    ensures
        spec_put(spec_put(m, c), c) == spec_put(m, c),
{
}

/// Law: after storing a file's bytes, reading under the returned digest
/// yields those bytes. The one caveat of content addressing: the store must
/// not already bind that digest to different bytes.
pub proof fn lemma_put_get_round_trip(m: Map<Seq<char>, Seq<u8>>, c: Seq<u8>)
    requires
        m.contains_key(digest_of(c)) ==> m[digest_of(c)] == c,
    ensures
        spec_put(m, c).contains_key(digest_of(c)),
        spec_put(m, c)[digest_of(c)] == c,
{
}

} // verus!
