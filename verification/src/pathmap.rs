use vstd::prelude::*;

use crate::paths::RootRelativePath;
use crate::strutil::{lex_lt, lemma_lex_lt_total, str_cmp, StrOrd};

verus! {

/// A value that can be duplicated without loss.
pub trait Dup: Sized {
    fn dup(&self) -> (r: Self)
        ensures
            r == *self,
    ;
}

/// The keys of `s` are strictly ascending in lexicographic order.
pub open spec fn entry_seq_sorted<V>(s: Seq<(Seq<char>, V)>) -> bool {
    forall|i: int, j: int| 0 <= i < j < s.len() ==> lex_lt(s[i].0, s[j].0)
}

/// The finite map that a sequence of key-value pairs denotes; a later pair
/// wins over an earlier one with the same key.
pub open spec fn entry_seq_map<V>(s: Seq<(Seq<char>, V)>) -> Map<Seq<char>, V>
    decreases s.len(),
{
    if s.len() == 0 {
        Map::empty()
    } else {
        entry_seq_map(s.drop_last()).insert(s.last().0, s.last().1)
    }
}

/// A mapping from root-relative path to value, kept sorted by path so that
/// equal mappings are stored identically.
#[derive(Debug)]
pub struct PathMap<V> {
    entries: Vec<(RootRelativePath, V)>,
}

impl<V> View for PathMap<V> {
    type V = Map<Seq<char>, V>;

    open spec fn view(&self) -> Map<Seq<char>, V> {
        entry_seq_map(self.entries_view())
    }
}

/// A sorted sequence of pairs maps each of its keys to the paired value, and
/// holds exactly the keys of its pairs.
pub proof fn lemma_entry_seq_map_props<V>(s: Seq<(Seq<char>, V)>)
    requires
        entry_seq_sorted(s),
    ensures
        forall|k: Seq<char>| #[trigger]
            entry_seq_map(s).contains_key(k) <==> exists|i: int| 0 <= i < s.len() && s[i].0 == k,
        forall|i: int|
            0 <= i < s.len() ==> entry_seq_map(s).contains_key(#[trigger] s[i].0)
                && entry_seq_map(s)[s[i].0] == s[i].1,
    decreases s.len(),
{
    if s.len() == 0 {
    } else {
        let t = s.drop_last();
        let m = entry_seq_map(s);
        assert(forall|i: int| 0 <= i < t.len() ==> t[i] == s[i]);
        lemma_entry_seq_map_props(t);
        assert forall|i: int|
            0 <= i < s.len() implies m.contains_key(#[trigger] s[i].0) && m[s[i].0] == s[i].1 by {
            if i < s.len() - 1 {
                lemma_lex_lt_total(s[i].0, s.last().0);
                assert(t[i].0 == s[i].0);
                assert(entry_seq_map(t).contains_key(s[i].0));
            }
        }
        assert forall|k: Seq<char>| #[trigger]
            m.contains_key(k) implies exists|i: int| 0 <= i < s.len() && s[i].0 == k by {
            if k == s.last().0 {
                assert(s[s.len() - 1].0 == k);
            } else {
                assert(entry_seq_map(t).contains_key(k));
                let i = choose|i: int| 0 <= i < t.len() && t[i].0 == k;
                assert(s[i].0 == k);
            }
        }
        assert forall|k: Seq<char>| exists|i: int|
            0 <= i < s.len() && s[i].0 == k implies #[trigger] m.contains_key(k) by {
            let i = choose|i: int| 0 <= i < s.len() && s[i].0 == k;
            if i == s.len() - 1 {
            } else {
                assert(t[i].0 == k);
            }
        }
    }
}

/// Inserting a pair where its key belongs keeps the sequence sorted and
/// inserts into the denoted map.
proof fn lemma_entry_seq_insert_at<V>(s: Seq<(Seq<char>, V)>, p: int, k: Seq<char>, v: V)
    requires
        entry_seq_sorted(s),
        0 <= p <= s.len(),
        forall|j: int| 0 <= j < p ==> lex_lt(s[j].0, k),
        forall|j: int| p <= j < s.len() ==> lex_lt(k, s[j].0),
    ensures
        entry_seq_sorted(s.insert(p, (k, v))),
        entry_seq_map(s.insert(p, (k, v))) == entry_seq_map(s).insert(k, v),
    decreases s.len(),
{
    let s2 = s.insert(p, (k, v));
    assert(entry_seq_sorted(s2)) by {
        assert forall|i: int, j: int| 0 <= i < j < s2.len() implies lex_lt(s2[i].0, s2[j].0) by {
            assert(s2[i] == if i < p {
                s[i]
            } else if i == p {
                (k, v)
            } else {
                s[i - 1]
            });
            assert(s2[j] == if j < p {
                s[j]
            } else if j == p {
                (k, v)
            } else {
                s[j - 1]
            });
            if i < p && j > p {
                lemma_lex_lt_total(s[i].0, k);
                crate::strutil::lemma_lex_lt_trans(s[i].0, k, s[j - 1].0);
            }
        }
    }
    if p == s.len() {
        assert(s2.drop_last() =~= s);
        assert(s2.last() == (k, v));
        assert(entry_seq_map(s2) == entry_seq_map(s).insert(k, v));
    } else {
        let t = s.drop_last();
        assert(s2.last() == s.last());
        assert(s2.drop_last() =~= t.insert(p, (k, v)));
        assert(entry_seq_sorted(t)) by {
            assert(forall|i: int| 0 <= i < t.len() ==> t[i] == s[i]);
        }
        lemma_entry_seq_insert_at(t, p, k, v);
        assert(entry_seq_map(s2) == entry_seq_map(t).insert(k, v).insert(
            s.last().0,
            s.last().1,
        ));
        lemma_lex_lt_total(k, s.last().0);
        assert(entry_seq_map(t).insert(k, v).insert(s.last().0, s.last().1) =~= entry_seq_map(
            t,
        ).insert(s.last().0, s.last().1).insert(k, v));
        assert(entry_seq_map(s2) =~= entry_seq_map(s).insert(k, v));
    }
}

/// Replacing the value at one position keeps the sequence sorted and updates
/// the denoted map at that key.
proof fn lemma_entry_seq_update_at<V>(s: Seq<(Seq<char>, V)>, p: int, v: V)
    requires
        entry_seq_sorted(s),
        0 <= p < s.len(),
    ensures
        entry_seq_sorted(s.update(p, (s[p].0, v))),
        entry_seq_map(s.update(p, (s[p].0, v))) == entry_seq_map(s).insert(s[p].0, v),
    decreases s.len(),
{
    let s2 = s.update(p, (s[p].0, v));
    assert(entry_seq_sorted(s2)) by {
        assert(forall|i: int| 0 <= i < s.len() ==> s2[i].0 == s[i].0);
    }
    if p == s.len() - 1 {
        assert(s2.drop_last() =~= s.drop_last());
        assert(entry_seq_map(s2) == entry_seq_map(s.drop_last()).insert(s[p].0, v));
        assert(entry_seq_map(s).insert(s[p].0, v) =~= entry_seq_map(s.drop_last()).insert(
            s[p].0,
            v,
        ));
    } else {
        let t = s.drop_last();
        assert(entry_seq_sorted(t)) by {
            assert(forall|i: int| 0 <= i < t.len() ==> t[i] == s[i]);
        }
        assert(s2.drop_last() =~= t.update(p, (t[p].0, v)));
        assert(s2.last() == s.last());
        lemma_entry_seq_update_at(t, p, v);
        assert(entry_seq_map(s2) == entry_seq_map(t).insert(t[p].0, v).insert(
            s.last().0,
            s.last().1,
        ));
        lemma_lex_lt_total(s[p].0, s.last().0);
        assert(entry_seq_map(t).insert(t[p].0, v).insert(s.last().0, s.last().1)
            =~= entry_seq_map(t).insert(s.last().0, s.last().1).insert(s[p].0, v));
    }
}

/// Removing the pair at one position keeps the sequence sorted and removes
/// its key from the denoted map.
proof fn lemma_entry_seq_remove_at<V>(s: Seq<(Seq<char>, V)>, p: int)
    requires
        entry_seq_sorted(s),
        0 <= p < s.len(),
    ensures
        entry_seq_sorted(s.remove(p)),
        entry_seq_map(s.remove(p)) == entry_seq_map(s).remove(s[p].0),
    decreases s.len(),
{
    let s2 = s.remove(p);
    assert(entry_seq_sorted(s2)) by {
        assert(forall|i: int|
            0 <= i < s2.len() ==> s2[i] == if i < p {
                s[i]
            } else {
                s[i + 1]
            });
    }
    lemma_entry_seq_map_props(s);
    if p == s.len() - 1 {
        assert(s2 =~= s.drop_last());
        assert(!entry_seq_map(s.drop_last()).contains_key(s[p].0)) by {
            assert(forall|i: int| 0 <= i < s.drop_last().len() ==> s.drop_last()[i] == s[i]);
            assert(entry_seq_sorted(s.drop_last()));
            lemma_entry_seq_map_props(s.drop_last());
            assert forall|i: int| 0 <= i < s.drop_last().len() implies s.drop_last()[i].0
                != s[p].0 by {
                lemma_lex_lt_total(s[i].0, s[p].0);
            }
        }
        assert(entry_seq_map(s2) =~= entry_seq_map(s).remove(s[p].0));
    } else {
        let t = s.drop_last();
        assert(entry_seq_sorted(t)) by {
            assert(forall|i: int| 0 <= i < t.len() ==> t[i] == s[i]);
        }
        assert(s2.drop_last() =~= t.remove(p));
        assert(s2.last() == s.last());
        lemma_entry_seq_remove_at(t, p);
        assert(entry_seq_map(s2) == entry_seq_map(t).remove(t[p].0).insert(
            s.last().0,
            s.last().1,
        ));
        lemma_lex_lt_total(s[p].0, s.last().0);
        assert(entry_seq_map(t).remove(t[p].0).insert(s.last().0, s.last().1) =~= entry_seq_map(
            t,
        ).insert(s.last().0, s.last().1).remove(s[p].0));
    }
}

/// Two sorted sequences of pairs that denote the same map are the same
/// sequence: sorting makes the stored form canonical.
pub proof fn lemma_sorted_map_determines_entries<V>(
    s1: Seq<(Seq<char>, V)>,
    s2: Seq<(Seq<char>, V)>,
)
    requires
        entry_seq_sorted(s1),
        entry_seq_sorted(s2),
        entry_seq_map(s1) == entry_seq_map(s2),
    ensures
        s1 =~= s2,
    decreases s1.len(),
{
    lemma_entry_seq_map_props(s1);
    lemma_entry_seq_map_props(s2);
    let m = entry_seq_map(s1);
    if s1.len() == 0 && s2.len() == 0 {
    } else if s1.len() == 0 {
        assert(m.contains_key(s2[0].0));
        assert(false);
    } else if s2.len() == 0 {
        assert(entry_seq_map(s2).contains_key(s1[0].0));
        assert(false);
    } else {
        let k1 = s1.last().0;
        let k2 = s2.last().0;
        if k1 != k2 {
            assert(m.contains_key(k1)) by {
                assert(s1[s1.len() - 1].0 == k1);
            }
            assert(lex_lt(k1, k2)) by {
                let j = choose|j: int| 0 <= j < s2.len() && s2[j].0 == k1;
                assert(j < s2.len() - 1);
                assert(lex_lt(s2[j].0, k2));
            }
            assert(m.contains_key(k2)) by {
                assert(s2[s2.len() - 1].0 == k2);
            }
            assert(lex_lt(k2, k1)) by {
                let i = choose|i: int| 0 <= i < s1.len() && s1[i].0 == k2;
                assert(i < s1.len() - 1);
                assert(lex_lt(s1[i].0, k1));
            }
            lemma_lex_lt_total(k1, k2);
            assert(false);
        }
        assert(s1.last().1 == m[k1] && s2.last().1 == m[k1]) by {
            assert(s1[s1.len() - 1].0 == k1);
            assert(s2[s2.len() - 1].0 == k2);
        }
        let t1 = s1.drop_last();
        let t2 = s2.drop_last();
        lemma_entry_seq_remove_at(s1, s1.len() - 1);
        lemma_entry_seq_remove_at(s2, s2.len() - 1);
        assert(s1.remove(s1.len() - 1) =~= t1);
        assert(s2.remove(s2.len() - 1) =~= t2);
        assert(entry_seq_map(t1) == m.remove(k1));
        assert(entry_seq_map(t2) == entry_seq_map(s2).remove(k2));
        assert(entry_seq_sorted(t1)) by {
            assert(forall|i: int| 0 <= i < t1.len() ==> t1[i] == s1[i]);
        }
        assert(entry_seq_sorted(t2)) by {
            assert(forall|i: int| 0 <= i < t2.len() ==> t2[i] == s2[i]);
        }
        lemma_sorted_map_determines_entries(t1, t2);
        assert(s1 =~= s2) by {
            assert(forall|i: int| 0 <= i < s1.len() - 1 ==> s1[i] == t1[i] && s2[i] == t2[i]);
        }
    }
}

impl<V> PathMap<V> {
    /// The stored pairs, keys as character sequences, in storage order.
    pub closed spec fn entries_view(&self) -> Seq<(Seq<char>, V)> {
        self.entries@.map(|i: int, e: (RootRelativePath, V)| (e.0@, e.1))
    }

    /// The pairs are sorted by key, so a mapping has exactly one storage
    /// form.
    pub open spec fn wf(&self) -> bool {
        entry_seq_sorted(self.entries_view())
    }

    pub open spec fn spec_len(&self) -> nat {
        self.entries_view().len()
    }

    /// The keys of the stored pairs are exactly the domain of the map.
    pub proof fn lemma_view(&self)
        requires
            self.wf(),
        ensures
            forall|i: int|
                0 <= i < self.spec_len() ==> self@.contains_key(
                    #[trigger] self.entries_view()[i].0,
                ) && self@[self.entries_view()[i].0] == self.entries_view()[i].1,
            forall|k: Seq<char>| #[trigger]
                self@.contains_key(k) <==> exists|i: int| 0 <= i < self.spec_len()
                    && self.entries_view()[i].0 == k,
    {
        lemma_entry_seq_map_props(self.entries_view());
    }

    /// An empty mapping.
    pub fn new() -> (r: Self)
        ensures
            r.wf(),
            r@ == Map::<Seq<char>, V>::empty(),
            r.spec_len() == 0,
    {
        let r = PathMap { entries: Vec::new() };
        proof {
            assert(r.entries_view() =~= Seq::<(Seq<char>, V)>::empty());
        }
        r
    }

    pub fn len(&self) -> (r: usize)
        ensures
            r == self.spec_len(),
    {
        self.entries.len()
    }

    pub fn is_empty(&self) -> (r: bool)
        requires
            self.wf(),
        ensures
            r <==> self@ =~= Map::<Seq<char>, V>::empty(),
            r <==> self.spec_len() == 0,
    {
        proof {
            self.lemma_view();
            if self.spec_len() > 0 {
                assert(self@.contains_key(self.entries_view()[0].0));
            }
        }
        self.entries.len() == 0
    }

    /// The pair at position `i`, in key order.
    pub fn entry_at(&self, i: usize) -> (r: (&RootRelativePath, &V))
        requires
            i < self.spec_len(),
        ensures
            r.0@ == self.entries_view()[i as int].0,
            *r.1 == self.entries_view()[i as int].1,
    {
        let e = &self.entries[i];
        (&e.0, &e.1)
    }

    /// Position of `path` among the stored pairs: the first position whose
    /// key is not below `path`.
    fn position_of(&self, path: &RootRelativePath) -> (r: (usize, bool))
        requires
            self.wf(),
        ensures
            r.0 <= self.spec_len(),
            forall|j: int| 0 <= j < r.0 ==> lex_lt(#[trigger] self.entries_view()[j].0, path@),
            r.1 ==> r.0 < self.spec_len() && self.entries_view()[r.0 as int].0 == path@,
            !r.1 ==> forall|j: int|
                r.0 <= j < self.spec_len() ==> lex_lt(path@, #[trigger] self.entries_view()[j].0),
    {
        let n = self.entries.len();
        let mut i: usize = 0;
        while i < n
            invariant
                i <= n,
                n == self.spec_len(),
                self.wf(),
                forall|j: int| 0 <= j < i ==> lex_lt(#[trigger] self.entries_view()[j].0, path@),
            decreases n - i,
        {
            let e = &self.entries[i];
            match str_cmp(e.0.as_str(), path.as_str()) {
                StrOrd::Less => {
                    i = i + 1;
                },
                StrOrd::Equal => {
                    return (i, true);
                },
                StrOrd::Greater => {
                    proof {
                        assert forall|j: int| i <= j < self.spec_len() implies lex_lt(
                            path@,
                            #[trigger] self.entries_view()[j].0,
                        ) by {
                            if j > i {
                                crate::strutil::lemma_lex_lt_trans(
                                    path@,
                                    self.entries_view()[i as int].0,
                                    self.entries_view()[j].0,
                                );
                            }
                        }
                    }
                    return (i, false);
                },
            }
        }
        (n, false)
    }

    /// Whether `path` has a value.
    pub fn contains(&self, path: &RootRelativePath) -> (r: bool)
        requires
            self.wf(),
        ensures
            r <==> self@.contains_key(path@),
    {
        proof {
            self.lemma_view();
        }
        let (i, found) = self.position_of(path);
        proof {
            if !found {
                assert forall|j: int| 0 <= j < self.spec_len() implies self.entries_view()[j].0
                    != path@ by {
                    lemma_lex_lt_total(self.entries_view()[j].0, path@);
                }
            }
        }
        found
    }

    /// The value at `path`, if any.
    pub fn get(&self, path: &RootRelativePath) -> (r: Option<&V>)
        requires
            self.wf(),
        ensures
            r is Some <==> self@.contains_key(path@),
            r is Some ==> *r->0 == self@[path@],
    {
        proof {
            self.lemma_view();
        }
        let (i, found) = self.position_of(path);
        proof {
            if !found {
                assert forall|j: int| 0 <= j < self.spec_len() implies self.entries_view()[j].0
                    != path@ by {
                    lemma_lex_lt_total(self.entries_view()[j].0, path@);
                }
            }
        }
        if found {
            Some(&self.entries[i].1)
        } else {
            None
        }
    }

    /// Map `path` to `value`, replacing any previous value.
    pub fn insert(&mut self, path: RootRelativePath, value: V)
        requires
            old(self).wf(),
        ensures
            final(self).wf(),
            final(self)@ == old(self)@.insert(path@, value),
    {
        let ghost s = self.entries_view();
        let (i, found) = self.position_of(&path);
        if found {
            proof {
                lemma_entry_seq_update_at(s, i as int, value);
            }
            self.entries.set(i, (path, value));
            proof {
                assert(self.entries_view() =~= s.update(i as int, (s[i as int].0, value)));
            }
        } else {
            proof {
                lemma_entry_seq_insert_at(s, i as int, path@, value);
            }
            self.entries.insert(i, (path, value));
            proof {
                assert(self.entries_view() =~= s.insert(i as int, (path@, value)));
            }
        }
    }

    /// Drop the value at `path`; a missing path is left as it is.
    pub fn remove(&mut self, path: &RootRelativePath)
        requires
            old(self).wf(),
        ensures
            final(self).wf(),
            final(self)@ == old(self)@.remove(path@),
    {
        let ghost s = self.entries_view();
        let (i, found) = self.position_of(path);
        if found {
            proof {
                lemma_entry_seq_remove_at(s, i as int);
            }
            self.entries.remove(i);
            proof {
                assert(self.entries_view() =~= s.remove(i as int));
            }
        } else {
            proof {
                lemma_entry_seq_map_props(s);
                assert forall|j: int| 0 <= j < s.len() implies s[j].0 != path@ by {
                    lemma_lex_lt_total(s[j].0, path@);
                }
                assert(!entry_seq_map(s).contains_key(path@));
                assert(entry_seq_map(s).remove(path@) =~= entry_seq_map(s));
            }
        }
    }

    /// Drop every pair.
    pub fn clear(&mut self)
        ensures
            final(self).wf(),
            final(self)@ =~= Map::<Seq<char>, V>::empty(),
            final(self).spec_len() == 0,
    {
        self.entries.clear();
        proof {
            assert(self.entries_view() =~= Seq::<(Seq<char>, V)>::empty());
        }
    }
}

impl<V: Dup> PathMap<V> {
    /// An independent copy of this mapping.
    pub fn duplicate(&self) -> (r: Self)
        requires
            self.wf(),
        ensures
            r.wf(),
            r@ == self@,
            r.entries_view() == self.entries_view(),
    {
        let n = self.entries.len();
        let mut entries: Vec<(RootRelativePath, V)> = Vec::new();
        let mut i: usize = 0;
        while i < n
            invariant
                i <= n,
                n == self.spec_len(),
                entries@.len() == i,
                forall|j: int|
                    0 <= j < i ==> (#[trigger] entries@[j]).0@ == self.entries_view()[j].0
                        && entries@[j].1 == self.entries_view()[j].1,
            decreases n - i,
        {
            let e = &self.entries[i];
            entries.push((e.0.clone(), e.1.dup()));
            i = i + 1;
        }
        let r = PathMap { entries };
        proof {
            assert(r.entries_view() =~= self.entries_view());
        }
        r
    }
}

} // verus!
