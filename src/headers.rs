//! An order-preserving header map with unique keys.
use vstd::prelude::*;
use crate::http::same_chars;

verus! {

/// Header entries as (key, value) pairs, in the order in which they were added.
pub type HeaderSeq = Seq<(Seq<char>, Seq<char>)>;

/// No key occurs twice.
pub open spec fn keys_unique(hs: HeaderSeq) -> bool {
    forall|i: int, j: int| 0 <= i < hs.len() && 0 <= j < hs.len() && i != j ==> hs[i].0 != hs[j].0
}

pub open spec fn has_key(hs: HeaderSeq, k: Seq<char>) -> bool {
    exists|i: int| 0 <= i < hs.len() && hs[i].0 == k
}

/// The position of a key that occurs.
pub open spec fn key_index(hs: HeaderSeq, k: Seq<char>) -> int {
    choose|i: int| 0 <= i < hs.len() && hs[i].0 == k
}

/// Inserting a key: a key already present keeps its place and takes the new
/// value; a new key goes at the end.
pub open spec fn header_insert(hs: HeaderSeq, k: Seq<char>, v: Seq<char>) -> HeaderSeq {
    if has_key(hs, k) {
        hs.update(key_index(hs, k), (k, v))
    } else {
        hs.push((k, v))
    }
}

/// The value stored under a key.
pub open spec fn header_lookup(hs: HeaderSeq, k: Seq<char>) -> Option<Seq<char>> {
    if has_key(hs, k) {
        Some(hs[key_index(hs, k)].1)
    } else {
        None
    }
}

/// Inserting keeps the keys unique, and the key then maps to the new value.
pub proof fn lemma_header_insert(hs: HeaderSeq, k: Seq<char>, v: Seq<char>)
    requires
        keys_unique(hs),
    ensures
        keys_unique(header_insert(hs, k, v)),
        header_lookup(header_insert(hs, k, v), k) == Some(v),
{
    let r = header_insert(hs, k, v);
    if has_key(hs, k) {
        let i = key_index(hs, k);
        assert(r[i].0 == k);
        assert(has_key(r, k));
        let j = key_index(r, k);
        assert(j == i);
    } else {
        assert(r == hs.push((k, v)));
        assert(r.len() == hs.len() + 1);
        assert(r[hs.len() as int].0 == k);
        assert(has_key(r, k));
        let j = key_index(r, k);
        assert(j == hs.len());
    }
}

/// The map that inserting `pairs` one after another into an empty map gives.
pub open spec fn insert_all(pairs: HeaderSeq) -> HeaderSeq
    decreases pairs.len(),
{
    if pairs.len() == 0 {
        Seq::empty()
    } else {
        header_insert(insert_all(pairs.drop_last()), pairs.last().0, pairs.last().1)
    }
}

/// Inserting pairs one after another leaves each key that occurs once, and
/// no other key, and maps it to the value of its last occurrence.
pub proof fn later_header_wins(pairs: HeaderSeq, k: Seq<char>, j: int)
    requires
        0 <= j < pairs.len(),
        pairs[j].0 == k,
        forall|l: int| j < l < pairs.len() ==> pairs[l].0 != k,
    ensures
        keys_unique(insert_all(pairs)),
        forall|key: Seq<char>| has_key(insert_all(pairs), key) <==> exists|i: int| 0 <= i < pairs.len() && #[trigger] pairs[i].0 == key,
        header_lookup(insert_all(pairs), k) == Some(pairs[j].1),
    decreases pairs.len(),
{
    lemma_insert_all_keys(pairs);
    let p = pairs.drop_last();
    let last = pairs.last();
    lemma_insert_all_keys(p);
    if j == pairs.len() - 1 {
        lemma_header_insert(insert_all(p), last.0, last.1);
    } else {
        assert(p[j] == pairs[j]);
        later_header_wins(p, k, j);
        assert(last.0 != k);
        lemma_insert_other_key(insert_all(p), last.0, last.1, k);
    }
}

/// The keys of the map are exactly the keys of the pairs.
pub proof fn lemma_insert_all_keys(pairs: HeaderSeq)
    ensures
        keys_unique(insert_all(pairs)),
        forall|k: Seq<char>| has_key(insert_all(pairs), k) <==> exists|j: int| 0 <= j < pairs.len() && #[trigger] pairs[j].0 == k,
    decreases pairs.len(),
{
    if pairs.len() > 0 {
        let p = pairs.drop_last();
        let last = pairs.last();
        lemma_insert_all_keys(p);
        lemma_header_insert(insert_all(p), last.0, last.1);
        let r = insert_all(pairs);
        assert forall|k: Seq<char>| has_key(r, k) <==> exists|j: int| 0 <= j < pairs.len() && #[trigger] pairs[j].0 == k by {
            if k == last.0 {
                assert(pairs[pairs.len() - 1].0 == k);
                assert(header_lookup(r, k) is Some);
            } else {
                lemma_insert_other_key(insert_all(p), last.0, last.1, k);
                if has_key(r, k) {
                    assert(has_key(insert_all(p), k));
                    let j = choose|j: int| 0 <= j < p.len() && #[trigger] p[j].0 == k;
                    assert(pairs[j] == p[j]);
                }
                if exists|j: int| 0 <= j < pairs.len() && #[trigger] pairs[j].0 == k {
                    let j = choose|j: int| 0 <= j < pairs.len() && #[trigger] pairs[j].0 == k;
                    assert(j < p.len());
                    assert(p[j] == pairs[j]);
                }
            }
        }
    }
}

/// Inserting one key leaves the other keys as they were.
pub proof fn lemma_insert_other_key(hs: HeaderSeq, k: Seq<char>, v: Seq<char>, o: Seq<char>)
    requires
        keys_unique(hs),
        k != o,
    ensures
        has_key(header_insert(hs, k, v), o) == has_key(hs, o),
        header_lookup(header_insert(hs, k, v), o) == header_lookup(hs, o),
{
    let r = header_insert(hs, k, v);
    lemma_header_insert(hs, k, v);
    if has_key(hs, o) {
        let i = key_index(hs, o);
        assert(r[i] == hs[i]);
        assert(has_key(r, o));
        assert(key_index(r, o) == i);
    }
    if has_key(r, o) {
        let i = key_index(r, o);
        assert(r[i].0 == o);
        assert(hs[i] == r[i]);
        assert(has_key(hs, o));
    }
}

/// An order-preserving map from header names to values.
#[derive(Debug)]
pub struct HeaderMap {
    entries: Vec<(String, String)>,
}

impl View for HeaderMap {
    type V = HeaderSeq;

    closed spec fn view(&self) -> HeaderSeq {
        self.entries@.map_values(|e: (String, String)| (e.0@, e.1@))
    }
}

impl HeaderMap {
    pub open spec fn wf(&self) -> bool {
        keys_unique(self@)
    }

    pub fn new() -> (r: HeaderMap)
        ensures
            r@ == Seq::<(Seq<char>, Seq<char>)>::empty(),
            r.wf(),
    {
        let r = HeaderMap { entries: Vec::new() };
        assert(r@ =~= Seq::<(Seq<char>, Seq<char>)>::empty());
        r
    }

    pub fn len(&self) -> (r: usize)
        ensures
            r == self@.len(),
    {
        self.entries.len()
    }

    /// Adds a header; a key already present keeps its place and takes the new value.
    pub fn insert(&mut self, key: String, value: String)
        requires
            old(self).wf(),
        ensures
            final(self).wf(),
            final(self)@ == header_insert(old(self)@, key@, value@),
    {
        proof {
            lemma_header_insert(self@, key@, value@);
        }
        let n = self.entries.len();
        let mut i: usize = 0;
        while i < n
            invariant
                n == self.entries@.len(),
                n == self@.len(),
                self@ == old(self)@,
                keys_unique(self@),
                keys_unique(header_insert(self@, key@, value@)),
                i <= n,
                forall|j: int| 0 <= j < i ==> self@[j].0 != key@,
            decreases n - i,
        {
            if self.entries[i].0 == key {
                proof {
                    assert(self@[i as int].0 == key@);
                    assert(has_key(self@, key@));
                    let j = key_index(self@, key@);
                    assert(j == i);
                }
                let ghost before = self@;
                self.entries.set(i, (key, value));
                assert(self@ =~= before.update(i as int, (key@, value@)));
                return;
            }
            i = i + 1;
        }
        let ghost before = self@;
        assert(!has_key(before, key@));
        self.entries.push((key, value));
        assert(self@ =~= before.push((key@, value@)));
    }

    /// The value stored under a key.
    pub fn get(&self, key: &str) -> (r: Option<String>)
        requires
            self.wf(),
        ensures
            match r {
                Some(v) => header_lookup(self@, key@) == Some(v@),
                None => header_lookup(self@, key@) is None,
            },
    {
        let n = self.entries.len();
        let mut i: usize = 0;
        while i < n
            invariant
                n == self@.len(),
                keys_unique(self@),
                i <= n,
                forall|j: int| 0 <= j < i ==> self@[j].0 != key@,
            decreases n - i,
        {
            if same_chars(self.entries[i].0.as_str(), key) {
                proof {
                    assert(self@[i as int].0 == key@);
                    assert(has_key(self@, key@));
                    let j = key_index(self@, key@);
                    assert(j == i);
                }
                return Some(self.entries[i].1.clone());
            }
            i = i + 1;
        }
        None
    }

    /// The key of the entry at position `i`.
    pub fn key_at(&self, i: usize) -> (r: &String)
        requires
            i < self@.len(),
        ensures
            r@ == self@[i as int].0,
    {
        &self.entries[i].0
    }

    /// The value of the entry at position `i`.
    pub fn value_at(&self, i: usize) -> (r: &String)
        requires
            i < self@.len(),
        ensures
            r@ == self@[i as int].1,
    {
        &self.entries[i].1
    }
}

} // verus!
