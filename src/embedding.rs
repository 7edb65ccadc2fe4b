//! Embeddings, their metadata, and the metadata filter.
//!
//! Metadata is a list of `(key, value)` pairs; the value of a key is the one
//! of its first entry. Metadata that comes from a map has distinct keys, and
//! there the first-entry rule is plain lookup (`lemma_has_entry_distinct`);
//! a list with a repeated key is still read the same way every time, so no
//! operation needs the keys to be distinct. A filter is a list of clauses, each a list of
//! `(key, expected)` pairs. A filter matches an embedding when it is empty, or
//! when the embedding has metadata and some clause matches it; a clause
//! matches when every one of its keys has exactly the expected value. An empty
//! clause therefore matches any embedding that has metadata.

use vstd::prelude::*;
use crate::text::copy_string;

verus! {

/// String pairs viewed as pairs of character sequences.
pub type PairsView = Seq<(Seq<char>, Seq<char>)>;

/// The view of a list of string pairs.
pub open spec fn pairs_view(s: Seq<(String, String)>) -> PairsView {
    s.map_values(|p: (String, String)| (p.0@, p.1@))
}

/// A stored vector: an identifier, the bit patterns of its binary32
/// components, and optional metadata.
#[derive(Debug)]
pub struct Embedding {
    /// Identifier, unique within a collection.
    pub id: String,
    /// Components, each the bit pattern of an `f32`.
    pub vector: Vec<u32>,
    /// Metadata about the source of the vector.
    pub metadata: Option<Vec<(String, String)>>,
}

/// The mathematical value of an embedding.
pub struct EmbeddingView {
    pub id: Seq<char>,
    pub vector: Seq<u32>,
    pub metadata: Option<PairsView>,
}

impl View for Embedding {
    type V = EmbeddingView;

    open spec fn view(&self) -> EmbeddingView {
        EmbeddingView {
            id: self.id@,
            vector: self.vector@,
            metadata: metadata_view(self.metadata),
        }
    }
}

/// The view of optional metadata.
pub open spec fn metadata_view(m: Option<Vec<(String, String)>>) -> Option<PairsView> {
    match m {
        Some(m) => Some(pairs_view(m@)),
        None => None,
    }
}

/// A copy of optional metadata.
pub fn copy_metadata(m: &Option<Vec<(String, String)>>) -> (r: Option<Vec<(String, String)>>)
    ensures
        metadata_view(r) == metadata_view(*m),
{
    match m {
        Some(m) => Some(copy_pairs(m)),
        None => None,
    }
}

/// The view of an embedding as handed out without its vector.
pub open spec fn without_vector(e: EmbeddingView) -> EmbeddingView {
    EmbeddingView { id: e.id, vector: Seq::empty(), metadata: e.metadata }
}

/// A copy of a list of string pairs.
pub fn copy_pairs(s: &Vec<(String, String)>) -> (r: Vec<(String, String)>)
    ensures
        pairs_view(r@) == pairs_view(s@),
{
    let mut r: Vec<(String, String)> = Vec::new();
    let mut i: usize = 0;
    while i < s.len()
        invariant
            0 <= i <= s@.len(),
            r@.len() == i,
            pairs_view(r@) == pairs_view(s@.subrange(0, i as int)),
        decreases s@.len() - i,
    {
        let pair = (copy_string(&s[i].0), copy_string(&s[i].1));
        let ghost old_r = r@;
        r.push(pair);
        proof {
            let next = s@.subrange(0, i + 1);
            assert forall|j: int| 0 <= j <= i implies pairs_view(r@)[j] == pairs_view(next)[j] by {
                if j < i {
                    assert(pairs_view(old_r)[j] == pairs_view(s@.subrange(0, i as int))[j]);
                }
            }
            assert(pairs_view(r@) =~= pairs_view(next));
        }
        i = i + 1;
    }
    assert(s@.subrange(0, s@.len() as int) == s@);
    r
}

/// A copy of a vector of components.
pub fn copy_components(v: &Vec<u32>) -> (r: Vec<u32>)
    ensures
        r@ == v@,
{
    let mut r: Vec<u32> = Vec::new();
    let mut i: usize = 0;
    while i < v.len()
        invariant
            0 <= i <= v@.len(),
            r@ == v@.subrange(0, i as int),
        decreases v@.len() - i,
    {
        r.push(v[i]);
        assert(r@ =~= v@.subrange(0, i + 1));
        i = i + 1;
    }
    assert(r@ =~= v@);
    r
}

impl Embedding {
    /// A copy of this embedding.
    pub fn copy(&self) -> (r: Embedding)
        ensures
            r@ == self@,
    {
        let metadata = copy_metadata(&self.metadata);
        Embedding { id: copy_string(&self.id), vector: copy_components(&self.vector), metadata }
    }

    /// A copy of this embedding with its vector left empty.
    pub fn copy_without_vector(&self) -> (r: Embedding)
        ensures
            r@ == without_vector(self@),
    {
        let metadata = copy_metadata(&self.metadata);
        let r = Embedding { id: copy_string(&self.id), vector: Vec::new(), metadata };
        assert(r@.vector =~= Seq::<u32>::empty());
        r
    }
}

/// `value` is what `metadata` holds for `key`: the first entry with that key
/// carries that value.
pub open spec fn has_entry(metadata: PairsView, key: Seq<char>, value: Seq<char>) -> bool {
    exists|i: int|
        0 <= i < metadata.len() && metadata[i].0 == key && metadata[i].1 == value && (forall|
            j: int,
        |
            0 <= j < i ==> metadata[j].0 != key)
}

/// Every entry of the clause is present in the metadata with equal value.
pub open spec fn clause_matches(metadata: PairsView, clause: PairsView) -> bool {
    forall|j: int| 0 <= j < clause.len() ==> has_entry(metadata, clause[j].0, clause[j].1)
}

/// The filter matches metadata: it is empty, or some clause matches.
pub open spec fn filter_matches(filter: Seq<PairsView>, metadata: Option<PairsView>) -> bool {
    filter.len() == 0 || match metadata {
        None => false,
        Some(m) => exists|c: int| 0 <= c < filter.len() && clause_matches(m, filter[c]),
    }
}

/// The view of a filter.
pub open spec fn filter_view(f: Seq<Vec<(String, String)>>) -> Seq<PairsView> {
    f.map_values(|c: Vec<(String, String)>| pairs_view(c@))
}

/// Whether `filter` matches `embedding`.
pub open spec fn embedding_matches(embedding: EmbeddingView, filter: Seq<PairsView>) -> bool {
    filter_matches(filter, embedding.metadata)
}

/// The first value that `metadata` holds for `key`.
fn lookup<'a>(metadata: &'a Vec<(String, String)>, key: &String) -> (r: Option<&'a String>)
    ensures
        match r {
            Some(v) => has_entry(pairs_view(metadata@), key@, v@),
            None => forall|i: int| 0 <= i < metadata@.len() ==> metadata@[i].0@ != key@,
        },
{
    let ghost m = pairs_view(metadata@);
    let mut i: usize = 0;
    while i < metadata.len()
        invariant
            m == pairs_view(metadata@),
            0 <= i <= metadata@.len(),
            forall|j: int| 0 <= j < i ==> metadata@[j].0@ != key@,
        decreases metadata@.len() - i,
    {
        if metadata[i].0 == *key {
            assert(m[i as int].0 == key@);
            assert(forall|j: int| 0 <= j < i ==> m[j].0 != key@);
            return Some(&metadata[i].1);
        }
        i = i + 1;
    }
    None
}

/// Whether every entry of `clause` is present in `metadata` with equal value.
fn clause_matches_exec(metadata: &Vec<(String, String)>, clause: &Vec<(String, String)>) -> (r:
    bool)
    ensures
        r == clause_matches(pairs_view(metadata@), pairs_view(clause@)),
{
    let ghost m = pairs_view(metadata@);
    let ghost c = pairs_view(clause@);
    let mut j: usize = 0;
    while j < clause.len()
        invariant
            m == pairs_view(metadata@),
            c == pairs_view(clause@),
            0 <= j <= clause@.len(),
            forall|t: int| 0 <= t < j ==> has_entry(m, c[t].0, c[t].1),
        decreases clause@.len() - j,
    {
        let found = match lookup(metadata, &clause[j].0) {
            Some(actual) => *actual == clause[j].1,
            None => false,
        };
        if !found {
            proof {
                if has_entry(m, c[j as int].0, c[j as int].1) {
                    let i = choose|i: int|
                        0 <= i < m.len() && m[i].0 == c[j as int].0 && m[i].1 == c[j as int].1
                            && (forall|t: int| 0 <= t < i ==> m[t].0 != c[j as int].0);
                    assert(metadata@[i].0@ == clause@[j as int].0@);
                }
            }
            return false;
        }
        proof {
            let actual = choose|v: Seq<char>| has_entry(m, c[j as int].0, v);
        }
        j = j + 1;
    }
    true
}

/// Whether `filter` matches `embedding`: an empty filter matches everything;
/// otherwise the embedding needs metadata matched by at least one clause.
pub fn match_embedding(embedding: &Embedding, filter: &Vec<Vec<(String, String)>>) -> (r: bool)
    ensures
        r == embedding_matches(embedding@, filter_view(filter@)),
{
    let ghost f = filter_view(filter@);
    if filter.len() == 0 {
        return true;
    }
    match embedding.metadata.as_ref() {
        None => false,
        Some(metadata) => {
            let mut c: usize = 0;
            while c < filter.len()
                invariant
                    f == filter_view(filter@),
                    f.len() > 0,
                    embedding.metadata == Some(*metadata),
                    0 <= c <= filter@.len(),
                    forall|t: int|
                        0 <= t < c ==> !clause_matches(pairs_view(metadata@), #[trigger] f[t]),
                decreases filter@.len() - c,
            {
                if clause_matches_exec(metadata, &filter[c]) {
                    assert(embedding@.metadata == Some(pairs_view(metadata@)));
                    assert(clause_matches(pairs_view(metadata@), f[c as int]));
                    assert(f.len() > 0);
                    return true;
                }
                c = c + 1;
            }
            false
        },
    }
}

/// An empty filter matches every embedding; a non-empty one matches an
/// embedding exactly when it has metadata and at least one clause matches
/// that metadata entry by entry.
pub proof fn lemma_filter_semantics(filter: Seq<PairsView>, e: EmbeddingView)
    ensures
        filter.len() == 0 ==> embedding_matches(e, filter),
        filter.len() > 0 ==> (embedding_matches(e, filter) <==> (e.metadata matches Some(m)
            && exists|c: int| 0 <= c < filter.len() && clause_matches(m, filter[c]))),
{
}

/// No key occurs twice.
pub open spec fn keys_distinct(m: PairsView) -> bool {
    forall|i: int, j: int| 0 <= i < j < m.len() ==> m[i].0 != m[j].0
}

/// With distinct keys a key holds a value exactly when that pair is listed.
pub proof fn lemma_has_entry_distinct(m: PairsView, key: Seq<char>, value: Seq<char>)
    requires
        keys_distinct(m),
    ensures
        has_entry(m, key, value) <==> exists|i: int| 0 <= i < m.len() && m[i] == (key, value),
{
    if exists|i: int| 0 <= i < m.len() && m[i] == (key, value) {
        let i = choose|i: int| 0 <= i < m.len() && m[i] == (key, value);
        assert forall|j: int| 0 <= j < i implies m[j].0 != key by {}
        assert(m[i].0 == key && m[i].1 == value);
    }
}

} // verus!
