//! Collections: a dimension, a distance metric, and embeddings in insertion
//! order, with a flag that records unsaved changes.

use vstd::prelude::*;
use rayon::iter::{IntoParallelRefIterator, ParallelIterator};
use crate::embedding::{
    embedding_matches, filter_view, match_embedding, metadata_view, without_vector, Embedding,
    EmbeddingView, PairsView,
};
use crate::score::{
    is_nan_bits, lemma_order_key_monotonic, order_key, order_key_of, signed_magnitude,
};
use crate::text::{copy_string, str_equal};
use crate::topk::{is_top_k, lemma_top_k_by_key, select_top_k, ScoreIndex};

verus! {

broadcast use vstd::seq_lib::group_to_multiset_ensures;

/// The distance metric of a collection.
///
/// Cosine vectors are stored normalised and scored by their dot product with
/// the normalised query; Euclidean ones by the squared L2 distance; Dot by the
/// plain dot product. Dot products are negated so that smaller is better.
#[derive(Clone, Copy, Debug, PartialEq, Eq, Structural)]
pub enum Distance {
    Cosine,
    Euclidean,
    Dot,
}

/// A query hit: its score (the bit pattern of an `f32`, smaller is better)
/// and a copy of the embedding.
#[derive(Debug)]
pub struct SimilarityResult {
    pub score: u32,
    pub embedding: Embedding,
}

/// A collection of embeddings of one dimension.
#[derive(Debug)]
pub struct Collection {
    /// Dimension of the vectors in the collection.
    pub dimension: usize,
    /// Distance metric used for querying.
    pub distance: Distance,
    /// Embeddings, in insertion order.
    pub embeddings: Vec<Embedding>,
    /// Whether the collection changed since it was last saved.
    pub dirty: bool,
}

/// The mathematical value of a collection.
pub struct CollectionView {
    pub dimension: nat,
    pub distance: Distance,
    pub embeddings: Seq<EmbeddingView>,
    pub dirty: bool,
}

/// The views of a sequence of embeddings.
pub open spec fn views(s: Seq<Embedding>) -> Seq<EmbeddingView> {
    s.map_values(|e: Embedding| e@)
}

impl View for Collection {
    type V = CollectionView;

    open spec fn view(&self) -> CollectionView {
        CollectionView {
            dimension: self.dimension as nat,
            distance: self.distance,
            embeddings: views(self.embeddings@),
            dirty: self.dirty,
        }
    }
}

/// No two embeddings share an identifier.
pub open spec fn ids_distinct(embs: Seq<EmbeddingView>) -> bool {
    forall|i: int, j: int| 0 <= i < j < embs.len() ==> embs[i].id != embs[j].id
}

/// Every vector has the given length.
pub open spec fn dims_match(embs: Seq<EmbeddingView>, dimension: nat) -> bool {
    forall|i: int| 0 <= i < embs.len() ==> (#[trigger] embs[i]).vector.len() == dimension
}

impl CollectionView {
    /// The invariant of a collection: vectors of its dimension, distinct ids.
    pub open spec fn wf(self) -> bool {
        dims_match(self.embeddings, self.dimension) && ids_distinct(self.embeddings)
    }
}

/// Some embedding carries the identifier.
pub open spec fn has_id(embs: Seq<EmbeddingView>, id: Seq<char>) -> bool {
    exists|i: int| 0 <= i < embs.len() && embs[i].id == id
}

/// `i` is the first position of an embedding with the identifier.
pub open spec fn first_with_id(embs: Seq<EmbeddingView>, id: Seq<char>, i: int) -> bool {
    0 <= i < embs.len() && embs[i].id == id && forall|j: int| 0 <= j < i ==> embs[j].id != id
}

/// How an embedding is handed out: with or without its vector.
pub open spec fn shown(e: EmbeddingView, novector: bool) -> EmbeddingView {
    if novector {
        without_vector(e)
    } else {
        e
    }
}

/// The first `k` embeddings matched by the filter, in order, as shown.
pub open spec fn first_matches(
    embs: Seq<EmbeddingView>,
    filter: Seq<PairsView>,
    k: nat,
    novector: bool,
) -> Seq<EmbeddingView>
    decreases embs.len(),
{
    if embs.len() == 0 || k == 0 {
        Seq::empty()
    } else if embedding_matches(embs[0], filter) {
        seq![shown(embs[0], novector)] + first_matches(
            embs.drop_first(),
            filter,
            (k - 1) as nat,
            novector,
        )
    } else {
        first_matches(embs.drop_first(), filter, k, novector)
    }
}

/// The candidates of a similarity query among the first `n` embeddings: the
/// matched ones whose score is not NaN, in order, keyed by their score.
pub open spec fn scored_candidates(
    embs: Seq<EmbeddingView>,
    filter: Seq<PairsView>,
    scores: Seq<u32>,
    n: nat,
) -> Seq<ScoreIndex>
    decreases n,
{
    if n == 0 {
        Seq::empty()
    } else {
        let prev = scored_candidates(embs, filter, scores, (n - 1) as nat);
        let i = n - 1;
        if embedding_matches(embs[i], filter) && !is_nan_bits(scores[i]) {
            prev.push(ScoreIndex { key: order_key_of(scores[i]), index: i as usize })
        } else {
            prev
        }
    }
}

/// The embeddings among the first `n` that the filter does not match.
pub open spec fn kept(embs: Seq<EmbeddingView>, filter: Seq<PairsView>, n: nat) -> Seq<
    EmbeddingView,
>
    decreases n,
{
    if n == 0 {
        Seq::empty()
    } else {
        let prev = kept(embs, filter, (n - 1) as nat);
        if embedding_matches(embs[n - 1], filter) {
            prev
        } else {
            prev.push(embs[n - 1])
        }
    }
}

proof fn lemma_scored_candidates(
    embs: Seq<EmbeddingView>,
    filter: Seq<PairsView>,
    scores: Seq<u32>,
    n: nat,
)
    requires
        n <= embs.len(),
        embs.len() <= usize::MAX,
        scores.len() == embs.len(),
    ensures
        forall|t: int|
            0 <= t < scored_candidates(embs, filter, scores, n).len() ==> {
                let c = #[trigger] scored_candidates(embs, filter, scores, n)[t];
                &&& c.index < n
                &&& c.key == order_key_of(scores[c.index as int])
                &&& !is_nan_bits(scores[c.index as int])
            },
        forall|i: int|
            0 <= i < n && embedding_matches(embs[i], filter) && !is_nan_bits(#[trigger] scores[i])
                ==> scored_candidates(embs, filter, scores, n).contains(
                ScoreIndex { key: order_key_of(scores[i]), index: i as usize },
            ),
    decreases n,
{
    if n > 0 {
        lemma_scored_candidates(embs, filter, scores, (n - 1) as nat);
        let prev = scored_candidates(embs, filter, scores, (n - 1) as nat);
        let cur = scored_candidates(embs, filter, scores, n);
        assert forall|t: int| 0 <= t < cur.len() implies {
            let c = #[trigger] cur[t];
            &&& c.index < n
            &&& c.key == order_key_of(scores[c.index as int])
            &&& !is_nan_bits(scores[c.index as int])
        } by {
            if t < prev.len() {
                assert(cur[t] == prev[t]);
            }
        }
        assert forall|i: int|
            0 <= i < n && embedding_matches(embs[i], filter) && !is_nan_bits(#[trigger] scores[i])
                implies cur.contains(ScoreIndex { key: order_key_of(scores[i]), index: i as usize }) by {
            if i < n - 1 {
                let y = ScoreIndex { key: order_key_of(scores[i]), index: i as usize };
                let u = choose|u: int| 0 <= u < prev.len() && prev[u] == y;
                assert(cur[u] == y);
            } else {
                assert(cur[prev.len() as int] == ScoreIndex { key: order_key_of(scores[i]), index: i as usize });
            }
        }
    }
}

proof fn lemma_kept_len(embs: Seq<EmbeddingView>, filter: Seq<PairsView>, n: nat)
    requires
        n <= embs.len(),
    ensures
        kept(embs, filter, n).len() <= n,
    decreases n,
{
    if n > 0 {
        lemma_kept_len(embs, filter, (n - 1) as nat);
    }
}

/// Whether the filter matches each embedding, worked out across threads.
///
/// Relies on rayon's `par_iter().map(..).collect()`: an indexed parallel map
/// whose collected vector keeps the order of the input.
#[verifier::external_body]
fn match_all(embeddings: &Vec<Embedding>, filter: &Vec<Vec<(String, String)>>) -> (r: Vec<bool>)
    ensures
        r@.len() == embeddings@.len(),
        forall|i: int|
            0 <= i < r@.len() ==> r@[i] == embedding_matches(
                embeddings@[i]@,
                filter_view(filter@),
            ),
{
    embeddings.par_iter().map(|e| match_embedding(e, filter)).collect()
}

impl Collection {
    /// A new, empty collection; it starts out dirty.
    pub fn new(dimension: usize, distance: Distance) -> (r: Collection)
        ensures
            r@.dimension == dimension,
            r@.distance == distance,
            r@.embeddings == Seq::<EmbeddingView>::empty(),
            r@.dirty,
    {
        let r = Collection { dimension, distance, embeddings: Vec::new(), dirty: true };
        assert(r@.embeddings =~= Seq::<EmbeddingView>::empty());
        r
    }

    pub fn is_dirty(&self) -> (r: bool)
        ensures
            r == self@.dirty,
    {
        self.dirty
    }

    pub fn set_dirty(&mut self)
        ensures
            final(self)@ == (CollectionView { dirty: true, ..old(self)@ }),
    {
        self.dirty = true;
    }

    pub fn unset_dirty(&mut self)
        ensures
            final(self)@ == (CollectionView { dirty: false, ..old(self)@ }),
    {
        self.dirty = false;
    }

    /// Whether the collection meets its invariant: every vector of its
    /// dimension and no identifier twice.
    pub fn is_well_formed(&self) -> (r: bool)
        ensures
            r == self@.wf(),
    {
        let ghost embs = self@.embeddings;
        let mut i: usize = 0;
        while i < self.embeddings.len()
            invariant
                embs == self@.embeddings,
                0 <= i <= embs.len(),
                forall|a: int| 0 <= a < i ==> (#[trigger] embs[a]).vector.len() == self.dimension,
                forall|a: int, b: int| 0 <= a < b < i ==> embs[a].id != embs[b].id,
            decreases embs.len() - i,
        {
            if self.embeddings[i].vector.len() != self.dimension {
                assert(embs[i as int].vector.len() != self.dimension);
                return false;
            }
            let mut j: usize = 0;
            while j < i
                invariant
                    embs == self@.embeddings,
                    0 <= j <= i < embs.len(),
                    forall|a: int| 0 <= a < j ==> embs[a].id != embs[i as int].id,
                decreases i - j,
            {
                if str_equal(self.embeddings[j].id.as_str(), self.embeddings[i].id.as_str()) {
                    assert(embs[j as int].id == embs[i as int].id);
                    return false;
                }
                j = j + 1;
            }
            i = i + 1;
        }
        true
    }

    /// The identifiers of the embeddings, in insertion order.
    pub fn list(&self) -> (r: Vec<String>)
        ensures
            r@.len() == self@.embeddings.len(),
            forall|j: int| 0 <= j < r@.len() ==> r@[j]@ == self@.embeddings[j].id,
    {
        let mut r: Vec<String> = Vec::new();
        let mut i: usize = 0;
        while i < self.embeddings.len()
            invariant
                0 <= i <= self.embeddings@.len(),
                r@.len() == i,
                forall|j: int| 0 <= j < i ==> r@[j]@ == self@.embeddings[j].id,
            decreases self.embeddings@.len() - i,
        {
            r.push(copy_string(&self.embeddings[i].id));
            i = i + 1;
        }
        r
    }

    /// The first position of an embedding with identifier `id`.
    pub fn position_of(&self, id: &str) -> (r: Option<usize>)
        ensures
            match r {
                Some(i) => first_with_id(self@.embeddings, id@, i as int),
                None => !has_id(self@.embeddings, id@),
            },
    {
        let mut i: usize = 0;
        while i < self.embeddings.len()
            invariant
                0 <= i <= self.embeddings@.len(),
                forall|j: int| 0 <= j < i ==> self@.embeddings[j].id != id@,
            decreases self.embeddings@.len() - i,
        {
            if str_equal(self.embeddings[i].id.as_str(), id) {
                return Some(i);
            }
            i = i + 1;
        }
        None
    }

    /// The embedding with identifier `id`, if any.
    pub fn get(&self, id: &str) -> (r: Option<&Embedding>)
        ensures
            match r {
                Some(e) => exists|i: int|
                    first_with_id(self@.embeddings, id@, i) && e@ == self@.embeddings[i],
                None => !has_id(self@.embeddings, id@),
            },
    {
        match self.position_of(id) {
            Some(i) => Some(&self.embeddings[i]),
            None => None,
        }
    }

    /// The first `k` embeddings matched by `filter`, in insertion order; with
    /// `novector` their vectors are left out.
    pub fn get_by_metadata(&self, filter: &Vec<Vec<(String, String)>>, k: usize, novector: bool) -> (r:
        Vec<Embedding>)
        ensures
            views(r@) == first_matches(self@.embeddings, filter_view(filter@), k as nat, novector),
    {
        let ghost embs = self@.embeddings;
        let ghost f = filter_view(filter@);
        let mut r: Vec<Embedding> = Vec::new();
        let mut i: usize = 0;
        assert(embs.skip(0) =~= embs);
        assert(views(r@) + first_matches(embs, f, k as nat, novector) =~= first_matches(embs, f, k as nat, novector));
        while i < self.embeddings.len() && r.len() < k
            invariant
                embs == self@.embeddings,
                f == filter_view(filter@),
                0 <= i <= embs.len(),
                r@.len() <= k,
                views(r@) + first_matches(embs.skip(i as int), f, (k - r@.len()) as nat, novector)
                    == first_matches(embs, f, k as nat, novector),
            decreases embs.len() - i,
        {
            let e = &self.embeddings[i];
            let ghost rest = embs.skip(i as int);
            assert(rest[0] == embs[i as int]);
            assert(rest.drop_first() =~= embs.skip(i + 1));
            let ghost before = r@;
            if match_embedding(e, filter) {
                let shown_e = if novector {
                    e.copy_without_vector()
                } else {
                    e.copy()
                };
                r.push(shown_e);
                assert(views(r@) =~= views(before) + seq![shown(embs[i as int], novector)]);
                assert(views(r@) + first_matches(embs.skip(i + 1), f, (k - r@.len()) as nat, novector)
                    =~= views(before) + first_matches(rest, f, (k - before.len()) as nat, novector));
            }
            i = i + 1;
        }
        proof {
            if i == embs.len() {
                assert(embs.skip(i as int).len() == 0);
            }
            assert(views(r@) + Seq::<EmbeddingView>::empty() =~= views(r@));
        }
        r
    }

    /// The `k` best matches of `filter` by score, best first.
    ///
    /// `scores` holds one score per embedding (the bit pattern of an `f32`,
    /// smaller is better), worked out by the caller with the collection's
    /// metric. Embeddings the filter does not match, and NaN scores, are
    /// left out; ties are broken by position.
    pub fn get_by_metadata_and_similarity(
        &self,
        filter: &Vec<Vec<(String, String)>>,
        scores: &Vec<u32>,
        k: usize,
    ) -> (r: Vec<SimilarityResult>)
        requires
            scores@.len() == self@.embeddings.len(),
        ensures
            exists|sel: Seq<ScoreIndex>|
                {
                    &&& is_top_k(
                        sel,
                        scored_candidates(
                            self@.embeddings,
                            filter_view(filter@),
                            scores@,
                            self@.embeddings.len(),
                        ),
                        k as nat,
                    )
                    &&& r@.len() == sel.len()
                    &&& forall|j: int|
                        0 <= j < r@.len() ==> 0 <= sel[j].index < self@.embeddings.len()
                            && r@[j].score == scores@[sel[j].index as int] && r@[j].embedding@
                            == self@.embeddings[sel[j].index as int]
                    &&& forall|j: int, i: int|
                        #![trigger r@[j], scores@[i]]
                        0 <= j < r@.len() && 0 <= i < self@.embeddings.len() && embedding_matches(
                            self@.embeddings[i],
                            filter_view(filter@),
                        ) && !is_nan_bits(scores@[i]) && (forall|t: int|
                            0 <= t < sel.len() ==> sel[t].index != i) ==> signed_magnitude(
                            r@[j].score,
                        ) <= signed_magnitude(scores@[i])
                },
            forall|j: int| 0 <= j < r@.len() ==> !is_nan_bits(#[trigger] r@[j].score),
            forall|j: int|
                0 <= j < r@.len() - 1 ==> signed_magnitude(#[trigger] r@[j].score)
                    <= signed_magnitude(r@[j + 1].score),
    {
        let ghost embs = self@.embeddings;
        let ghost f = filter_view(filter@);
        let mut cands: Vec<ScoreIndex> = Vec::new();
        let mut i: usize = 0;
        while i < self.embeddings.len()
            invariant
                embs == self@.embeddings,
                f == filter_view(filter@),
                scores@.len() == embs.len(),
                0 <= i <= embs.len(),
                cands@ == scored_candidates(embs, f, scores@, i as nat),
                forall|j: int| 0 <= j < cands@.len() ==> #[trigger] cands@[j].index < i,
            decreases embs.len() - i,
        {
            if match_embedding(&self.embeddings[i], filter) {
                match order_key(scores[i]) {
                    Some(key) => {
                        cands.push(ScoreIndex { key, index: i });
                    },
                    None => {},
                }
            }
            i = i + 1;
        }
        let sel = select_top_k(&cands, k);
        proof {
            assert forall|j: int| 0 <= j < sel@.len() implies sel@[j].index < embs.len() by {
                assert(sel@.to_multiset().count(sel@[j]) > 0);
                assert(cands@.to_multiset().count(sel@[j]) > 0);
                assert(cands@.contains(sel@[j]));
            }
        }
        let mut r: Vec<SimilarityResult> = Vec::new();
        let mut j: usize = 0;
        while j < sel.len()
            invariant
                embs == self@.embeddings,
                scores@.len() == embs.len(),
                0 <= j <= sel@.len(),
                r@.len() == j,
                forall|t: int| 0 <= t < sel@.len() ==> #[trigger] sel@[t].index < embs.len(),
                forall|t: int|
                    0 <= t < j ==> r@[t].score == scores@[sel@[t].index as int]
                        && r@[t].embedding@ == embs[sel@[t].index as int],
            decreases sel@.len() - j,
        {
            let index = sel[j].index;
            assert(sel@[j as int].index < embs.len());
            r.push(SimilarityResult { score: scores[index], embedding: self.embeddings[index].copy() });
            j = j + 1;
        }
        proof {
            let c = scored_candidates(embs, f, scores@, embs.len());
            let sq = sel@;
            lemma_scored_candidates(embs, f, scores@, embs.len());
            lemma_top_k_by_key(sq, c, k as nat);
            assert forall|t: int| 0 <= t < sq.len() implies (#[trigger] sq[t]).key == order_key_of(
                scores@[sq[t].index as int],
            ) && !is_nan_bits(scores@[sq[t].index as int]) by {
                assert(sq.to_multiset().count(sq[t]) > 0);
                assert(c.to_multiset().count(sq[t]) > 0);
                assert(c.contains(sq[t]));
                let u = choose|u: int| 0 <= u < c.len() && c[u] == sq[t];
            }
            assert forall|j: int| 0 <= j < r@.len() implies !is_nan_bits(#[trigger] r@[j].score) by {
                assert(sq[j].key == order_key_of(scores@[sq[j].index as int]));
            }
            assert forall|j: int| 0 <= j < r@.len() - 1 implies signed_magnitude(
                #[trigger] r@[j].score,
            ) <= signed_magnitude(r@[j + 1].score) by {
                assert(sq[j].key == order_key_of(scores@[sq[j].index as int]));
                assert(sq[j + 1].key == order_key_of(scores@[sq[j + 1].index as int]));
                lemma_order_key_monotonic(r@[j + 1].score, r@[j].score);
            }
            assert forall|j: int, i: int|
                #![trigger r@[j], scores@[i]]
                0 <= j < r@.len() && 0 <= i < embs.len() && embedding_matches(embs[i], f)
                    && !is_nan_bits(scores@[i]) && (forall|t: int|
                    0 <= t < sq.len() ==> sq[t].index != i) implies signed_magnitude(r@[j].score)
                <= signed_magnitude(scores@[i]) by {
                let y = ScoreIndex { key: order_key_of(scores@[i]), index: i as usize };
                assert(c.contains(y));
                assert(c.to_multiset().count(y) > 0);
                if sq.to_multiset().count(y) > 0 {
                    assert(sq.contains(y));
                    let t = choose|t: int| 0 <= t < sq.len() && sq[t] == y;
                    assert(sq[t].index != i);
                }
                assert(sq[j].key <= y.key);
                assert(sq[j].key == order_key_of(scores@[sq[j].index as int]));
                lemma_order_key_monotonic(scores@[i], r@[j].score);
            }
        }
        r
    }

    /// Replaces the metadata of the embedding with identifier `id`; tells
    /// whether there was one. A change marks the collection dirty.
    pub fn update_metadata(&mut self, id: &str, metadata: Option<Vec<(String, String)>>) -> (r: bool)
        ensures
            r == has_id(old(self)@.embeddings, id@),
            r ==> exists|i: int|
                first_with_id(old(self)@.embeddings, id@, i) && final(self)@ == (CollectionView {
                    embeddings: old(self)@.embeddings.update(
                        i,
                        EmbeddingView { metadata: metadata_view(metadata), ..old(self)@.embeddings[i] },
                    ),
                    dirty: true,
                    ..old(self)@
                }),
            !r ==> final(self)@ == old(self)@,
            old(self)@.wf() ==> final(self)@.wf(),
    {
        match self.position_of(id) {
            None => false,
            Some(i) => {
                let ghost before = self.embeddings@;
                self.embeddings[i].metadata = metadata;
                self.dirty = true;
                assert(views(self.embeddings@) =~= views(before).update(
                    i as int,
                    EmbeddingView { metadata: metadata_view(metadata), ..views(before)[i as int] },
                ));
                proof {
                    let e = self@.embeddings;
                    let o = old(self)@.embeddings;
                    assert forall|a: int| 0 <= a < e.len() implies e[a].id == o[a].id
                        && e[a].vector == o[a].vector by {}
                }
                true
            },
        }
    }

    /// Removes the embedding with identifier `id`; tells whether there was
    /// one. A removal marks the collection dirty.
    pub fn delete(&mut self, id: &str) -> (r: bool)
        ensures
            r == has_id(old(self)@.embeddings, id@),
            r ==> exists|i: int|
                first_with_id(old(self)@.embeddings, id@, i) && final(self)@ == (CollectionView {
                    embeddings: old(self)@.embeddings.remove(i),
                    dirty: true,
                    ..old(self)@
                }),
            !r ==> final(self)@ == old(self)@,
            old(self)@.wf() ==> final(self)@.wf(),
    {
        match self.position_of(id) {
            None => false,
            Some(i) => {
                let ghost before = self.embeddings@;
                self.embeddings.remove(i);
                self.dirty = true;
                assert(views(self.embeddings@) =~= views(before).remove(i as int));
                proof {
                    let e = self@.embeddings;
                    let o = old(self)@.embeddings;
                    assert forall|a: int| 0 <= a < e.len() implies #[trigger] e[a] == o[if a < i {
                        a
                    } else {
                        a + 1
                    }] by {}
                    if old(self)@.wf() {
                        assert forall|a: int, b: int| 0 <= a < b < e.len() implies e[a].id
                            != e[b].id by {
                            let a2 = if a < i { a } else { a + 1 };
                            let b2 = if b < i { b } else { b + 1 };
                            assert(e[a] == o[a2] && e[b] == o[b2]);
                        }
                    }
                }
                true
            },
        }
    }

    /// Removes every embedding that `filter` matches (all of them for an
    /// empty filter); tells whether any was removed. A removal marks the
    /// collection dirty.
    pub fn delete_by_metadata(&mut self, filter: &Vec<Vec<(String, String)>>) -> (r: bool)
        ensures
            final(self)@.embeddings == kept(
                old(self)@.embeddings,
                filter_view(filter@),
                old(self)@.embeddings.len(),
            ),
            r == (final(self)@.embeddings.len() < old(self)@.embeddings.len()),
            final(self)@.dimension == old(self)@.dimension,
            final(self)@.distance == old(self)@.distance,
            final(self)@.dirty == (old(self)@.dirty || r),
            old(self)@.wf() ==> final(self)@.wf(),
    {
        let ghost embs = self@.embeddings;
        let ghost f = filter_view(filter@);
        let len = self.embeddings.len();
        if filter.len() == 0 {
            self.embeddings.clear();
            proof {
                lemma_kept_all_matched(embs, f, embs.len());
            }
            assert(self@.embeddings =~= Seq::<EmbeddingView>::empty());
            assert(self@.embeddings.len() == 0);
            if len > 0 {
                self.dirty = true;
            }
            return len > 0;
        }
        let matched = match_all(&self.embeddings, filter);
        let mut remaining: Vec<Embedding> = Vec::new();
        let mut i: usize = 0;
        while i < self.embeddings.len()
            invariant
                embs == self@.embeddings,
                f == filter_view(filter@),
                len == embs.len(),
                matched@.len() == embs.len(),
                forall|t: int| 0 <= t < matched@.len() ==> matched@[t] == embedding_matches(#[trigger] embs[t], f),
                0 <= i <= embs.len(),
                views(remaining@) == kept(embs, f, i as nat),
            decreases embs.len() - i,
        {
            if !matched[i] {
                let ghost before = remaining@;
                remaining.push(self.embeddings[i].copy());
                assert(views(remaining@) =~= views(before).push(embs[i as int]));
            }
            i = i + 1;
        }
        self.embeddings = remaining;
        proof {
            lemma_kept_len(embs, f, embs.len());
            if old(self)@.wf() {
                lemma_kept_wf(embs, f, embs.len(), self.dimension as nat);
            }
        }
        let removed = self.embeddings.len() < len;
        if removed {
            self.dirty = true;
        }
        removed
    }
}

/// What is kept is drawn from the embeddings in order, so it keeps their
/// dimension and distinct identifiers.
proof fn lemma_kept_wf(embs: Seq<EmbeddingView>, filter: Seq<PairsView>, n: nat, dimension: nat)
    requires
        n <= embs.len(),
        dims_match(embs, dimension),
        ids_distinct(embs),
    ensures
        dims_match(kept(embs, filter, n), dimension),
        ids_distinct(kept(embs, filter, n)),
        forall|a: int|
            0 <= a < kept(embs, filter, n).len() ==> exists|j: int|
                0 <= j < n && #[trigger] kept(embs, filter, n)[a] == embs[j],
    decreases n,
{
    if n > 0 {
        lemma_kept_wf(embs, filter, (n - 1) as nat, dimension);
        let prev = kept(embs, filter, (n - 1) as nat);
        let k = kept(embs, filter, n);
        if !embedding_matches(embs[n - 1], filter) {
            assert forall|a: int| 0 <= a < k.len() implies exists|j: int|
                0 <= j < n && #[trigger] k[a] == embs[j] by {
                if a < prev.len() {
                    assert(k[a] == prev[a]);
                } else {
                    assert(k[a] == embs[n - 1]);
                }
            }
            assert forall|a: int| 0 <= a < k.len() implies (#[trigger] k[a]).vector.len()
                == dimension by {
                let j = choose|j: int| 0 <= j < n && k[a] == embs[j];
            }
            assert forall|a: int, b: int| 0 <= a < b < k.len() implies k[a].id != k[b].id by {
                if b < prev.len() {
                    assert(k[a] == prev[a] && k[b] == prev[b]);
                } else {
                    assert(k[a] == prev[a]);
                    let j = choose|j: int| 0 <= j < n - 1 && prev[a] == embs[j];
                    assert(embs[j].id != embs[n - 1].id);
                }
            }
        }
    }
}

/// With an empty filter nothing is kept.
proof fn lemma_kept_all_matched(embs: Seq<EmbeddingView>, filter: Seq<PairsView>, n: nat)
    requires
        filter.len() == 0,
        n <= embs.len(),
    ensures
        kept(embs, filter, n) == Seq::<EmbeddingView>::empty(),
    decreases n,
{
    if n > 0 {
        lemma_kept_all_matched(embs, filter, (n - 1) as nat);
    }
}

} // verus!
