//! The vector index: vectors stored under dense ids with their metadata, and
//! the ranking step of a similarity search. Similarity itself is computed by
//! the caller; the index ranks by an integer key that orders as the
//! similarities do.
use vstd::prelude::*;

verus! {

broadcast use {vstd::seq_lib::group_seq_properties, vstd::seq_lib::group_to_multiset_ensures};

/// Errors of a store operation; each is fatal to that operation only.
#[derive(Debug, Clone, PartialEq, Eq)]
pub enum StoreError {
    Storage(String),
    Index(String),
    VectorOp(String),
    Io(String),
}

/// The index layout a store asks for.
#[derive(Debug, Clone, Copy, PartialEq, Eq, Structural)]
pub enum IndexType {
    Flat,
    IVF,
    HNSW,
}

/// Parameters of an approximate index.
#[derive(Debug, Clone, Copy)]
pub struct IndexConfig {
    pub num_trees: usize,
    pub max_items_per_node: usize,
    pub search_k: usize,
}

/// What is stored beside a vector. `attributes` holds key/value pairs.
#[derive(Debug, Clone)]
pub struct IndexMetadata {
    pub id: usize,
    pub path: String,
    pub modality: String,
    pub attributes: Vec<(String, String)>,
}

/// Summary of a store.
#[derive(Debug, Clone)]
pub struct StoreMetadata {
    pub item_count: usize,
    pub vector_dimension: usize,
    pub index_type: String,
    pub modality: String,
}

/// A stored id with its similarity key.
#[derive(Debug, Clone, Copy, PartialEq, Eq, Structural)]
pub struct ScoredId {
    pub id: usize,
    pub score: i64,
}

/// Scores do not increase along `s`.
pub open spec fn sorted_desc(s: Seq<ScoredId>) -> bool {
    forall|i: int, j: int| 0 <= i < j < s.len() ==> s[i].score >= s[j].score
}

/// `r` is a top-`k` ranking of `items`: the `min(k, |items|)` best items in
/// non-increasing order of score, and no item left out scores higher than
/// one kept.
pub open spec fn is_top_k(items: Seq<ScoredId>, k: nat, r: Seq<ScoredId>) -> bool {
    &&& r.len() == if k < items.len() {
        k
    } else {
        items.len()
    }
    &&& sorted_desc(r)
    &&& exists|rest: Seq<ScoredId>|
        (r + rest).to_multiset() == items.to_multiset() && forall|i: int, j: int|
            0 <= i < r.len() && 0 <= j < rest.len() ==> #[trigger] r[i].score >= #[trigger] rest[j].score
}

/// Ranks `items` by non-increasing score and keeps the first `k`; among
/// equal scores the earlier item comes first.
pub fn top_k(items: Vec<ScoredId>, k: usize) -> (r: Vec<ScoredId>)
    ensures
        is_top_k(items@, k as nat, r@),
        k >= items.len() ==> r@.to_multiset() == items@.to_multiset(),
{
    let ghost input = items@;
    let mut remaining = items;
    let mut out: Vec<ScoredId> = Vec::new();
    while out.len() < k && remaining.len() > 0
        invariant
            (out@ + remaining@).to_multiset() == input.to_multiset(),
            out.len() + remaining.len() == input.len(),
            out.len() <= k,
            sorted_desc(out@),
            forall|i: int, j: int| 0 <= i < out.len() && 0 <= j < remaining.len() ==> out@[i].score >= remaining@[j].score,
        decreases remaining.len(),
    {
        let mut best: usize = 0;
        let mut i: usize = 1;
        while i < remaining.len()
            invariant
                1 <= i <= remaining.len(),
                best < i,
                forall|j: int| 0 <= j < i ==> remaining@[best as int].score >= remaining@[j].score,
            decreases remaining.len() - i,
        {
            if remaining[i].score > remaining[best].score {
                best = i;
            }
            i += 1;
        }
        let ghost old_out = out@;
        let ghost old_rem = remaining@;
        let x = remaining.remove(best);
        out.push(x);
        proof {
            assert(out@ == old_out.push(x));
            assert(remaining@ == old_rem.remove(best as int));
            assert((out@ + remaining@).to_multiset() =~= (old_out + old_rem).to_multiset()) by {
                assert((old_out + old_rem).remove(old_out.len() + best) =~= old_out + remaining@);
                assert((old_out + old_rem)[old_out.len() + best] == x);
                assert((out@ + remaining@) =~= (old_out + remaining@).insert(old_out.len() as int, x));
                vstd::seq_lib::lemma_multiset_commutative(old_out, remaining@);
                assert((old_out + remaining@).insert(old_out.len() as int, x).to_multiset() =~= (old_out + remaining@).to_multiset().insert(x)) by {
                    let s = old_out + remaining@;
                    let n = old_out.len() as int;
                    assert(s.insert(n, x).remove(n) =~= s);
                }
            }
            assert forall|a: int, b: int| 0 <= a < b < out@.len() implies out@[a].score >= out@[b].score by {
                if b == out@.len() - 1 {
                    assert(old_rem[best as int] == x);
                }
            }
            assert forall|a: int, j: int| 0 <= a < out.len() && 0 <= j < remaining.len() implies out@[a].score >= remaining@[j].score by {
                if j < best {
                    assert(remaining@[j] == old_rem[j]);
                } else {
                    assert(remaining@[j] == old_rem[j + 1]);
                }
            }
        }
    }
    proof {
        let rest = remaining@;
        assert((out@ + rest).to_multiset() == input.to_multiset() && forall|i: int, j: int|
            0 <= i < out@.len() && 0 <= j < rest.len() ==> #[trigger] out@[i].score >= #[trigger] rest[j].score);
        if k >= input.len() {
            assert(rest.len() == 0);
            assert(out@ + rest =~= out@);
        }
    }
    out
}

/// How often `id` occurs in `s`.
pub open spec fn occurrences(s: Seq<usize>, id: usize) -> nat
    decreases s.len(),
{
    if s.len() == 0 {
        0
    } else {
        occurrences(s.drop_last(), id) + if s.last() == id {
            1nat
        } else {
            0nat
        }
    }
}

/// How often `id` occurs over all the per-dimension neighbor lists.
pub open spec fn hits(ns: Seq<Seq<usize>>, id: usize) -> nat
    decreases ns.len(),
{
    if ns.len() == 0 {
        0
    } else {
        hits(ns.drop_last(), id) + occurrences(ns.last(), id)
    }
}

/// The ids below `n` that occur more than `threshold` times, ascending.
pub open spec fn candidates_spec(ns: Seq<Seq<usize>>, n: nat, threshold: nat) -> Seq<usize> {
    Seq::new(n, |i: int| i as usize).filter(|id: usize| hits(ns, id) > threshold)
}

proof fn lemma_filter_push_ids(s: Seq<usize>, p: spec_fn(usize) -> bool, x: usize)
    ensures
        s.push(x).filter(p) == if p(x) {
            s.filter(p).push(x)
        } else {
            s.filter(p)
        },
{
    reveal(Seq::filter);
    assert(s.push(x).drop_last() =~= s);
}

/// The candidates of a pruned search: the vectors (ids below `n_vectors`)
/// that occur among the per-dimension neighbor lists `neighbors` in more
/// than a third of the `num_indexed` indexed dimensions.
pub fn find_candidates(neighbors: &Vec<Vec<usize>>, num_indexed: usize, n_vectors: usize) -> (r: Vec<usize>)
    ensures
        r@ == candidates_spec(neighbors.deep_view(), n_vectors as nat, (num_indexed / 3) as nat),
{
    let threshold = num_indexed / 3;
    let ghost ns = neighbors.deep_view();
    let mut counts: Vec<usize> = Vec::new();
    let mut i: usize = 0;
    while i < n_vectors
        invariant
            i <= n_vectors,
            counts.len() == i,
            forall|x: int| 0 <= x < i ==> counts@[x] == 0,
        decreases n_vectors - i,
    {
        counts.push(0);
        i += 1;
    }
    let mut d: usize = 0;
    while d < neighbors.len()
        invariant
            d <= neighbors.len(),
            ns == neighbors.deep_view(),
            counts.len() == n_vectors,
            threshold == num_indexed / 3,
            forall|x: int| 0 <= x < n_vectors ==> #[trigger] counts@[x] as nat == if hits(ns.subrange(0, d as int), x as usize) > threshold {
                (threshold + 1) as nat
            } else {
                hits(ns.subrange(0, d as int), x as usize)
            },
        decreases neighbors.len() - d,
    {
        let list = &neighbors[d];
        let ghost base = ns.subrange(0, d as int);
        proof {
            assert(ns[d as int] == list@);
        }
        let mut j: usize = 0;
        while j < list.len()
            invariant
                j <= list.len(),
                counts.len() == n_vectors,
                threshold == num_indexed / 3,
                forall|x: int| 0 <= x < n_vectors ==> #[trigger] counts@[x] as nat == if hits(base, x as usize) + occurrences(list@.subrange(0, j as int), x as usize) > threshold {
                    (threshold + 1) as nat
                } else {
                    hits(base, x as usize) + occurrences(list@.subrange(0, j as int), x as usize)
                },
            decreases list.len() - j,
        {
            let id = list[j];
            proof {
                assert(list@.subrange(0, j + 1).drop_last() =~= list@.subrange(0, j as int));
            }
            if id < n_vectors {
                let c = counts[id];
                if c <= threshold {
                    counts.set(id, c + 1);
                }
            }
            j += 1;
        }
        proof {
            assert(list@.subrange(0, list.len() as int) =~= list@);
            assert(ns.subrange(0, d + 1).drop_last() =~= base);
            assert(ns.subrange(0, d + 1).last() == list@);
        }
        d += 1;
    }
    proof {
        assert(ns.subrange(0, neighbors.len() as int) =~= ns);
    }
    let ghost ids = Seq::new(n_vectors as nat, |i: int| i as usize);
    let ghost pred = |id: usize| hits(ns, id) > threshold;
    let mut out: Vec<usize> = Vec::new();
    let mut x: usize = 0;
    while x < n_vectors
        invariant
            x <= n_vectors,
            counts.len() == n_vectors,
            ids == Seq::new(n_vectors as nat, |i: int| i as usize),
            pred == (|id: usize| hits(ns, id) > threshold),
            forall|y: int| 0 <= y < n_vectors ==> #[trigger] counts@[y] as nat == if hits(ns, y as usize) > threshold {
                (threshold + 1) as nat
            } else {
                hits(ns, y as usize)
            },
            out@ == ids.subrange(0, x as int).filter(pred),
        decreases n_vectors - x,
    {
        proof {
            assert(ids.subrange(0, x + 1) =~= ids.subrange(0, x as int).push(x));
            lemma_filter_push_ids(ids.subrange(0, x as int), pred, x);
        }
        if counts[x] > threshold {
            out.push(x);
        }
        x += 1;
    }
    proof {
        assert(ids.subrange(0, n_vectors as int) =~= ids);
    }
    out
}

/// Vectors under dense ids `0, 1, 2, ...`, assigned in insertion order and
/// never reused, each with its metadata.
pub struct VectorIndex<V> {
    vectors: Vec<V>,
    metadata: Vec<IndexMetadata>,
    config: IndexConfig,
}

impl<V> VectorIndex<V> {
    pub closed spec fn vectors_spec(&self) -> Seq<V> {
        self.vectors@
    }

    pub closed spec fn metadata_spec(&self) -> Seq<IndexMetadata> {
        self.metadata@
    }

    pub open spec fn wf(&self) -> bool {
        &&& self.vectors_spec().len() == self.metadata_spec().len()
        &&& forall|i: int| 0 <= i < self.metadata_spec().len() ==> (#[trigger] self.metadata_spec()[i]).id == i
    }

    /// An empty index.
    pub fn new(config: IndexConfig) -> (r: Self)
        ensures
            r.wf(),
            r.vectors_spec().len() == 0,
    {
        VectorIndex { vectors: Vec::new(), metadata: Vec::new(), config }
    }

    /// The number of stored vectors.
    pub fn len(&self) -> (r: usize)
        ensures
            r == self.vectors_spec().len(),
    {
        self.vectors.len()
    }

    /// Stores `vector` and returns its id, the number of vectors stored
    /// before it; the metadata is kept with its `id` set to that id.
    pub fn add(&mut self, vector: V, metadata: IndexMetadata) -> (r: Result<usize, StoreError>)
        requires
            old(self).wf(),
        ensures
            final(self).wf(),
            r is Ok,
            r->Ok_0 == old(self).vectors_spec().len(),
            final(self).vectors_spec() == old(self).vectors_spec().push(vector),
            final(self).metadata_spec() == old(self).metadata_spec().push(IndexMetadata { id: r->Ok_0, ..metadata }),
    {
        let id = self.vectors.len();
        let mut m = metadata;
        m.id = id;
        self.vectors.push(vector);
        self.metadata.push(m);
        Ok(id)
    }

    /// The vector stored under `id`.
    pub fn vector(&self, id: usize) -> (r: Option<&V>)
        ensures
            id < self.vectors_spec().len() ==> r == Some(&self.vectors_spec()[id as int]),
            id >= self.vectors_spec().len() ==> r is None,
    {
        if id < self.vectors.len() {
            Some(&self.vectors[id])
        } else {
            None
        }
    }

    /// The metadata stored under `id`.
    pub fn metadata(&self, id: usize) -> (r: Option<&IndexMetadata>)
        ensures
            id < self.metadata_spec().len() ==> r == Some(&self.metadata_spec()[id as int]),
            id >= self.metadata_spec().len() ==> r is None,
    {
        if id < self.metadata.len() {
            Some(&self.metadata[id])
        } else {
            None
        }
    }

    /// Ranks the stored vectors by `scores` (`scores[i]` is the similarity
    /// key of vector `i`) and returns the best `k`. A score list whose length
    /// differs from the number of stored vectors is an invalid query.
    pub fn search(&self, scores: &Vec<i64>, k: usize) -> (r: Result<Vec<ScoredId>, StoreError>)
        ensures
            scores.len() != self.vectors_spec().len() <==> r is Err,
            r is Err ==> r->Err_0 is Index,
            r is Ok ==> is_top_k(
                Seq::new(scores.len() as nat, |i: int| ScoredId { id: i as usize, score: scores@[i] }),
                k as nat,
                r->Ok_0@,
            ),
    {
        if scores.len() != self.vectors.len() {
            return Err(StoreError::Index("score count differs from vector count".to_owned()));
        }
        let mut items: Vec<ScoredId> = Vec::new();
        let mut i: usize = 0;
        while i < scores.len()
            invariant
                i <= scores.len(),
                items@ == Seq::new(i as nat, |j: int| ScoredId { id: j as usize, score: scores@[j] }),
            decreases scores.len() - i,
        {
            items.push(ScoredId { id: i, score: scores[i] });
            proof {
                assert(items@ =~= Seq::new((i + 1) as nat, |j: int| ScoredId { id: j as usize, score: scores@[j] }));
            }
            i += 1;
        }
        Ok(top_k(items, k))
    }
}

} // verus!
