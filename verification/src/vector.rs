//! Vector indexes: the storage format of vectors, dimension checks, and an
//! in-memory index keyed by item id that keeps the model and model version that
//! produced each vector.  Vector components are `f32` bit patterns; the cosine
//! similarity itself is floating-point arithmetic and is computed by the caller.
use vstd::prelude::*;
use vstd::bytes::{spec_u32_from_le_bytes, spec_u32_to_le_bytes, u32_from_le_bytes, u32_to_le_bytes};
use vstd::slice::slice_to_vec;

use crate::error::SielError;
use crate::float_bits::F32Bits;
use crate::ranking::sort_by_scores;
use crate::text::{append_decimal, decimal};

verus! {

#[derive(Clone, Copy, Debug, PartialEq, Eq, Structural)]
pub enum VectorScoreKind {
    CosineSimilarity,
    DotProduct,
    Distance,
}

/// Which stored vectors a search may return.
#[derive(Clone, Debug)]
pub struct VectorSearchFilter {
    pub model_id: String,
    pub model_version: String,
    pub lang: Option<String>,
    pub domain: Option<String>,
    pub include_statuses: Vec<String>,
    pub exclude_deleted: bool,
}

/// A search result.  `score` holds the bit pattern of an `f32`.
#[derive(Clone, Debug)]
pub struct VectorHit {
    pub id: String,
    pub score: F32Bits,
    pub score_kind: VectorScoreKind,
    pub model_id: String,
    pub model_version: String,
}

// ---------------------------------------------------------------------------
// Dimensions and storage format
// ---------------------------------------------------------------------------

/// The message of a vector whose length is not the declared dimension.
pub open spec fn dimension_message(expected: nat, got: nat) -> Seq<char> {
    "vector dimension mismatch: expected "@ + decimal(expected) + ", got "@ + decimal(got)
}

/// The `InvalidInput` error for a vector of `got` components where `expected`
/// were declared.
fn dimension_error(expected: usize, got: usize) -> (e: SielError)
    ensures
        e matches SielError::InvalidInput(m) && m@ == dimension_message(expected as nat, got as nat),
{
    let mut m = "vector dimension mismatch: expected ".to_string();
    append_decimal(&mut m, expected);
    m.append(", got ");
    append_decimal(&mut m, got);
    SielError::InvalidInput(m)
}

/// A vector must have exactly the declared number of components.
pub fn validate_dimensions(dimensions: usize, vector: &[F32Bits]) -> (r: Result<(), SielError>)
    ensures
        r is Ok <==> vector@.len() == dimensions,
        r matches Err(e) ==> (e matches SielError::InvalidInput(m) && m@ == dimension_message(
            dimensions as nat,
            vector@.len(),
        )),
{
    if vector.len() != dimensions {
        return Err(dimension_error(dimensions, vector.len()));
    }
    Ok(())
}

/// The stored form of a vector: each component's `f32::to_le_bytes`, in order.
pub open spec fn spec_encode_vector(v: Seq<F32Bits>) -> Seq<u8>
    decreases v.len(),
{
    if v.len() == 0 {
        seq![]
    } else {
        spec_encode_vector(v.drop_last()) + spec_u32_to_le_bytes(v.last().0)
    }
}

/// The components read back from a stored form whose length is a multiple of four.
pub open spec fn spec_decode_vector(b: Seq<u8>) -> Seq<F32Bits> {
    Seq::new(b.len() / 4, |i: int| F32Bits(spec_u32_from_le_bytes(b.subrange(4 * i, 4 * i + 4))))
}

proof fn lemma_encode_len(v: Seq<F32Bits>)
    ensures
        spec_encode_vector(v).len() == 4 * v.len(),
        forall|i: int|
            0 <= i < v.len() ==> #[trigger] spec_encode_vector(v).subrange(4 * i, 4 * i + 4)
                == spec_u32_to_le_bytes(v[i].0),
    decreases v.len(),
{
    vstd::bytes::lemma_auto_spec_u32_to_from_le_bytes();
    if v.len() > 0 {
        let d = v.drop_last();
        lemma_encode_len(d);
        let e = spec_encode_vector(v);
        assert forall|i: int| 0 <= i < v.len() implies #[trigger] e.subrange(4 * i, 4 * i + 4)
            == spec_u32_to_le_bytes(v[i].0) by {
            if i < d.len() {
                assert(e.subrange(4 * i, 4 * i + 4) =~= spec_encode_vector(d).subrange(4 * i, 4 * i + 4));
            } else {
                assert(e.subrange(4 * i, 4 * i + 4) =~= spec_u32_to_le_bytes(v.last().0));
            }
        }
    }
}

/// Encodes every component in little-endian order.
pub fn encode_vector(vector: &[F32Bits]) -> (out: Vec<u8>)
    ensures
        out@ == spec_encode_vector(vector@),
{
    let mut out: Vec<u8> = Vec::new();
    let mut i: usize = 0;
    while i < vector.len()
        invariant
            i <= vector@.len(),
            out@ == spec_encode_vector(vector@.take(i as int)),
        decreases vector@.len() - i,
    {
        let bytes = u32_to_le_bytes(vector[i].0);
        out.extend_from_slice(bytes.as_slice());
        proof {
            assert(vector@.take(i + 1).drop_last() =~= vector@.take(i as int));
            assert(out@ =~= spec_encode_vector(vector@.take(i as int)) + bytes@);
        }
        i = i + 1;
    }
    assert(vector@.take(vector@.len() as int) =~= vector@);
    out
}

/// Decodes a stored vector; a length that is not a multiple of four is a storage
/// error.
pub fn decode_vector(bytes: &[u8]) -> (r: Result<Vec<F32Bits>, SielError>)
    ensures
        r is Ok <==> bytes@.len() % 4 == 0,
        r matches Ok(v) ==> v@ == spec_decode_vector(bytes@),
        r matches Err(e) ==> (e matches SielError::Storage(m) && m@
            == "vector blob length is not a multiple of 4"@),
{
    if bytes.len() % 4 != 0 {
        return Err(SielError::Storage("vector blob length is not a multiple of 4".to_string()));
    }
    let blen = bytes.len();
    let n = blen / 4;
    let mut out: Vec<F32Bits> = Vec::new();
    let mut i: usize = 0;
    while i < n
        invariant
            blen == bytes@.len(),
            n == bytes@.len() / 4,
            i <= n,
            out@.len() == i,
            forall|j: int| 0 <= j < i ==> #[trigger] out@[j] == spec_decode_vector(bytes@)[j],
        decreases n - i,
    {
        assert(4 * i + 4 <= blen) by (nonlinear_arith)
            requires
                i < n,
                n == blen / 4,
        ;
        let chunk = vstd::slice::slice_subrange(bytes, 4 * i, 4 * i + 4);
        let word = u32_from_le_bytes(chunk);
        out.push(F32Bits(word));
        i = i + 1;
    }
    assert(out@ =~= spec_decode_vector(bytes@));
    Ok(out)
}

/// Decoding the stored form of a vector gives the vector back.
pub proof fn lemma_decode_encode(v: Seq<F32Bits>)
    ensures
        spec_encode_vector(v).len() % 4 == 0,
        spec_decode_vector(spec_encode_vector(v)) == v,
{
    vstd::bytes::lemma_auto_spec_u32_to_from_le_bytes();
    lemma_encode_len(v);
    let d = spec_decode_vector(spec_encode_vector(v));
    assert forall|i: int| 0 <= i < v.len() implies d[i] == v[i] by {
        assert(spec_encode_vector(v).subrange(4 * i, 4 * i + 4) == spec_u32_to_le_bytes(v[i].0));
    }
    assert(d =~= v);
}

// ---------------------------------------------------------------------------
// Ranking hits
// ---------------------------------------------------------------------------

/// The scores of a list of hits.
pub open spec fn hit_scores(hits: Seq<VectorHit>) -> Seq<F32Bits> {
    hits.map_values(|h: VectorHit| h.score)
}

/// Sorts hits stably by descending score and keeps the first `k`.
pub fn rank_hits(hits: Vec<VectorHit>, k: usize) -> (out: Vec<VectorHit>)
    ensures
        exists|sorted: Seq<VectorHit>|
            #[trigger] crate::ranking::sorted_by_score(hits@, hit_scores(hits@), sorted) && out@
                == sorted.take(if k < sorted.len() {
                k as int
            } else {
                sorted.len() as int
            }),
{
    let mut scores: Vec<F32Bits> = Vec::new();
    let mut i: usize = 0;
    while i < hits.len()
        invariant
            i <= hits@.len(),
            scores@ == hit_scores(hits@.take(i as int)),
        decreases hits@.len() - i,
    {
        scores.push(hits[i].score);
        assert(hit_scores(hits@.take(i + 1)) =~= hit_scores(hits@.take(i as int)).push(
            hits@[i as int].score,
        ));
        i = i + 1;
    }
    assert(hits@.take(hits@.len() as int) =~= hits@);
    let ghost h = hits@;
    let mut sorted = sort_by_scores(hits, scores.as_slice());
    let ghost sv = sorted@;
    if k < sorted.len() {
        sorted.truncate(k);
    }
    assert(sorted@ =~= sv.take(if k < sv.len() {
        k as int
    } else {
        sv.len() as int
    }));
    sorted
}

// ---------------------------------------------------------------------------
// In-memory index
// ---------------------------------------------------------------------------

/// What the index keeps for one item.
pub struct StoredVector {
    pub model_id: String,
    pub model_version: String,
    pub dimensions: usize,
    pub vector: Vec<F32Bits>,
}

/// The abstract content of a stored vector.
pub struct StoredView {
    pub model_id: Seq<char>,
    pub model_version: Seq<char>,
    pub dimensions: nat,
    pub vector: Seq<F32Bits>,
}

pub open spec fn stored_view(s: StoredVector) -> StoredView {
    StoredView {
        model_id: s.model_id@,
        model_version: s.model_version@,
        dimensions: s.dimensions as nat,
        vector: s.vector@,
    }
}

/// A stored vector whose model and version match the given ones.
pub open spec fn same_model(s: StoredView, model_id: Seq<char>, model_version: Seq<char>) -> bool {
    s.model_id == model_id && s.model_version == model_version
}

/// The batch as abstract (id, vector) pairs.
pub open spec fn batch_view(vectors: Seq<(&str, &[F32Bits])>) -> Seq<(Seq<char>, Seq<F32Bits>)> {
    vectors.map_values(|p: (&str, &[F32Bits])| (p.0@, p.1@))
}

/// How many leading entries of a batch have the declared dimensions.
pub open spec fn valid_prefix_len(batch: Seq<(Seq<char>, Seq<F32Bits>)>, dimensions: nat) -> nat
    decreases batch.len(),
{
    if batch.len() == 0 {
        0
    } else {
        let p = valid_prefix_len(batch.drop_last(), dimensions);
        if p < batch.len() - 1 {
            p
        } else if batch.last().1.len() == dimensions {
            batch.len()
        } else {
            p
        }
    }
}

/// The index after inserting the entries of a batch one after the other.
pub open spec fn upsert_all(
    m: Map<Seq<char>, StoredView>,
    batch: Seq<(Seq<char>, Seq<F32Bits>)>,
    model_id: Seq<char>,
    model_version: Seq<char>,
    dimensions: nat,
) -> Map<Seq<char>, StoredView>
    decreases batch.len(),
{
    if batch.len() == 0 {
        m
    } else {
        upsert_all(m, batch.drop_last(), model_id, model_version, dimensions).insert(
            batch.last().0,
            StoredView { model_id, model_version, dimensions, vector: batch.last().1 },
        )
    }
}

/// The ids of the index whose stored vector satisfies `keep`, each once.
pub open spec fn lists_exactly(out: Seq<Seq<char>>, m: Map<Seq<char>, StoredView>, keep: spec_fn(StoredView) -> bool) -> bool {
    &&& forall|i: int, j: int| 0 <= i < j < out.len() ==> #[trigger] out[i] != #[trigger] out[j]
    &&& forall|i: int| 0 <= i < out.len() ==> m.dom().contains(#[trigger] out[i]) && keep(m[out[i]])
    &&& forall|k: Seq<char>| #[trigger] m.dom().contains(k) && keep(m[k]) ==> out.contains(k)
}

/// A vector with its id, as returned to a search.
pub struct SearchCandidate {
    pub id: String,
    pub vector: Vec<F32Bits>,
}

/// An in-memory index: item id to stored vector.
pub struct FakeVectorIndex {
    ids: Vec<String>,
    entries: Vec<StoredVector>,
    contents: Ghost<Map<Seq<char>, StoredView>>,
}

impl View for FakeVectorIndex {
    type V = Map<Seq<char>, StoredView>;

    closed spec fn view(&self) -> Map<Seq<char>, StoredView> {
        self.contents@
    }
}

impl FakeVectorIndex {
    /// The index is consistent: one entry per id, the ids distinct, and the
    /// abstract content is exactly what the entries hold.
    pub closed spec fn wf(&self) -> bool {
        &&& self.ids@.len() == self.entries@.len()
        &&& forall|i: int, j: int|
            0 <= i < j < self.ids@.len() ==> (#[trigger] self.ids@[i])@ != (#[trigger] self.ids@[j])@
        &&& forall|i: int|
            0 <= i < self.ids@.len() ==> self.contents@.dom().contains(#[trigger] self.ids@[i]@)
                && self.contents@[self.ids@[i]@] == stored_view(self.entries@[i])
        &&& forall|k: Seq<char>|
            #[trigger] self.contents@.dom().contains(k) ==> exists|i: int|
                0 <= i < self.ids@.len() && (#[trigger] self.ids@[i])@ == k
    }

    /// An empty index.
    pub fn new() -> (r: FakeVectorIndex)
        ensures
            r.wf(),
            r@ == Map::<Seq<char>, StoredView>::empty(),
    {
        FakeVectorIndex { ids: Vec::new(), entries: Vec::new(), contents: Ghost(Map::empty()) }
    }

    fn position(&self, id: &str) -> (r: Option<usize>)
        requires
            self.wf(),
        ensures
            r matches Some(i) ==> i < self.ids@.len() && self.ids@[i as int]@ == id@,
            r is None ==> !self@.dom().contains(id@),
    {
        let target = id.to_string();
        let mut i: usize = 0;
        while i < self.ids.len()
            invariant
                self.wf(),
                target@ == id@,
                i <= self.ids@.len(),
                forall|j: int| 0 <= j < i ==> (#[trigger] self.ids@[j])@ != id@,
            decreases self.ids@.len() - i,
        {
            if self.ids[i] == target {
                return Some(i);
            }
            i = i + 1;
        }
        None
    }

    /// Inserts or replaces one entry.
    fn upsert_one(&mut self, id: &str, stored: StoredVector)
        requires
            old(self).wf(),
        ensures
            final(self).wf(),
            final(self)@ == old(self)@.insert(id@, stored_view(stored)),
    {
        let ghost sv = stored_view(stored);
        match self.position(id) {
            Some(i) => {
                self.entries.set(i, stored);
                self.contents = Ghost(self.contents@.insert(id@, sv));
                assert forall|k: Seq<char>| #[trigger] self.contents@.dom().contains(k) implies exists|j: int|
                    0 <= j < self.ids@.len() && (#[trigger] self.ids@[j])@ == k by {
                    if k != id@ {
                        assert(old(self).contents@.dom().contains(k));
                        let j = choose|j: int| 0 <= j < old(self).ids@.len() && (#[trigger] old(self).ids@[j])@ == k;
                        assert(self.ids@[j] == old(self).ids@[j]);
                    } else {
                        assert(self.ids@[i as int]@ == k);
                    }
                }
            },
            None => {
                self.ids.push(id.to_string());
                self.entries.push(stored);
                self.contents = Ghost(self.contents@.insert(id@, sv));
                let ghost n: int = self.ids@.len() - 1;
                assert forall|a: int, b: int| 0 <= a < b < self.ids@.len() implies (#[trigger] self.ids@[a])@
                    != (#[trigger] self.ids@[b])@ by {
                    if b == n {
                        assert(old(self).contents@.dom().contains(old(self).ids@[a]@));
                    } else {
                        assert(old(self).ids@[a]@ != old(self).ids@[b]@);
                    }
                }
                assert forall|a: int| 0 <= a < self.ids@.len() implies self.contents@.dom().contains(
                    #[trigger] self.ids@[a]@,
                ) && self.contents@[self.ids@[a]@] == stored_view(self.entries@[a]) by {
                    if a < n {
                        assert(old(self).contents@.dom().contains(old(self).ids@[a]@));
                    }
                }
                assert forall|k: Seq<char>| #[trigger] self.contents@.dom().contains(k) implies exists|j: int|
                    0 <= j < self.ids@.len() && (#[trigger] self.ids@[j])@ == k by {
                    if k != id@ {
                        assert(old(self).contents@.dom().contains(k));
                        let j = choose|j: int| 0 <= j < old(self).ids@.len() && (#[trigger] old(self).ids@[j])@ == k;
                        assert(self.ids@[j] == old(self).ids@[j]);
                    } else {
                        assert(self.ids@[n as int]@ == k);
                    }
                }
            },
        }
    }

    /// Stores every vector of the batch under the given model and version, in
    /// order.  The first vector whose length is not `dimensions` stops the batch
    /// with an `InvalidInput` error; the vectors before it are kept.
    pub fn upsert_batch(
        &mut self,
        model_id: &str,
        model_version: &str,
        dimensions: usize,
        vectors: &[(&str, &[F32Bits])],
    ) -> (r: Result<(), SielError>)
        requires
            old(self).wf(),
        ensures
            final(self).wf(),
            r is Ok <==> valid_prefix_len(batch_view(vectors@), dimensions as nat) == vectors@.len(),
            r matches Err(e) ==> (e matches SielError::InvalidInput(m) && m@ == dimension_message(
                dimensions as nat,
                batch_view(vectors@)[valid_prefix_len(batch_view(vectors@), dimensions as nat) as int].1.len(),
            )),
            final(self)@ == upsert_all(
                old(self)@,
                batch_view(vectors@).take(valid_prefix_len(batch_view(vectors@), dimensions as nat) as int),
                model_id@,
                model_version@,
                dimensions as nat,
            ),
            r is Ok ==> forall|i: int|
                0 <= i < vectors@.len() && (forall|j: int|
                    i < j < vectors@.len() ==> (#[trigger] vectors@[j]).0@ != vectors@[i].0@)
                    ==> #[trigger] final(self)@.dom().contains(vectors@[i].0@) && final(self)@[vectors@[i].0@]
                    == (StoredView {
                    model_id: model_id@,
                    model_version: model_version@,
                    dimensions: dimensions as nat,
                    vector: vectors@[i].1@,
                }),
    {
        let ghost batch = batch_view(vectors@);
        let ghost start = self@;
        let mut i: usize = 0;
        while i < vectors.len()
            invariant
                self.wf(),
                batch == batch_view(vectors@),
                start == old(self)@,
                i <= vectors@.len(),
                valid_prefix_len(batch.take(i as int), dimensions as nat) == i,
                self@ == upsert_all(start, batch.take(i as int), model_id@, model_version@, dimensions as nat),
            decreases vectors@.len() - i,
        {
            let (id, vector) = vectors[i];
            proof {
                assert(batch.take(i + 1).drop_last() =~= batch.take(i as int));
                assert(batch[i as int] == (id@, vector@));
            }
            if let Err(e) = validate_dimensions(dimensions, vector) {
                proof {
                    lemma_prefix_stops(batch, dimensions as nat, i as int);
                }
                return Err(e);
            }
            let stored = StoredVector {
                model_id: model_id.to_string(),
                model_version: model_version.to_string(),
                dimensions,
                vector: slice_to_vec(vector),
            };
            self.upsert_one(id, stored);
            i = i + 1;
        }
        assert(batch.take(vectors@.len() as int) =~= batch);
        proof {
            assert forall|i: int|
                0 <= i < vectors@.len() && (forall|j: int|
                    i < j < vectors@.len() ==> (#[trigger] vectors@[j]).0@ != vectors@[i].0@)
                    implies #[trigger] self@.dom().contains(vectors@[i].0@) && self@[vectors@[i].0@]
                    == (StoredView {
                    model_id: model_id@,
                    model_version: model_version@,
                    dimensions: dimensions as nat,
                    vector: vectors@[i].1@,
                }) by {
                assert forall|j: int| i < j < batch.len() implies #[trigger] batch[j].0 != batch[i].0 by {
                    assert(vectors@[j].0@ != vectors@[i].0@);
                }
                lemma_upsert_all_vectors(start, batch, model_id@, model_version@, dimensions as nat, i);
            }
        }
        Ok(())
    }

    /// Removes the item's vector, if any.
    pub fn delete_id(&mut self, id: &str) -> (r: Result<(), SielError>)
        requires
            old(self).wf(),
        ensures
            r is Ok,
            final(self).wf(),
            final(self)@ == old(self)@.remove(id@),
    {
        match self.position(id) {
            Some(i) => {
                self.ids.remove(i);
                self.entries.remove(i);
                self.contents = Ghost(self.contents@.remove(id@));
                proof {
                    let o = old(self).ids@;
                    let n = self.ids@;
                    assert forall|a: int| 0 <= a < n.len() implies #[trigger] n[a] == if a < i {
                        o[a]
                    } else {
                        o[a + 1]
                    } by {}
                    assert forall|a: int, b: int| 0 <= a < b < n.len() implies (#[trigger] n[a])@
                        != (#[trigger] n[b])@ by {
                        let oa = if a < i { a } else { a + 1 };
                        let ob = if b < i { b } else { b + 1 };
                        assert(o[oa]@ != o[ob]@);
                    }
                    assert forall|a: int| 0 <= a < n.len() implies self.contents@.dom().contains(
                        #[trigger] n[a]@,
                    ) && self.contents@[n[a]@] == stored_view(self.entries@[a]) by {
                        let oa = if a < i { a } else { a + 1 };
                        assert(o[oa]@ != o[i as int]@);
                        assert(old(self).contents@.dom().contains(o[oa]@));
                    }
                    assert forall|k: Seq<char>| #[trigger] self.contents@.dom().contains(k) implies exists|j: int|
                        0 <= j < n.len() && (#[trigger] n[j])@ == k by {
                        assert(old(self).contents@.dom().contains(k));
                        let j = choose|j: int| 0 <= j < o.len() && (#[trigger] o[j])@ == k;
                        assert(j != i);
                        if j < i {
                            assert(n[j] == o[j]);
                        } else {
                            assert(n[j - 1] == o[j]);
                        }
                    }
                }
            },
            None => {
                assert(self@ =~= old(self)@.remove(id@));
            },
        }
        Ok(())
    }

    /// The entries whose stored vector satisfies `keep`, with their ids, in storage
    /// order.
    pub closed spec fn select(&self, keep: spec_fn(StoredView) -> bool, n: int) -> Seq<(Seq<char>, StoredView)>
        decreases n,
    {
        if n <= 0 {
            seq![]
        } else {
            let r = self.select(keep, n - 1);
            let v = stored_view(self.entries@[n - 1]);
            if keep(v) {
                r.push((self.ids@[n - 1]@, v))
            } else {
                r
            }
        }
    }

    proof fn lemma_select_prefix(&self, keep: spec_fn(StoredView) -> bool, n: int)
        requires
            self.wf(),
            0 <= n <= self.ids@.len(),
        ensures
            forall|a: int| 0 <= a < self.select(keep, n).len() ==> exists|j: int|
                0 <= j < n && (#[trigger] self.ids@[j])@ == (#[trigger] self.select(keep, n)[a]).0
                    && self.select(keep, n)[a].1 == stored_view(self.entries@[j]) && keep(
                    self.select(keep, n)[a].1,
                ),
            forall|j: int|
                0 <= j < n && keep(stored_view(self.entries@[j])) ==> self.select(keep, n).map_values(
                    |p: (Seq<char>, StoredView)| p.0,
                ).contains(#[trigger] self.ids@[j]@),
            forall|a: int, b: int|
                0 <= a < b < self.select(keep, n).len() ==> (#[trigger] self.select(keep, n)[a]).0
                    != (#[trigger] self.select(keep, n)[b]).0,
        decreases n,
    {
        if n > 0 {
            self.lemma_select_prefix(keep, n - 1);
            let r = self.select(keep, n - 1);
            let s = self.select(keep, n);
            let v = stored_view(self.entries@[n - 1]);
            if keep(v) {
                assert(s == r.push((self.ids@[n - 1]@, v)));
                assert forall|a: int| 0 <= a < s.len() implies exists|j: int|
                    0 <= j < n && (#[trigger] self.ids@[j])@ == (#[trigger] s[a]).0 && s[a].1
                        == stored_view(self.entries@[j]) && keep(s[a].1) by {
                    if a < r.len() {
                        assert(s[a] == r[a]);
                        let j = choose|j: int|
                            0 <= j < n - 1 && (#[trigger] self.ids@[j])@ == (#[trigger] r[a]).0
                                && r[a].1 == stored_view(self.entries@[j]) && keep(r[a].1);
                    } else {
                        assert(self.ids@[n - 1]@ == s[a].0);
                    }
                }
                assert forall|j: int|
                    0 <= j < n && keep(stored_view(self.entries@[j])) implies s.map_values(
                        |p: (Seq<char>, StoredView)| p.0,
                    ).contains(#[trigger] self.ids@[j]@) by {
                    if j < n - 1 {
                        let rm = r.map_values(|p: (Seq<char>, StoredView)| p.0);
                        let w = choose|w: int| 0 <= w < rm.len() && rm[w] == self.ids@[j]@;
                        assert(s.map_values(|p: (Seq<char>, StoredView)| p.0)[w] == self.ids@[j]@);
                    } else {
                        assert(s.map_values(|p: (Seq<char>, StoredView)| p.0)[r.len() as int]
                            == self.ids@[j]@);
                    }
                }
                assert forall|a: int, b: int| 0 <= a < b < s.len() implies (#[trigger] s[a]).0 != (
                #[trigger] s[b]).0 by {
                    if b < r.len() {
                        assert(r[a].0 != r[b].0);
                    } else {
                        assert(s[a] == r[a]);
                        let j = choose|j: int|
                            0 <= j < n - 1 && (#[trigger] self.ids@[j])@ == (#[trigger] r[a]).0
                                && r[a].1 == stored_view(self.entries@[j]) && keep(r[a].1);
                        assert(self.ids@[j]@ != self.ids@[n - 1]@);
                    }
                }
            } else {
                assert(s == r);
                assert forall|a: int| 0 <= a < s.len() implies exists|j: int|
                    0 <= j < n && (#[trigger] self.ids@[j])@ == (#[trigger] s[a]).0 && s[a].1
                        == stored_view(self.entries@[j]) && keep(s[a].1) by {
                    let j = choose|j: int|
                        0 <= j < n - 1 && (#[trigger] self.ids@[j])@ == (#[trigger] r[a]).0 && r[a].1
                            == stored_view(self.entries@[j]) && keep(r[a].1);
                }
            }
        }
    }

    /// The selected entries are exactly the index's entries that satisfy `keep`.
    proof fn lemma_select(&self, keep: spec_fn(StoredView) -> bool)
        requires
            self.wf(),
        ensures
            lists_exactly(
                self.select(keep, self.ids@.len() as int).map_values(|p: (Seq<char>, StoredView)| p.0),
                self@,
                keep,
            ),
            forall|a: int|
                0 <= a < self.select(keep, self.ids@.len() as int).len() ==> (#[trigger] self.select(
                    keep,
                    self.ids@.len() as int,
                )[a]).1 == self@[self.select(keep, self.ids@.len() as int)[a].0],
    {
        let n = self.ids@.len() as int;
        self.lemma_select_prefix(keep, n);
        let s = self.select(keep, n);
        let sm = s.map_values(|p: (Seq<char>, StoredView)| p.0);
        assert forall|a: int, b: int| 0 <= a < b < sm.len() implies #[trigger] sm[a] != #[trigger] sm[b] by {
            assert(s[a].0 != s[b].0);
        }
        assert forall|a: int| 0 <= a < s.len() implies (#[trigger] s[a]).1 == self@[s[a].0] && self@.dom().contains(
            s[a].0,
        ) && keep(s[a].1) by {
            let j = choose|j: int|
                0 <= j < n && (#[trigger] self.ids@[j])@ == (#[trigger] s[a]).0 && s[a].1 == stored_view(
                    self.entries@[j],
                ) && keep(s[a].1);
        }
        assert forall|a: int| 0 <= a < sm.len() implies self@.dom().contains(#[trigger] sm[a]) && keep(
            self@[sm[a]],
        ) by {
            assert(sm[a] == s[a].0);
            assert(s[a].1 == self@[s[a].0]);
        }
        assert forall|k: Seq<char>| #[trigger] self@.dom().contains(k) && keep(self@[k]) implies sm.contains(k) by {
            let j = choose|j: int| 0 <= j < self.ids@.len() && (#[trigger] self.ids@[j])@ == k;
        }
    }

    /// Removes every vector of the given model version.
    pub fn delete_model_version(&mut self, model_id: &str, model_version: &str) -> (r: Result<
        (),
        SielError,
    >)
        requires
            old(self).wf(),
        ensures
            r is Ok,
            final(self).wf(),
            final(self)@ == old(self)@.restrict(
                old(self)@.dom().filter(
                    |k: Seq<char>| !same_model(old(self)@[k], model_id@, model_version@),
                ),
            ),
    {
        let ghost keep = |s: StoredView| !same_model(s, model_id@, model_version@);
        let mid = model_id.to_string();
        let mver = model_version.to_string();
        let mut kept = FakeVectorIndex::new();
        let mut i: usize = 0;
        while i < self.ids.len()
            invariant
                self.wf(),
                kept.wf(),
                mid@ == model_id@,
                mver@ == model_version@,
                keep == (|s: StoredView| !same_model(s, model_id@, model_version@)),
                i <= self.ids@.len(),
                forall|k: Seq<char>| #[trigger] kept@.dom().contains(k) <==> exists|j: int|
                    0 <= j < i && (#[trigger] self.ids@[j])@ == k && keep(stored_view(self.entries@[j])),
                forall|j: int|
                    0 <= j < i && keep(stored_view(self.entries@[j])) ==> kept@[(#[trigger] self.ids@[j])@]
                        == stored_view(self.entries@[j]),
            decreases self.ids@.len() - i,
        {
            let e = &self.entries[i];
            let ghost before = kept@;
            if !(e.model_id == mid && e.model_version == mver) {
                let copy = StoredVector {
                    model_id: e.model_id.clone(),
                    model_version: e.model_version.clone(),
                    dimensions: e.dimensions,
                    vector: slice_to_vec(e.vector.as_slice()),
                };
                kept.upsert_one(self.ids[i].as_str(), copy);
            }
            proof {
                assert forall|k: Seq<char>| #[trigger] kept@.dom().contains(k) <==> exists|j: int|
                    0 <= j < i + 1 && (#[trigger] self.ids@[j])@ == k && keep(stored_view(self.entries@[j])) by {
                    if exists|j: int|
                        0 <= j < i + 1 && (#[trigger] self.ids@[j])@ == k && keep(stored_view(self.entries@[j])) {
                        let j = choose|j: int|
                            0 <= j < i + 1 && (#[trigger] self.ids@[j])@ == k && keep(stored_view(self.entries@[j]));
                        if j < i {
                            assert(before.dom().contains(k));
                        }
                    }
                    if kept@.dom().contains(k) && k != self.ids@[i as int]@ {
                        assert(before.dom().contains(k));
                        let j = choose|j: int|
                            0 <= j < i && (#[trigger] self.ids@[j])@ == k && keep(stored_view(self.entries@[j]));
                    }
                }
                assert forall|j: int|
                    0 <= j < i + 1 && keep(stored_view(self.entries@[j])) implies kept@[(#[trigger] self.ids@[j])@]
                        == stored_view(self.entries@[j]) by {
                    if j < i {
                        assert(self.ids@[j]@ != self.ids@[i as int]@);
                    }
                }
            }
            i = i + 1;
        }
        proof {
            let target = self@.restrict(self@.dom().filter(|k: Seq<char>| !same_model(self@[k], model_id@, model_version@)));
            assert forall|k: Seq<char>| kept@.dom().contains(k) <==> target.dom().contains(k) by {
                if kept@.dom().contains(k) {
                    let j = choose|j: int|
                        0 <= j < self.ids@.len() && (#[trigger] self.ids@[j])@ == k && keep(stored_view(self.entries@[j]));
                }
                if target.dom().contains(k) {
                    let j = choose|j: int| 0 <= j < self.ids@.len() && (#[trigger] self.ids@[j])@ == k;
                }
            }
            assert forall|k: Seq<char>| kept@.dom().contains(k) implies kept@[k] == target[k] by {
                let j = choose|j: int|
                    0 <= j < self.ids@.len() && (#[trigger] self.ids@[j])@ == k && keep(stored_view(self.entries@[j]));
            }
            assert(kept@ =~= target);
        }
        *self = kept;
        Ok(())
    }

    /// The ids whose vector comes from `model_id` at a version other than
    /// `current_version`, each once (in no particular order).
    pub fn list_stale(&self, model_id: &str, current_version: &str) -> (r: Result<Vec<String>, SielError>)
        requires
            self.wf(),
        ensures
            r matches Ok(v) && lists_exactly(
                v@.map_values(|s: String| s@),
                self@,
                |s: StoredView| s.model_id == model_id@ && s.model_version != current_version@,
            ),
    {
        let mid = model_id.to_string();
        let cur = current_version.to_string();
        let ghost keep = |s: StoredView| s.model_id == model_id@ && s.model_version != current_version@;
        let mut out: Vec<String> = Vec::new();
        let mut i: usize = 0;
        while i < self.ids.len()
            invariant
                self.wf(),
                mid@ == model_id@,
                cur@ == current_version@,
                keep == (|s: StoredView| s.model_id == model_id@ && s.model_version != current_version@),
                i <= self.ids@.len(),
                out@.map_values(|s: String| s@) == self.select(keep, i as int).map_values(
                    |p: (Seq<char>, StoredView)| p.0,
                ),
            decreases self.ids@.len() - i,
        {
            let e = &self.entries[i];
            let ghost before = out@;
            if e.model_id == mid && e.model_version != cur {
                out.push(self.ids[i].clone());
                proof {
                    crate::text::lemma_views_push(before, self.ids@[i as int]);
                }
            }
            proof {
                let r = self.select(keep, i as int);
                let v = stored_view(self.entries@[i as int]);
                if keep(v) {
                    assert(r.push((self.ids@[i as int]@, v)).map_values(|p: (Seq<char>, StoredView)| p.0)
                        =~= r.map_values(|p: (Seq<char>, StoredView)| p.0).push(self.ids@[i as int]@));
                }
            }
            i = i + 1;
        }
        proof {
            self.lemma_select(keep);
        }
        Ok(out)
    }

    /// The stored vectors of the filter's model version, each with its id (in no
    /// particular order), for a query of `query_len` components.  A matching
    /// vector of another dimension is an `InvalidInput` error.
    pub fn candidates(&self, query_len: usize, filter: &VectorSearchFilter) -> (r: Result<
        Vec<SearchCandidate>,
        SielError,
    >)
        requires
            self.wf(),
        ensures
            r is Err <==> exists|k: Seq<char>|
                #[trigger] self@.dom().contains(k) && same_model(
                    self@[k],
                    filter.model_id@,
                    filter.model_version@,
                ) && self@[k].dimensions != query_len,
            r matches Err(e) ==> (e matches SielError::InvalidInput(m) && exists|k: Seq<char>|
                #[trigger] self@.dom().contains(k) && same_model(
                    self@[k],
                    filter.model_id@,
                    filter.model_version@,
                ) && self@[k].dimensions != query_len && m@ == dimension_message(
                    self@[k].dimensions,
                    query_len as nat,
                )),
            r matches Ok(c) ==> lists_exactly(
                c@.map_values(|s: SearchCandidate| s.id@),
                self@,
                |s: StoredView| same_model(s, filter.model_id@, filter.model_version@),
            ),
            r matches Ok(c) ==> forall|i: int|
                0 <= i < c@.len() ==> (#[trigger] c@[i]).vector@ == self@[c@[i].id@].vector,
    {
        let ghost keep = |s: StoredView| same_model(s, filter.model_id@, filter.model_version@);
        let mut out: Vec<SearchCandidate> = Vec::new();
        let mut i: usize = 0;
        while i < self.ids.len()
            invariant
                self.wf(),
                keep == (|s: StoredView| same_model(s, filter.model_id@, filter.model_version@)),
                i <= self.ids@.len(),
                forall|j: int|
                    0 <= j < i && keep(stored_view(self.entries@[j])) ==> self.entries@[j].dimensions
                        == query_len,
                out@.len() == self.select(keep, i as int).len(),
                forall|a: int|
                    0 <= a < out@.len() ==> (#[trigger] out@[a]).id@ == self.select(keep, i as int)[a].0
                        && out@[a].vector@ == self.select(keep, i as int)[a].1.vector,
            decreases self.ids@.len() - i,
        {
            let e = &self.entries[i];
            let ghost before = out@;
            if e.model_id == filter.model_id && e.model_version == filter.model_version {
                if e.dimensions != query_len {
                    proof {
                        let k = self.ids@[i as int]@;
                        assert(self@.dom().contains(k));
                    }
                    return Err(dimension_error(e.dimensions, query_len));
                }
                out.push(SearchCandidate { id: self.ids[i].clone(), vector: slice_to_vec(e.vector.as_slice()) });
            }
            proof {
                assert forall|a: int|
                    0 <= a < out@.len() implies (#[trigger] out@[a]).id@ == self.select(keep, i + 1)[a].0
                        && out@[a].vector@ == self.select(keep, i + 1)[a].1.vector by {
                    if a < before.len() {
                        assert(out@[a] == before[a]);
                    }
                }
            }
            i = i + 1;
        }
        proof {
            self.lemma_select(keep);
            let n = self.ids@.len() as int;
            let s = self.select(keep, n);
            assert(out@.map_values(|c: SearchCandidate| c.id@) =~= s.map_values(|p: (Seq<char>, StoredView)| p.0));
            assert forall|k: Seq<char>| #[trigger] self@.dom().contains(k) && same_model(
                self@[k],
                filter.model_id@,
                filter.model_version@,
            ) implies self@[k].dimensions == query_len by {
                let j = choose|j: int| 0 <= j < self.ids@.len() && (#[trigger] self.ids@[j])@ == k;
            }
            assert forall|a: int| 0 <= a < out@.len() implies (#[trigger] out@[a]).vector@ == self@[out@[a].id@].vector by {
                assert(s[a].1 == self@[s[a].0]);
            }
        }
        Ok(out)
    }
}

/// After a batch is stored, every id of the batch holds a vector of the batch's
/// model and version.
pub proof fn lemma_upsert_all(
    m: Map<Seq<char>, StoredView>,
    batch: Seq<(Seq<char>, Seq<F32Bits>)>,
    model_id: Seq<char>,
    model_version: Seq<char>,
    dimensions: nat,
)
    ensures
        forall|i: int|
            0 <= i < batch.len() ==> upsert_all(m, batch, model_id, model_version, dimensions).dom().contains(
                #[trigger] batch[i].0,
            ) && upsert_all(m, batch, model_id, model_version, dimensions)[batch[i].0].model_id
                == model_id && upsert_all(m, batch, model_id, model_version, dimensions)[batch[i].0].model_version
                == model_version,
    decreases batch.len(),
{
    if batch.len() > 0 {
        let d = batch.drop_last();
        lemma_upsert_all(m, d, model_id, model_version, dimensions);
        let prev = upsert_all(m, d, model_id, model_version, dimensions);
        let last = batch.last();
        let r = upsert_all(m, batch, model_id, model_version, dimensions);
        assert(r == prev.insert(last.0, StoredView { model_id, model_version, dimensions, vector: last.1 }));
        assert forall|i: int| 0 <= i < batch.len() implies r.dom().contains(#[trigger] batch[i].0)
            && r[batch[i].0].model_id == model_id && r[batch[i].0].model_version == model_version by {
            if i < d.len() {
                assert(d[i] == batch[i]);
                if batch[i].0 != last.0 {
                    assert(prev.dom().contains(d[i].0));
                }
            }
        }
    }
}

/// After a batch is stored, each id of the batch holds the vector given for it at
/// its last occurrence in the batch, under the batch's model, version and
/// dimensions, whether or not the id was stored before.
pub proof fn lemma_upsert_all_vectors(
    m: Map<Seq<char>, StoredView>,
    batch: Seq<(Seq<char>, Seq<F32Bits>)>,
    model_id: Seq<char>,
    model_version: Seq<char>,
    dimensions: nat,
    i: int,
)
    requires
        0 <= i < batch.len(),
        forall|j: int| i < j < batch.len() ==> #[trigger] batch[j].0 != batch[i].0,
    ensures
        upsert_all(m, batch, model_id, model_version, dimensions).dom().contains(batch[i].0),
        upsert_all(m, batch, model_id, model_version, dimensions)[batch[i].0] == (StoredView {
            model_id,
            model_version,
            dimensions,
            vector: batch[i].1,
        }),
    decreases batch.len(),
{
    let d = batch.drop_last();
    if i < batch.len() - 1 {
        assert forall|j: int| i < j < d.len() implies #[trigger] d[j].0 != d[i].0 by {
            assert(d[j] == batch[j]);
            assert(batch[j].0 != batch[i].0);
        }
        lemma_upsert_all_vectors(m, d, model_id, model_version, dimensions, i);
        assert(batch[batch.len() - 1].0 != batch[i].0);
    }
}

/// Storing a batch leaves every id outside the batch as it was.
pub proof fn lemma_upsert_all_other(
    m: Map<Seq<char>, StoredView>,
    batch: Seq<(Seq<char>, Seq<F32Bits>)>,
    model_id: Seq<char>,
    model_version: Seq<char>,
    dimensions: nat,
    k: Seq<char>,
)
    requires
        forall|i: int| 0 <= i < batch.len() ==> #[trigger] batch[i].0 != k,
    ensures
        upsert_all(m, batch, model_id, model_version, dimensions).dom().contains(k) == m.dom().contains(k),
        m.dom().contains(k) ==> upsert_all(m, batch, model_id, model_version, dimensions)[k] == m[k],
    decreases batch.len(),
{
    if batch.len() > 0 {
        let d = batch.drop_last();
        assert forall|i: int| 0 <= i < d.len() implies #[trigger] d[i].0 != k by {
            assert(d[i] == batch[i]);
        }
        lemma_upsert_all_other(m, d, model_id, model_version, dimensions, k);
        assert(batch[batch.len() - 1].0 != k);
    }
}

/// A failed dimension check at position `i` of a batch whose earlier entries are
/// fine stops the valid prefix there.
proof fn lemma_prefix_stops(batch: Seq<(Seq<char>, Seq<F32Bits>)>, dimensions: nat, i: int)
    requires
        0 <= i < batch.len(),
        valid_prefix_len(batch.take(i), dimensions) == i,
        batch[i].1.len() != dimensions,
    ensures
        valid_prefix_len(batch, dimensions) == i,
    decreases batch.len(),
{
    if batch.len() == i + 1 {
        assert(batch.drop_last() =~= batch.take(i));
    } else {
        assert(batch.drop_last().take(i) =~= batch.take(i));
        lemma_prefix_stops(batch.drop_last(), dimensions, i);
    }
}

/// An index kept in a SQLite file (created and queried by the caller).
pub struct SqliteVecIndex {
    path: String,
}

impl SqliteVecIndex {
    pub closed spec fn spec_path(&self) -> Seq<char> {
        self.path@
    }

    /// The handle on the index file at `path`.  The caller creates the table
    /// before first use.
    pub fn open(path: &str) -> (index: SqliteVecIndex)
        ensures
            index.spec_path() == path@,
    {
        SqliteVecIndex { path: path.to_string() }
    }

    pub fn path(&self) -> (p: &str)
        ensures
            p@ == self.spec_path(),
    {
        self.path.as_str()
    }
}

} // verus!
