//! Deterministic retrieval: the hashing embedder, reciprocal-rank fusion of the
//! evidence lists, and the answer built from the fused ranking.
use vstd::prelude::*;
use vstd::utf8::encode_utf8;

use crate::calibrator::{calibrated_value, isotonic_error, isotonic_valid, Calibrator, ConfidenceProfile};
use crate::crypto::{sha256, sha256_digest};
use crate::error::SielError;
use crate::float_bits::{spec_clamp01, F32Bits};
use crate::vector::VectorHit;
use crate::policy::{any_stale, below_low_reason, decide, has_stale, status_for};
use crate::text::{chars_of, lemma_views_push, normalize_tokens, spec_tokens, trim_white_space, trimmed};
use crate::types::{is_unknown_response, unknown_answer_text, Evidence, ModelRef, QueryResponse, QueryStatus};

verus! {

// ---------------------------------------------------------------------------
// Hashing embedder
// ---------------------------------------------------------------------------

/// A deterministic embedder: every token adds one to the component chosen by the
/// first four bytes of its SHA-256 digest; the vector is then scaled to unit
/// length.
#[derive(Clone, Debug)]
pub struct HashEmbedder {
    model_ref: ModelRef,
    dimensions: usize,
}

/// The little-endian `u32` read from the first four bytes.
pub open spec fn le_u32(b: Seq<u8>) -> nat {
    b[0] as nat + 256 * (b[1] as nat) + 65536 * (b[2] as nat) + 16777216 * (b[3] as nat)
}

/// The component a token lands on.
pub open spec fn token_bucket(token: Seq<char>, dimensions: nat) -> nat {
    le_u32(sha256(encode_utf8(token))) % dimensions
}

/// How many of the tokens land on each component.
pub open spec fn bucket_histogram(tokens: Seq<Seq<char>>, dimensions: nat) -> Seq<nat>
    decreases tokens.len(),
{
    if tokens.len() == 0 {
        Seq::new(dimensions, |j: int| 0nat)
    } else {
        let h = bucket_histogram(tokens.drop_last(), dimensions);
        let b = token_bucket(tokens.last(), dimensions) as int;
        h.update(b, h[b] + 1)
    }
}

proof fn lemma_histogram_len(tokens: Seq<Seq<char>>, dimensions: nat)
    requires
        dimensions > 0,
    ensures
        bucket_histogram(tokens, dimensions).len() == dimensions,
    decreases tokens.len(),
{
    if tokens.len() > 0 {
        lemma_histogram_len(tokens.drop_last(), dimensions);
    }
}

/// Counting a token that lands on `b`.
pub open spec fn bump(h: Seq<nat>, b: int) -> Seq<nat> {
    h.update(b, h[b] + 1)
}

/// Taking out the token at `i` takes one off its component.
proof fn lemma_histogram_remove(s: Seq<Seq<char>>, dimensions: nat, i: int)
    requires
        dimensions > 0,
        0 <= i < s.len(),
    ensures
        bucket_histogram(s, dimensions) == bump(
            bucket_histogram(s.remove(i), dimensions),
            token_bucket(s[i], dimensions) as int,
        ),
    decreases s.len(),
{
    let n = s.len() - 1;
    if i == n {
        assert(s.remove(i) =~= s.drop_last());
    } else {
        let d = s.drop_last();
        lemma_histogram_remove(d, dimensions, i);
        let r = s.remove(i);
        assert(r.drop_last() =~= d.remove(i));
        assert(r.last() == s.last());
        assert(d[i] == s[i]);
        let h0 = bucket_histogram(d.remove(i), dimensions);
        lemma_histogram_len(d.remove(i), dimensions);
        let bi = token_bucket(s[i], dimensions) as int;
        let bl = token_bucket(s.last(), dimensions) as int;
        assert(bump(bump(h0, bi), bl) =~= bump(bump(h0, bl), bi));
    }
}

/// The counts do not depend on the order of the tokens: two token lists that
/// hold the same tokens, each as often, give the same counts.
pub proof fn lemma_histogram_order_free(t1: Seq<Seq<char>>, t2: Seq<Seq<char>>, dimensions: nat)
    requires
        dimensions > 0,
        t1.to_multiset() == t2.to_multiset(),
    ensures
        bucket_histogram(t1, dimensions) == bucket_histogram(t2, dimensions),
    decreases t1.len(),
{
    broadcast use vstd::seq_lib::to_multiset_remove, vstd::seq_lib::to_multiset_len, vstd::seq_lib::to_multiset_contains;

    if t1.len() == 0 {
        assert(t2.to_multiset().len() == 0);
        assert(t2 =~= t1);
    } else {
        let n = t1.len() - 1;
        let e = t1[n];
        assert(t1.contains(e));
        assert(t2.to_multiset().contains(e));
        assert(t2.contains(e));
        let i = choose|i: int| 0 <= i < t2.len() && t2[i] == e;
        assert(t1.remove(n) =~= t1.drop_last());
        assert(t1.remove(n).to_multiset() == t1.to_multiset().remove(e));
        assert(t2.remove(i).to_multiset() == t2.to_multiset().remove(e));
        lemma_histogram_order_free(t1.drop_last(), t2.remove(i), dimensions);
        lemma_histogram_remove(t2, dimensions, i);
    }
}

impl HashEmbedder {
    pub closed spec fn spec_model_id(self) -> Seq<char> {
        self.model_ref.model_id@
    }

    pub closed spec fn spec_model_version(self) -> Seq<char> {
        self.model_ref.model_version@
    }

    pub closed spec fn spec_dimensions(self) -> nat {
        self.dimensions as nat
    }

    pub fn new(model_id: &str, model_version: &str, dimensions: usize) -> (e: HashEmbedder)
        ensures
            e.spec_model_id() == model_id@,
            e.spec_model_version() == model_version@,
            e.spec_dimensions() == dimensions,
    {
        HashEmbedder {
            model_ref: ModelRef {
                model_id: model_id.to_string(),
                model_version: model_version.to_string(),
            },
            dimensions,
        }
    }

    /// The model this embedder stands for.
    pub fn model_ref(&self) -> (m: ModelRef)
        ensures
            m.model_id@ == self.spec_model_id(),
            m.model_version@ == self.spec_model_version(),
    {
        ModelRef {
            model_id: self.model_ref.model_id.clone(),
            model_version: self.model_ref.model_version.clone(),
        }
    }

    pub fn dimensions(&self) -> (d: usize)
        ensures
            d == self.spec_dimensions(),
    {
        self.dimensions
    }

    /// The token count of each component, before scaling: component `j` counts
    /// the tokens of `text` whose bucket is `j`.  A zero-dimensional embedder
    /// accepts only texts without tokens.
    pub fn bucket_counts(&self, text: &str) -> (counts: Vec<usize>)
        requires
            self.spec_dimensions() > 0 || spec_tokens(text@).len() == 0,
        ensures
            counts@.len() == self.spec_dimensions(),
            forall|j: int|
                0 <= j < counts@.len() ==> counts@[j] == #[trigger] bucket_histogram(
                    spec_tokens(text@),
                    self.spec_dimensions(),
                )[j],
    {
        let tokens = normalize_tokens(text);
        let ghost toks = spec_tokens(text@);
        assert(tokens@.len() == toks.len());
        let dims = self.dimensions;
        let mut counts: Vec<usize> = Vec::new();
        let mut j: usize = 0;
        while j < dims
            invariant
                j <= dims,
                counts@.len() == j,
                forall|q: int| 0 <= q < j ==> counts@[q] == 0,
            decreases dims - j,
        {
            counts.push(0);
            j = j + 1;
        }
        proof {
            assert(bucket_histogram(toks.take(0), dims as nat) =~= Seq::new(dims as nat, |q: int| 0nat));
        }
        let mut i: usize = 0;
        while i < tokens.len()
            invariant
                dims == self.spec_dimensions(),
                dims > 0 || toks.len() == 0,
                toks == spec_tokens(text@),
                tokens@.len() == toks.len(),
                forall|q: int| 0 <= q < toks.len() ==> #[trigger] tokens@[q]@ == toks[q],
                i <= tokens@.len(),
                counts@.len() == dims,
                forall|q: int| 0 <= q < dims ==> #[trigger] counts@[q] <= i,
                forall|q: int|
                    0 <= q < dims ==> counts@[q] == #[trigger] bucket_histogram(
                        toks.take(i as int),
                        dims as nat,
                    )[q],
            decreases tokens@.len() - i,
        {
            let digest = sha256_digest(tokens[i].as_str().as_bytes());
            let word: u32 = digest[0] as u32 + 256 * (digest[1] as u32) + 65536 * (digest[2] as u32)
                + 16777216 * (digest[3] as u32);
            let idx = (word as usize) % dims;
            proof {
                assert(tokens@[i as int]@ == toks[i as int]);
                assert(toks.take(i + 1).drop_last() =~= toks.take(i as int));
                assert(toks.take(i + 1).last() == toks[i as int]);
                assert(dims > 0);
                lemma_histogram_len(toks.take(i as int), dims as nat);
                assert(idx == token_bucket(toks[i as int], dims as nat));
            }
            let c = counts[idx];
            counts.set(idx, c + 1);
            i = i + 1;
        }
        assert(toks.take(tokens@.len() as int) =~= toks);
        counts
    }
}

impl HashEmbedder {
    /// The token counts of `text`, or `None` when the embedder has no component
    /// for a text that has tokens (there the counts cannot be taken).
    pub fn checked_bucket_counts(&self, text: &str) -> (r: Option<Vec<usize>>)
        ensures
            r is None <==> (self.spec_dimensions() == 0 && spec_tokens(text@).len() > 0),
            r matches Some(counts) ==> counts@.len() == self.spec_dimensions() && forall|j: int|
                0 <= j < counts@.len() ==> counts@[j] == #[trigger] bucket_histogram(
                    spec_tokens(text@),
                    self.spec_dimensions(),
                )[j],
    {
        if self.dimensions == 0 {
            let tokens = normalize_tokens(text);
            assert(tokens@.len() == spec_tokens(text@).len());
            if tokens.len() > 0 {
                return None;
            }
        }
        Some(self.bucket_counts(text))
    }
}

impl Default for HashEmbedder {
    /// `hash-embedder` version `0.1.0`, 64 components.
    fn default() -> (e: HashEmbedder)
        ensures
            e.spec_model_id() == "hash-embedder"@,
            e.spec_model_version() == "0.1.0"@,
            e.spec_dimensions() == 64,
    {
        HashEmbedder::new("hash-embedder", "0.1.0", 64)
    }
}

// ---------------------------------------------------------------------------
// Reciprocal-rank fusion
// ---------------------------------------------------------------------------

/// All the evidence that one item contributed to the concatenated result lists:
/// the first of it (flagged stale when any of it is) and the ranks at which the
/// item occurs.  Its fused score is `max(score, 1 / (k + r0 + 1))` for the first
/// rank `r0`, then `min(score + 1 / (k + r + 1), 1)` for each later rank `r`.
pub struct FusedEvidence {
    pub evidence: Evidence,
    pub ranks: Vec<usize>,
}

/// `f` gathers exactly the ranks of `s` whose item is `f`'s item, in increasing
/// order, and holds the first of them, stale when any of them is.
pub open spec fn is_group_of(s: Seq<Evidence>, f: FusedEvidence) -> bool {
    let r = f.ranks@;
    &&& r.len() > 0
    &&& forall|i: int, j: int| 0 <= i < j < r.len() ==> #[trigger] r[i] < #[trigger] r[j]
    &&& forall|i: int|
        0 <= i < r.len() ==> #[trigger] r[i] < s.len() && s[r[i] as int].item_id@
            == f.evidence.item_id@
    &&& forall|k: int|
        0 <= k < s.len() && #[trigger] s[k].item_id@ == f.evidence.item_id@ ==> r.contains(
            k as usize,
        )
    &&& f.evidence == (Evidence {
        stale_embedding: exists|i: int| 0 <= i < r.len() && #[trigger] s[r[i] as int].stale_embedding,
        ..s[r[0] as int]
    })
}

/// `g` partitions the ranks of `s` by item, one group per item, the groups in the
/// order in which their items first occur.
pub open spec fn is_fusion(s: Seq<Evidence>, g: Seq<FusedEvidence>) -> bool {
    &&& forall|a: int| 0 <= a < g.len() ==> is_group_of(s, #[trigger] g[a])
    &&& forall|a: int, b: int|
        0 <= a < b < g.len() ==> (#[trigger] g[a]).ranks@[0] < (#[trigger] g[b]).ranks@[0]
    &&& forall|a: int, b: int|
        0 <= a < b < g.len() ==> (#[trigger] g[a]).evidence.item_id@
            != (#[trigger] g[b]).evidence.item_id@
    &&& forall|k: int|
        0 <= k < s.len() ==> exists|a: int|
            0 <= a < g.len() && (#[trigger] g[a]).evidence.item_id@ == #[trigger] s[k].item_id@
}

/// A group of another item is unaffected by appending `e`.
proof fn lemma_group_other(sk: Seq<Evidence>, e: Evidence, fb: FusedEvidence)
    requires
        is_group_of(sk, fb),
        fb.evidence.item_id@ != e.item_id@,
    ensures
        is_group_of(sk.push(e), fb),
{
    let sk1 = sk.push(e);
    let rb = fb.ranks@;
    assert forall|i: int| 0 <= i < rb.len() implies #[trigger] rb[i] < sk1.len()
        && sk1[rb[i] as int].item_id@ == fb.evidence.item_id@ by {
        assert(rb[i] < sk.len());
    }
    assert forall|q: int|
        0 <= q < sk1.len() && #[trigger] sk1[q].item_id@ == fb.evidence.item_id@ implies rb.contains(
            q as usize,
        ) by {
        assert(sk[q].item_id@ == fb.evidence.item_id@);
    }
    let so = exists|i: int| 0 <= i < rb.len() && #[trigger] sk[rb[i] as int].stale_embedding;
    let sn = exists|i: int| 0 <= i < rb.len() && #[trigger] sk1[rb[i] as int].stale_embedding;
    if so {
        let w = choose|w: int| 0 <= w < rb.len() && #[trigger] sk[rb[w] as int].stale_embedding;
        assert(sk1[rb[w] as int].stale_embedding);
    }
    if sn {
        let w = choose|w: int| 0 <= w < rb.len() && #[trigger] sk1[rb[w] as int].stale_embedding;
        assert(rb[w] < sk.len());
        assert(sk[rb[w] as int].stale_embedding);
    }
    assert(rb[0] < sk.len());
    assert(sk1[rb[0] as int] == sk[rb[0] as int]);
}

/// Appending `e` to the group of its own item: one more rank, and the stale flag
/// picks up `e`'s.
proof fn lemma_group_same(sk: Seq<Evidence>, e: Evidence, old_f: FusedEvidence, f: FusedEvidence)
    requires
        is_group_of(sk, old_f),
        old_f.evidence.item_id@ == e.item_id@,
        f.ranks@ == old_f.ranks@.push(sk.len() as usize),
        f.evidence == (Evidence {
            stale_embedding: old_f.evidence.stale_embedding || e.stale_embedding,
            ..old_f.evidence
        }),
        sk.len() <= usize::MAX,
    ensures
        is_group_of(sk.push(e), f),
{
    let sk1 = sk.push(e);
    let k = sk.len();
    let r = f.ranks@;
    let ro = old_f.ranks@;
    assert forall|i: int, j: int| 0 <= i < j < r.len() implies #[trigger] r[i] < #[trigger] r[j] by {
        if j < r.len() - 1 {
            assert(ro[i] < ro[j]);
        } else {
            assert(ro[i] < sk.len());
        }
    }
    assert forall|i: int| 0 <= i < r.len() implies #[trigger] r[i] < sk1.len()
        && sk1[r[i] as int].item_id@ == f.evidence.item_id@ by {
        if i < r.len() - 1 {
            assert(ro[i] < sk.len());
        }
    }
    assert forall|q: int|
        0 <= q < sk1.len() && #[trigger] sk1[q].item_id@ == f.evidence.item_id@ implies r.contains(
            q as usize,
        ) by {
        if q < k {
            assert(sk[q].item_id@ == old_f.evidence.item_id@);
            assert(ro.contains(q as usize));
            let w = choose|w: int| 0 <= w < ro.len() && ro[w] == q as usize;
            assert(r[w] == q as usize);
        } else {
            assert(r[r.len() - 1] == q as usize);
        }
    }
    let old_stale = exists|i: int| 0 <= i < ro.len() && #[trigger] sk[ro[i] as int].stale_embedding;
    let new_stale = exists|i: int| 0 <= i < r.len() && #[trigger] sk1[r[i] as int].stale_embedding;
    if old_stale {
        let w = choose|w: int| 0 <= w < ro.len() && #[trigger] sk[ro[w] as int].stale_embedding;
        assert(ro[w] < sk.len());
        assert(r[w] == ro[w]);
        assert(sk1[r[w] as int].stale_embedding);
    }
    if e.stale_embedding {
        assert(sk1[r[r.len() - 1] as int].stale_embedding);
    }
    if new_stale {
        let w = choose|w: int| 0 <= w < r.len() && #[trigger] sk1[r[w] as int].stale_embedding;
        if w < r.len() - 1 {
            assert(ro[w] < sk.len());
            assert(sk[ro[w] as int].stale_embedding);
        }
    }
    assert(new_stale == (old_stale || e.stale_embedding));
    assert(ro[0] < sk.len());
    assert(sk1[r[0] as int] == sk[ro[0] as int]);
}

/// Updating one group of a fusion after appending an item that it already holds.
proof fn lemma_fusion_update(
    sk: Seq<Evidence>,
    e: Evidence,
    old_groups: Seq<FusedEvidence>,
    a: int,
    g: Seq<FusedEvidence>,
)
    requires
        is_fusion(sk, old_groups),
        0 <= a < old_groups.len(),
        old_groups[a].evidence.item_id@ == e.item_id@,
        g.len() == old_groups.len(),
        forall|b: int| 0 <= b < g.len() && b != a ==> g[b] == old_groups[b],
        is_group_of(sk.push(e), g[a]),
        g[a].ranks@[0] == old_groups[a].ranks@[0],
        g[a].evidence.item_id@ == e.item_id@,
    ensures
        is_fusion(sk.push(e), g),
{
    let sk1 = sk.push(e);
    assert forall|b: int| 0 <= b < g.len() implies is_group_of(sk1, #[trigger] g[b]) by {
        if b != a {
            assert(is_group_of(sk, old_groups[b]));
            if b < a {
                assert(old_groups[b].evidence.item_id@ != old_groups[a].evidence.item_id@);
            } else {
                assert(old_groups[a].evidence.item_id@ != old_groups[b].evidence.item_id@);
            }
            lemma_group_other(sk, e, old_groups[b]);
        }
    }
    assert forall|b: int, c: int| 0 <= b < c < g.len() implies (#[trigger] g[b]).ranks@[0] < (
    #[trigger] g[c]).ranks@[0] by {
        assert(old_groups[b].ranks@[0] < old_groups[c].ranks@[0]);
    }
    assert forall|b: int, c: int| 0 <= b < c < g.len() implies (#[trigger] g[b]).evidence.item_id@
        != (#[trigger] g[c]).evidence.item_id@ by {
        assert(old_groups[b].evidence.item_id@ != old_groups[c].evidence.item_id@);
    }
    assert forall|q: int| 0 <= q < sk1.len() implies exists|b: int|
        0 <= b < g.len() && (#[trigger] g[b]).evidence.item_id@ == #[trigger] sk1[q].item_id@ by {
        if q < sk.len() {
            assert(sk1[q] == sk[q]);
            let b = choose|b: int|
                0 <= b < old_groups.len() && (#[trigger] old_groups[b]).evidence.item_id@
                    == sk[q].item_id@;
            assert(g[b].evidence.item_id@ == sk1[q].item_id@);
        } else {
            assert(g[a].evidence.item_id@ == sk1[q].item_id@);
        }
    }
}

/// Appending a new group for an item not seen before.
proof fn lemma_fusion_push(sk: Seq<Evidence>, e: Evidence, old_groups: Seq<FusedEvidence>, f: FusedEvidence)
    requires
        is_fusion(sk, old_groups),
        forall|b: int|
            0 <= b < old_groups.len() ==> (#[trigger] old_groups[b]).evidence.item_id@ != e.item_id@,
        forall|b: int| 0 <= b < old_groups.len() ==> forall|i: int|
            0 <= i < (#[trigger] old_groups[b]).ranks@.len() ==> old_groups[b].ranks@[i] < sk.len(),
        f.evidence == e,
        f.ranks@ == seq![sk.len() as usize],
        sk.len() <= usize::MAX,
    ensures
        is_fusion(sk.push(e), old_groups.push(f)),
{
    let sk1 = sk.push(e);
    let g = old_groups.push(f);
    let k = sk.len();
    let r = f.ranks@;
    assert forall|q: int|
        0 <= q < sk1.len() && #[trigger] sk1[q].item_id@ == f.evidence.item_id@ implies r.contains(
            q as usize,
        ) by {
        if q < k {
            assert(sk1[q] == sk[q]);
            let b = choose|b: int|
                0 <= b < old_groups.len() && (#[trigger] old_groups[b]).evidence.item_id@
                    == sk[q].item_id@;
            assert(old_groups[b].evidence.item_id@ != e.item_id@);
        } else {
            assert(r[0] == q as usize);
        }
    }
    if e.stale_embedding {
        assert(sk1[r[0] as int].stale_embedding);
    }
    assert(is_group_of(sk1, f));
    assert forall|b: int| 0 <= b < g.len() implies is_group_of(sk1, #[trigger] g[b]) by {
        if b < old_groups.len() {
            assert(g[b] == old_groups[b]);
            lemma_group_other(sk, e, old_groups[b]);
        }
    }
    assert forall|b: int, c: int| 0 <= b < c < g.len() implies (#[trigger] g[b]).ranks@[0] < (
    #[trigger] g[c]).ranks@[0] by {
        if c == old_groups.len() {
            assert(is_group_of(sk, old_groups[b]));
            assert(old_groups[b].ranks@[0] < k);
        } else {
            assert(old_groups[b].ranks@[0] < old_groups[c].ranks@[0]);
        }
    }
    assert forall|b: int, c: int| 0 <= b < c < g.len() implies (#[trigger] g[b]).evidence.item_id@
        != (#[trigger] g[c]).evidence.item_id@ by {
        if c == old_groups.len() {
            assert(old_groups[b].evidence.item_id@ != e.item_id@);
        } else {
            assert(old_groups[b].evidence.item_id@ != old_groups[c].evidence.item_id@);
        }
    }
    assert forall|q: int| 0 <= q < sk1.len() implies exists|b: int|
        0 <= b < g.len() && (#[trigger] g[b]).evidence.item_id@ == #[trigger] sk1[q].item_id@ by {
        if q < k {
            assert(sk1[q] == sk[q]);
            let b = choose|b: int|
                0 <= b < old_groups.len() && (#[trigger] old_groups[b]).evidence.item_id@
                    == sk[q].item_id@;
            assert(g[b].evidence.item_id@ == sk1[q].item_id@);
        } else {
            assert(g[old_groups.len() as int].evidence.item_id@ == sk1[q].item_id@);
        }
    }
}

fn find_group(groups: &Vec<FusedEvidence>, id: &String) -> (r: Option<usize>)
    ensures
        r matches Some(a) ==> a < groups@.len() && groups@[a as int].evidence.item_id@ == id@,
        r is None ==> forall|a: int|
            0 <= a < groups@.len() ==> (#[trigger] groups@[a]).evidence.item_id@ != id@,
{
    let mut a: usize = 0;
    while a < groups.len()
        invariant
            a <= groups@.len(),
            forall|b: int| 0 <= b < a ==> (#[trigger] groups@[b]).evidence.item_id@ != id@,
        decreases groups@.len() - a,
    {
        if groups[a].evidence.item_id == *id {
            return Some(a);
        }
        a = a + 1;
    }
    None
}

/// A group holding no rank and empty evidence (score zero, not stale), used to
/// take a group out of the list while it is updated.
fn empty_group() -> (g: FusedEvidence)
    ensures
        g.ranks@.len() == 0,
        g.evidence.item_id@.len() == 0,
        g.evidence.question@.len() == 0,
        g.evidence.answer@.len() == 0,
        g.evidence.source_id is None,
        g.evidence.score == F32Bits(0),
        !g.evidence.stale_embedding,
{
    FusedEvidence {
        evidence: Evidence {
            item_id: String::new(),
            question: String::new(),
            answer: String::new(),
            source_id: None,
            score: F32Bits(0),
            stale_embedding: false,
        },
        ranks: Vec::new(),
    }
}

/// Groups the concatenated result lists by item, in order of first occurrence,
/// recording every rank at which each item occurs.
pub fn group_by_item(evidences: Vec<Evidence>) -> (groups: Vec<FusedEvidence>)
    ensures
        is_fusion(evidences@, groups@),
{
    let ghost s = evidences@;
    let n = evidences.len();
    let mut pending = evidences;
    let mut queue: Vec<Evidence> = Vec::new();
    while pending.len() > 0
        invariant
            pending@ == s.take(pending@.len() as int),
            queue@.len() + pending@.len() == n,
            n == s.len(),
            forall|j: int| 0 <= j < queue@.len() ==> #[trigger] queue@[j] == s[n - 1 - j],
        decreases pending@.len(),
    {
        let x = pending.pop().unwrap();
        queue.push(x);
        assert(pending@ =~= s.take(pending@.len() as int));
    }
    let mut groups: Vec<FusedEvidence> = Vec::new();
    let mut k: usize = 0;
    while queue.len() > 0
        invariant
            n == s.len(),
            queue@.len() + k == n,
            forall|j: int| 0 <= j < queue@.len() ==> #[trigger] queue@[j] == s[n - 1 - j],
            is_fusion(s.take(k as int), groups@),
            forall|a: int| 0 <= a < groups@.len() ==> forall|i: int|
                0 <= i < (#[trigger] groups@[a]).ranks@.len() ==> groups@[a].ranks@[i] < k,
        decreases queue@.len(),
    {
        let e = queue.pop().unwrap();
        assert(e == s[k as int]);
        let ghost sk = s.take(k as int);
        assert(s.take(k + 1) =~= sk.push(e));
        let ghost old_groups = groups@;
        match find_group(&groups, &e.item_id) {
            Some(a) => {
                let mut f = empty_group();
                groups.set_and_swap(a, &mut f);
                let ghost old_f = f;
                f.evidence.stale_embedding = f.evidence.stale_embedding || e.stale_embedding;
                f.ranks.push(k);
                proof {
                    assert(is_group_of(sk, old_f));
                    lemma_group_same(sk, e, old_f, f);
                }
                groups.set(a, f);
                proof {
                    lemma_fusion_update(sk, e, old_groups, a as int, groups@);
                    assert forall|b: int| 0 <= b < groups@.len() implies forall|i: int|
                        0 <= i < (#[trigger] groups@[b]).ranks@.len() ==> groups@[b].ranks@[i] < k + 1 by {
                        if b != a {
                            assert(groups@[b] == old_groups[b]);
                        }
                    }
                }
            },
            None => {
                let mut ranks: Vec<usize> = Vec::new();
                ranks.push(k);
                let f = FusedEvidence { evidence: e, ranks };
                proof {
                    assert(f.ranks@ =~= seq![k]);
                    lemma_fusion_push(sk, e, old_groups, f);
                }
                groups.push(f);
                proof {
                    assert forall|b: int| 0 <= b < groups@.len() implies forall|i: int|
                        0 <= i < (#[trigger] groups@[b]).ranks@.len() ==> groups@[b].ranks@[i] < k + 1 by {
                        if b < old_groups.len() {
                            assert(groups@[b] == old_groups[b]);
                        }
                    }
                }
            },
        }
        k = k + 1;
    }
    assert(s.take(n as int) =~= s);
    groups
}

// ---------------------------------------------------------------------------
// The answer built from a ranking
// ---------------------------------------------------------------------------

/// The identifiers of the first (at most three) ranked items.
pub open spec fn top_support_ids(ranked: Seq<Evidence>) -> Seq<Seq<char>> {
    ranked.take(if ranked.len() < 3 {
        ranked.len() as int
    } else {
        3
    }).map_values(|e: Evidence| e.item_id@)
}

/// The sources of the ranked items that have one, in rank order.
pub open spec fn ranked_source_ids(ranked: Seq<Evidence>) -> Seq<Seq<char>>
    decreases ranked.len(),
{
    if ranked.len() == 0 {
        seq![]
    } else {
        let rest = ranked_source_ids(ranked.drop_last());
        match ranked.last().source_id {
            Some(src) => rest.push(src@),
            None => rest,
        }
    }
}

/// The suggestion offered with an answer below the low threshold.
pub open spec fn teach_suggestion() -> Seq<char> {
    "Puoi insegnarmi questa informazione con /teach."@
}

/// The reason given when retrieval found nothing.
pub open spec fn no_evidence_reason() -> Seq<char> {
    "no supporting evidence found"@
}

/// `r` is the answer built from a non-empty ranking: graded by the profile from
/// the best score; below the low threshold it declines (offering to be taught),
/// otherwise it gives the best item's answer, cites the top three items and
/// lists every source; either way it reports whether any ranked item is stale.
pub open spec fn ranked_answer(ranked: Seq<Evidence>, profile: ConfidenceProfile, r: QueryResponse) -> bool {
    &&& calibrated_value(profile.calibrator, ranked[0].score, r.confidence)
    &&& r.confidence_calibrated == (profile.calibrator is Isotonic)
    &&& r.status == status_for(r.confidence, profile.threshold_high, profile.threshold_low)
    &&& r.confidence_profile_id@ == profile.profile_id@
    &&& r.stale_embeddings_detected == any_stale(ranked)
    &&& if r.status == QueryStatus::Unknown {
        &&& r.answer@ == unknown_answer_text()
        &&& r.support_ids@.len() == 0
        &&& r.source_ids@.len() == 0
        &&& r.missing_information@.map_values(|m: String| m@) == seq![below_low_reason()]
        &&& r.learning_suggestion matches Some(t) && t@ == teach_suggestion()
    } else {
        &&& r.answer@ == ranked[0].answer@
        &&& r.support_ids@.map_values(|i: String| i@) == top_support_ids(ranked)
        &&& r.source_ids@.map_values(|i: String| i@) == ranked_source_ids(ranked)
        &&& r.missing_information@.len() == 0
        &&& r.learning_suggestion is None
    }
}

/// An answer built from a ranking cites the best items in rank order: exactly
/// the first three (or all, when there are fewer), each by its item id.
pub proof fn lemma_answer_cites_top_three(ranked: Seq<Evidence>, profile: ConfidenceProfile, r: QueryResponse)
    requires
        ranked.len() > 0,
        ranked_answer(ranked, profile, r),
        r.status != QueryStatus::Unknown,
    ensures
        r.support_ids@.len() == if ranked.len() < 3 {
            ranked.len()
        } else {
            3
        },
        forall|i: int| 0 <= i < r.support_ids@.len() ==> (#[trigger] r.support_ids@[i])@ == ranked[i].item_id@,
{
    let v = r.support_ids@.map_values(|x: String| x@);
    assert(v == top_support_ids(ranked));
    assert forall|i: int| 0 <= i < r.support_ids@.len() implies (#[trigger] r.support_ids@[i])@ == ranked[i].item_id@ by {
        assert(v[i] == r.support_ids@[i]@);
    }
}

/// The identifiers of the first (at most three) ranked items.
fn top_ids(ranked: &Vec<Evidence>) -> (ids: Vec<String>)
    ensures
        ids@.map_values(|i: String| i@) == top_support_ids(ranked@),
{
    let n = if ranked.len() < 3 {
        ranked.len()
    } else {
        3
    };
    let mut ids: Vec<String> = Vec::new();
    let mut i: usize = 0;
    while i < n
        invariant
            n <= ranked@.len(),
            n == if ranked@.len() < 3 {
                ranked@.len()
            } else {
                3
            },
            i <= n,
            ids@.map_values(|x: String| x@) == ranked@.take(i as int).map_values(|e: Evidence| e.item_id@),
        decreases n - i,
    {
        let ghost before = ids@;
        ids.push(ranked[i].item_id.clone());
        proof {
            lemma_views_push(before, ranked@[i as int].item_id);
            assert(ranked@.take(i + 1).map_values(|e: Evidence| e.item_id@) =~= ranked@.take(
                i as int,
            ).map_values(|e: Evidence| e.item_id@).push(ranked@[i as int].item_id@));
        }
        i = i + 1;
    }
    ids
}

/// The sources of the ranked items that have one, in rank order.
fn source_ids_of(ranked: &Vec<Evidence>) -> (ids: Vec<String>)
    ensures
        ids@.map_values(|i: String| i@) == ranked_source_ids(ranked@),
{
    let mut ids: Vec<String> = Vec::new();
    let mut i: usize = 0;
    while i < ranked.len()
        invariant
            i <= ranked@.len(),
            ids@.map_values(|x: String| x@) == ranked_source_ids(ranked@.take(i as int)),
        decreases ranked@.len() - i,
    {
        let ghost before = ids@;
        assert(ranked@.take(i + 1).drop_last() =~= ranked@.take(i as int));
        match &ranked[i].source_id {
            Some(src) => {
                ids.push(src.clone());
                proof {
                    lemma_views_push(before, *src);
                }
            },
            None => {},
        }
        i = i + 1;
    }
    assert(ranked@.take(ranked@.len() as int) =~= ranked@);
    ids
}

/// The answer to a query from its fused ranking (best first): declines when the
/// ranking is empty, and otherwise as `ranked_answer` describes.  Fails only when
/// the profile's calibrator is invalid.
pub fn answer_from_ranked(ranked: &Vec<Evidence>, profile: &ConfidenceProfile) -> (r: Result<
    QueryResponse,
    SielError,
>)
    ensures
        ranked@.len() == 0 ==> (r matches Ok(v) && is_unknown_response(v, no_evidence_reason())),
        ranked@.len() > 0 ==> (r is Err <==> (profile.calibrator matches Calibrator::Isotonic(m)
            && !isotonic_valid(m.x_thresholds@, m.y_probabilities@))),
        r matches Err(e) ==> (profile.calibrator matches Calibrator::Isotonic(m) && e matches SielError::InvalidInput(
            t,
        ) && t@ == isotonic_error(m.x_thresholds@, m.y_probabilities@)),
        ranked@.len() > 0 ==> (r matches Ok(v) ==> ranked_answer(ranked@, *profile, v)),
        ranked@.len() > 0 ==> (r matches Ok(v) ==> (v.status != QueryStatus::Unknown ==> v.support_ids@.len()
            == if ranked@.len() < 3 {
            ranked@.len()
        } else {
            3
        } && forall|i: int|
            0 <= i < v.support_ids@.len() ==> (#[trigger] v.support_ids@[i])@ == ranked@[i].item_id@)),
{
    if ranked.len() == 0 {
        return Ok(QueryResponse::unknown("no supporting evidence found"));
    }
    let decision = decide(ranked[0].score, profile)?;
    let stale = has_stale(ranked.as_slice());
    if decision.status == QueryStatus::Unknown {
        let reason = match decision.reason {
            Some(text) => text,
            None => "confidence below threshold".to_string(),
        };
        let mut missing: Vec<String> = Vec::new();
        missing.push(reason);
        assert(missing@.map_values(|m: String| m@) =~= seq![below_low_reason()]);
        return Ok(
            QueryResponse {
                answer: "Non lo so con sufficiente certezza.".to_string(),
                status: QueryStatus::Unknown,
                confidence: decision.confidence,
                confidence_calibrated: decision.confidence_calibrated,
                confidence_profile_id: profile.profile_id.clone(),
                support_ids: Vec::new(),
                source_ids: Vec::new(),
                missing_information: missing,
                learning_suggestion: Some("Puoi insegnarmi questa informazione con /teach.".to_string()),
                stale_embeddings_detected: stale,
            },
        );
    }
    let support_ids = top_ids(ranked);
    let source_ids = source_ids_of(ranked);
    proof {
        assert(support_ids@.len() == support_ids@.map_values(|i: String| i@).len());
        assert forall|i: int| 0 <= i < support_ids@.len() implies (#[trigger] support_ids@[i])@
            == ranked@[i].item_id@ by {
            assert(support_ids@.map_values(|x: String| x@)[i] == support_ids@[i]@);
        }
    }
    Ok(
        QueryResponse {
            answer: ranked[0].answer.clone(),
            status: decision.status,
            confidence: decision.confidence,
            confidence_calibrated: decision.confidence_calibrated,
            confidence_profile_id: profile.profile_id.clone(),
            support_ids,
            source_ids,
            missing_information: Vec::new(),
            learning_suggestion: None,
            stale_embeddings_detected: stale,
        },
    )
}

// ---------------------------------------------------------------------------
// The query
// ---------------------------------------------------------------------------

/// The query text without surrounding white space; a query with nothing else is
/// an `InvalidInput` error.
pub fn prepare_query(query: &str) -> (r: Result<String, SielError>)
    ensures
        r is Ok <==> trimmed(query@).len() > 0,
        r matches Ok(q) ==> q@ == trimmed(query@),
        r matches Err(e) ==> (e matches SielError::InvalidInput(m) && m@ == "query cannot be empty"@),
{
    let q = trim_white_space(query);
    if q.is_empty() {
        return Err(SielError::InvalidInput("query cannot be empty".to_string()));
    }
    Ok(q.to_string())
}

/// A text with every double quote doubled, as an FTS5 string wants it.
pub open spec fn fts_escaped(s: Seq<char>) -> Seq<char>
    decreases s.len(),
{
    if s.len() == 0 {
        seq![]
    } else if s.last() == '"' {
        fts_escaped(s.drop_last()) + "\"\""@
    } else {
        fts_escaped(s.drop_last()).push(s.last())
    }
}

proof fn lemma_escaped_plain(s: Seq<char>, a: int, b: int)
    requires
        0 <= a <= b <= s.len(),
        forall|j: int| a <= j < b ==> #[trigger] s[j] != '"',
    ensures
        fts_escaped(s.take(b)) == fts_escaped(s.take(a)) + s.subrange(a, b),
    decreases b - a,
{
    if a == b {
        assert(s.subrange(a, b) =~= seq![]);
        assert(fts_escaped(s.take(a)) + seq![] =~= fts_escaped(s.take(a)));
    } else {
        lemma_escaped_plain(s, a, b - 1);
        assert(s.take(b).drop_last() =~= s.take(b - 1));
        assert(s.take(b).last() == s[b - 1]);
        assert(s.subrange(a, b) =~= s.subrange(a, b - 1).push(s[b - 1]));
        assert(fts_escaped(s.take(a)) + s.subrange(a, b) =~= (fts_escaped(s.take(a)) + s.subrange(
            a,
            b - 1,
        )).push(s[b - 1]));
    }
}

/// The full-text query for a text: the whole text as one FTS5 phrase (in double
/// quotes, its own double quotes doubled), so that its punctuation is matched as
/// text and never read as query syntax.
pub fn fts_phrase_query(query: &str) -> (q: String)
    ensures
        q@ == "\""@ + fts_escaped(query@) + "\""@,
{
    let cs = chars_of(query);
    let n = cs.len();
    let mut out = "\"".to_string();
    let mut start: usize = 0;
    let mut i: usize = 0;
    assert(query@.take(0) =~= seq![]);
    while i < n
        invariant
            cs@ == query@,
            n == cs@.len(),
            start <= i <= n,
            out@ == "\""@ + fts_escaped(query@.take(start as int)),
            forall|j: int| start <= j < i ==> #[trigger] query@[j] != '"',
        decreases n - i,
    {
        if cs[i] == '"' {
            let plain = query.substring_char(start, i);
            proof {
                lemma_escaped_plain(query@, start as int, i as int);
                assert(query@.take(i + 1).drop_last() =~= query@.take(i as int));
                assert(query@.take(i + 1).last() == '"');
            }
            out.append(plain);
            out.append("\"\"");
            start = i + 1;
            assert(out@ =~= "\""@ + fts_escaped(query@.take(start as int)));
        }
        i = i + 1;
    }
    let rest = query.substring_char(start, n);
    proof {
        lemma_escaped_plain(query@, start as int, n as int);
        assert(query@.take(n as int) =~= query@);
    }
    out.append(rest);
    out.append("\"");
    assert(out@ =~= "\""@ + fts_escaped(query@) + "\""@);
    out
}

/// The text embedded for an item: its question, a newline, its answer.
pub fn embedding_text(question: &str, answer: &str) -> (t: String)
    ensures
        t@ == question@ + "\n"@ + answer@,
{
    let mut t = question.to_string();
    t.append("\n");
    t.append(answer);
    t
}

/// The evidence for a vector hit whose payload could be read: the hit's score
/// clamped to `[0, 1]`, the item's question, answer and source.
pub fn evidence_from_hit(hit: VectorHit, question: String, answer: String, source_id: Option<String>) -> (e:
    Evidence)
    ensures
        e.item_id == hit.id,
        e.question == question,
        e.answer == answer,
        e.source_id == source_id,
        e.score.0 == spec_clamp01(hit.score.0),
        !e.stale_embedding,
{
    Evidence { item_id: hit.id, question, answer, source_id, score: hit.score.clamp01(), stale_embedding: false }
}

} // verus!
