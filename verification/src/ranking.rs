//! Ordering results by score: a stable sort in descending `f32::total_cmp` order
//! (what `sort_by(|a, b| b.score.total_cmp(&a.score))` does), truncation, and a
//! score floor.
use vstd::prelude::*;

use crate::float_bits::{spec_f32_le, F32Bits};
use crate::types::Evidence;

verus! {

/// The total-order keys of a sequence of scores.
pub open spec fn score_keys(scores: Seq<F32Bits>) -> Seq<int> {
    scores.map_values(|s: F32Bits| s.key())
}

/// `order` lists every index of `keys` once.
pub open spec fn is_permutation(order: Seq<usize>, n: nat) -> bool {
    &&& order.len() == n
    &&& forall|k: int| 0 <= k < order.len() ==> #[trigger] order[k] < n
    &&& forall|k: int, l: int|
        0 <= k < l < order.len() ==> #[trigger] order[k] != #[trigger] order[l]
}

/// `order` is the stable descending order of `keys`: keys never increase along
/// it, and indices with equal keys keep their original relative order.
pub open spec fn is_stable_desc_order(keys: Seq<int>, order: Seq<usize>) -> bool {
    &&& is_permutation(order, keys.len())
    &&& forall|k: int, l: int|
        0 <= k < l < order.len() ==> keys[#[trigger] order[k] as int] >= keys[#[trigger] order[l] as int]
    &&& forall|k: int, l: int|
        0 <= k < l < order.len() && keys[#[trigger] order[k] as int] == keys[#[trigger] order[l] as int]
            ==> order[k] < order[l]
}

/// `out` is `items` rearranged by `order`.
pub open spec fn permuted<T>(items: Seq<T>, order: Seq<usize>, out: Seq<T>) -> bool {
    &&& out.len() == order.len()
    &&& forall|k: int| 0 <= k < out.len() ==> #[trigger] out[k] == items[order[k] as int]
}

/// `out` is `items` sorted stably by descending score.
pub open spec fn sorted_by_score<T>(items: Seq<T>, scores: Seq<F32Bits>, out: Seq<T>) -> bool {
    exists|order: Seq<usize>|
        is_stable_desc_order(score_keys(scores), order) && #[trigger] permuted(items, order, out)
}

/// The stable descending order of the scores, by insertion.
pub fn rank_order(scores: &[F32Bits]) -> (order: Vec<usize>)
    ensures
        is_stable_desc_order(score_keys(scores@), order@),
{
    let ghost keys = score_keys(scores@);
    let n = scores.len();
    let mut order: Vec<usize> = Vec::new();
    let mut i: usize = 0;
    while i < n
        invariant
            n == scores@.len(),
            keys == score_keys(scores@),
            i <= n,
            is_stable_desc_order(keys.take(i as int), order@),
        decreases n - i,
    {
        let ghost old_order = order@;
        let ghost ki = keys[i as int];
        assert(keys.take(i as int).len() == i);
        // The first position whose key is below the new one.
        let mut p: usize = 0;
        while p < order.len() && !scores[order[p]].total_lt(scores[i])
            invariant
                n == scores@.len(),
                keys == score_keys(scores@),
                i < n,
                order@ == old_order,
                is_stable_desc_order(keys.take(i as int), order@),
                p <= order@.len(),
                forall|q: int| 0 <= q < p ==> keys[#[trigger] order@[q] as int] >= ki,
                ki == keys[i as int],
            decreases order@.len() - p,
        {
            proof {
                assert(order@[p as int] < i);
                assert(keys[order@[p as int] as int] == scores@[order@[p as int] as int].key());
                assert(ki == scores@[i as int].key());
            }
            p = p + 1;
        }
        proof {
            if p < order@.len() {
                assert(keys[order@[p as int] as int] == scores@[order@[p as int] as int].key());
                assert(ki == scores@[i as int].key());
                assert forall|q: int| p <= q < order@.len() implies keys[#[trigger] order@[q] as int]
                    < ki by {
                    if q > p {
                        assert(keys.take(i as int)[order@[p as int] as int] >= keys.take(
                            i as int,
                        )[order@[q] as int]);
                    }
                }
            }
        }
        order.insert(p, i);
        proof {
            let kt = keys.take(i + 1);
            let o = order@;
            assert forall|k: int| 0 <= k < o.len() implies #[trigger] kt[o[k] as int] == keys[o[k]
                as int] by {
                if k < p {
                    assert(o[k] == old_order[k]);
                } else if k > p {
                    assert(o[k] == old_order[k - 1]);
                }
            }
            assert forall|k: int| 0 <= k < o.len() implies #[trigger] o[k] < i + 1 by {
                if k < p {
                    assert(o[k] == old_order[k]);
                } else if k > p {
                    assert(o[k] == old_order[k - 1]);
                }
            }
            assert forall|k: int, l: int| 0 <= k < l < o.len() implies #[trigger] o[k]
                != #[trigger] o[l] by {
                if k < p && l < p {
                    assert(old_order[k] != old_order[l]);
                } else if k < p && l == p {
                    assert(old_order[k] < i);
                } else if k < p && l > p {
                    assert(old_order[k] != old_order[l - 1]);
                } else if k == p {
                    assert(old_order[l - 1] < i);
                } else {
                    assert(old_order[k - 1] != old_order[l - 1]);
                }
            }
            assert forall|k: int, l: int| 0 <= k < l < o.len() implies kt[#[trigger] o[k] as int]
                >= kt[#[trigger] o[l] as int] by {
                let ko = kt[o[k] as int];
                let lo = kt[o[l] as int];
                if k < p && l < p {
                    assert(keys.take(i as int)[old_order[k] as int] >= keys.take(
                        i as int,
                    )[old_order[l] as int]);
                } else if k < p && l == p {
                    assert(keys[old_order[k] as int] >= ki);
                } else if k < p && l > p {
                    assert(keys.take(i as int)[old_order[k] as int] >= keys.take(
                        i as int,
                    )[old_order[l - 1] as int]);
                } else if k == p {
                    assert(keys[old_order[l - 1] as int] < ki);
                } else {
                    assert(keys.take(i as int)[old_order[k - 1] as int] >= keys.take(
                        i as int,
                    )[old_order[l - 1] as int]);
                }
            }
            assert forall|k: int, l: int|
                0 <= k < l < o.len() && kt[#[trigger] o[k] as int] == kt[#[trigger] o[l] as int]
                    implies o[k] < o[l] by {
                if k < p && l < p {
                    assert(keys.take(i as int)[old_order[k] as int] == keys.take(
                        i as int,
                    )[old_order[l] as int]);
                } else if k < p && l == p {
                    assert(old_order[k] < i);
                } else if k < p && l > p {
                    assert(keys.take(i as int)[old_order[k] as int] == keys.take(
                        i as int,
                    )[old_order[l - 1] as int]);
                } else if k == p {
                    assert(keys[old_order[l - 1] as int] < ki);
                } else {
                    assert(keys.take(i as int)[old_order[k - 1] as int] == keys.take(
                        i as int,
                    )[old_order[l - 1] as int]);
                }
            }
        }
        i = i + 1;
    }
    assert(score_keys(scores@).take(n as int) =~= score_keys(scores@));
    order
}

/// Rearranges `items` by a permutation of their indices.
pub fn take_in_order<T>(items: Vec<T>, order: &Vec<usize>) -> (out: Vec<T>)
    requires
        is_permutation(order@, items@.len()),
    ensures
        permuted(items@, order@, out@),
{
    let ghost original = items@;
    let n = items.len();
    let mut slots: Vec<Option<T>> = Vec::new();
    let mut items = items;
    // Fill the slots back to front, then they are in the original order.
    let mut rev: Vec<Option<T>> = Vec::new();
    while items.len() > 0
        invariant
            rev@.len() + items@.len() == n,
            items@ == original.take(items@.len() as int),
            forall|j: int| 0 <= j < rev@.len() ==> #[trigger] rev@[j] == Some(original[n - 1 - j]),
            n == original.len(),
        decreases items@.len(),
    {
        let x = items.pop().unwrap();
        rev.push(Some(x));
        assert(items@ =~= original.take(items@.len() as int));
    }
    while rev.len() > 0
        invariant
            rev@.len() + slots@.len() == n,
            forall|j: int| 0 <= j < rev@.len() ==> #[trigger] rev@[j] == Some(original[n - 1 - j]),
            forall|j: int| 0 <= j < slots@.len() ==> #[trigger] slots@[j] == Some(original[j]),
            n == original.len(),
        decreases rev@.len(),
    {
        let x = rev.pop().unwrap();
        slots.push(x);
    }
    let mut out: Vec<T> = Vec::new();
    let mut k: usize = 0;
    while k < n
        invariant
            n == original.len(),
            is_permutation(order@, n as nat),
            slots@.len() == n,
            k <= n,
            out@.len() == k,
            forall|q: int| 0 <= q < k ==> #[trigger] out@[q] == original[order@[q] as int],
            forall|j: int|
                0 <= j < n ==> (#[trigger] slots@[j] == Some(original[j]) || exists|q: int|
                    0 <= q < k && order@[q] == j),
            forall|q: int| 0 <= q < k ==> #[trigger] slots@[order@[q] as int] is None,
        decreases n - k,
    {
        let idx = order[k];
        proof {
            if slots@[idx as int] is None {
                let q = choose|q: int| 0 <= q < k && order@[q] == idx;
                assert(order@[q] != order@[k as int]);
            }
        }
        let mut tmp: Option<T> = None;
        slots.set_and_swap(idx, &mut tmp);
        out.push(tmp.unwrap());
        proof {
            assert forall|j: int| 0 <= j < n implies (#[trigger] slots@[j] == Some(original[j])
                || exists|q: int| 0 <= q < k + 1 && order@[q] == j) by {
                if j == idx {
                    assert(order@[k as int] == j);
                } else if !(slots@[j] == Some(original[j])) {
                    let q = choose|q: int| 0 <= q < k && order@[q] == j;
                    assert(0 <= q < k + 1 && order@[q] == j);
                }
            }
        }
        k = k + 1;
    }
    out
}

/// Sorts `items` stably by descending `scores` (one score per item).
pub fn sort_by_scores<T>(items: Vec<T>, scores: &[F32Bits]) -> (out: Vec<T>)
    requires
        scores@.len() == items@.len(),
    ensures
        sorted_by_score(items@, scores@, out@),
{
    let order = rank_order(scores);
    let ghost items_view = items@;
    let out = take_in_order(items, &order);
    assert(permuted(items_view, order@, out@));
    out
}

/// The scores of a list of evidence.
pub open spec fn evidence_scores(items: Seq<Evidence>) -> Seq<F32Bits> {
    items.map_values(|e: Evidence| e.score)
}

/// The scores of a list of evidence, in order.
pub fn scores_of(items: &Vec<Evidence>) -> (s: Vec<F32Bits>)
    ensures
        s@ == evidence_scores(items@),
{
    let mut s: Vec<F32Bits> = Vec::new();
    let mut i: usize = 0;
    while i < items.len()
        invariant
            i <= items@.len(),
            s@ == evidence_scores(items@.take(i as int)),
        decreases items@.len() - i,
    {
        s.push(items[i].score);
        assert(evidence_scores(items@.take(i + 1)) =~= evidence_scores(items@.take(i as int)).push(
            items@[i as int].score,
        ));
        i = i + 1;
    }
    assert(items@.take(items@.len() as int) =~= items@);
    s
}

/// Sorts evidence stably by descending score.
pub fn sort_evidence_by_score(items: Vec<Evidence>) -> (out: Vec<Evidence>)
    ensures
        sorted_by_score(items@, evidence_scores(items@), out@),
{
    let scores = scores_of(&items);
    sort_by_scores(items, scores.as_slice())
}

/// Keeps the evidence scoring at least `min_score` (in order), sorts it stably by
/// descending score and keeps the first `limit`.
pub fn select_top(docs: Vec<Evidence>, min_score: F32Bits, limit: usize) -> (out: Vec<Evidence>)
    ensures
        exists|kept: Seq<Evidence>, sorted: Seq<Evidence>|
            #[trigger] kept_at_least(docs@, min_score, kept) && #[trigger] sorted_by_score(
                kept,
                evidence_scores(kept),
                sorted,
            ) && out@ == sorted.take(if limit < sorted.len() {
                limit as int
            } else {
                sorted.len() as int
            }),
        exists|sorted: Seq<Evidence>|
            #[trigger] sorted_by_score(
                scoring_at_least(docs@, min_score),
                evidence_scores(scoring_at_least(docs@, min_score)),
                sorted,
            ) && out@ == sorted.take(if limit < sorted.len() {
                limit as int
            } else {
                sorted.len() as int
            }),
{
    let mut kept: Vec<Evidence> = Vec::new();
    let mut docs = docs;
    let ghost original = docs@;
    let mut rev: Vec<Evidence> = Vec::new();
    while docs.len() > 0
        invariant
            docs@ == original.take(docs@.len() as int),
            rev@.len() + docs@.len() == original.len(),
            forall|j: int| 0 <= j < rev@.len() ==> #[trigger] rev@[j] == original[original.len() - 1 - j],
        decreases docs@.len(),
    {
        let x = docs.pop().unwrap();
        rev.push(x);
        assert(docs@ =~= original.take(docs@.len() as int));
    }
    let ghost mut consumed: int = 0;
    while rev.len() > 0
        invariant
            rev@.len() + consumed == original.len(),
            0 <= consumed <= original.len(),
            forall|j: int| 0 <= j < rev@.len() ==> #[trigger] rev@[j] == original[original.len() - 1 - j],
            kept_at_least(original.take(consumed), min_score, kept@),
        decreases rev@.len(),
    {
        let x = rev.pop().unwrap();
        assert(x == original[consumed]);
        assert(original.take(consumed + 1).drop_last() =~= original.take(consumed));
        let ghost old_kept = kept@;
        if min_score.le(x.score) {
            kept.push(x);
            assert(kept@.drop_last() =~= old_kept);
        }
        proof {
            consumed = consumed + 1;
        }
    }
    assert(original.take(consumed) =~= original);
    let ghost kept_view = kept@;
    let mut sorted = sort_evidence_by_score(kept);
    let ghost sorted_view = sorted@;
    if limit < sorted.len() {
        sorted.truncate(limit);
    }
    assert(sorted@ =~= sorted_view.take(if limit < sorted_view.len() {
        limit as int
    } else {
        sorted_view.len() as int
    }));
    assert(kept_at_least(original, min_score, kept_view));
    proof {
        lemma_kept_is_filter(original, min_score, kept_view);
        assert(sorted_by_score(scoring_at_least(original, min_score), evidence_scores(scoring_at_least(original, min_score)), sorted_view));
    }
    sorted
}

/// The documents scoring at least `min_score`, in their order.
pub open spec fn scoring_at_least(docs: Seq<Evidence>, min_score: F32Bits) -> Seq<Evidence> {
    docs.filter(|d: Evidence| spec_f32_le(min_score.0, d.score.0))
}

/// `kept` is the evidence of `docs` whose score is at least `min_score`, in order.
pub open spec fn kept_at_least(docs: Seq<Evidence>, min_score: F32Bits, kept: Seq<Evidence>) -> bool
    decreases docs.len(),
{
    if docs.len() == 0 {
        kept.len() == 0
    } else if spec_f32_le(min_score.0, docs.last().score.0) {
        kept.len() > 0 && kept.last() == docs.last() && kept_at_least(
            docs.drop_last(),
            min_score,
            kept.drop_last(),
        )
    } else {
        kept_at_least(docs.drop_last(), min_score, kept)
    }
}

/// The minimum-score filter is pointwise: what it keeps of the documents is
/// exactly, and in order, those scoring at least `min_score`, whatever the other
/// documents score.  So a document that scores enough is always kept, none that
/// scores too little is, and filtering two lists one after the other keeps what
/// filtering each keeps.
pub proof fn lemma_kept_is_filter(docs: Seq<Evidence>, min_score: F32Bits, kept: Seq<Evidence>)
    requires
        kept_at_least(docs, min_score, kept),
    ensures
        kept == scoring_at_least(docs, min_score),
        forall|i: int|
            0 <= i < docs.len() && spec_f32_le(min_score.0, docs[i].score.0) ==> #[trigger] kept.contains(
                docs[i],
            ),
        forall|i: int| 0 <= i < kept.len() ==> spec_f32_le(min_score.0, (#[trigger] kept[i]).score.0),
    decreases docs.len(),
{
    let pred = |d: Evidence| spec_f32_le(min_score.0, d.score.0);
    assert(scoring_at_least(docs, min_score) == docs.filter(pred));
    reveal(Seq::filter);
    if docs.len() == 0 {
        assert(kept =~= docs.filter(pred));
    } else if spec_f32_le(min_score.0, docs.last().score.0) {
        lemma_kept_is_filter(docs.drop_last(), min_score, kept.drop_last());
        assert(kept =~= kept.drop_last().push(kept.last()));
    } else {
        lemma_kept_is_filter(docs.drop_last(), min_score, kept);
    }
    broadcast use Seq::lemma_filter_contains, Seq::lemma_filter_pred;
    assert forall|i: int|
        0 <= i < docs.len() && spec_f32_le(min_score.0, docs[i].score.0) implies #[trigger] kept.contains(
        docs[i],
    ) by {
        docs.lemma_filter_contains(pred, i);
    }
    assert forall|i: int| 0 <= i < kept.len() implies spec_f32_le(min_score.0, (#[trigger] kept[i]).score.0) by {
        docs.lemma_filter_pred(pred, i);
    }
}

/// Filtering a concatenation keeps what filtering each part keeps, in order.
pub proof fn lemma_kept_concat(d1: Seq<Evidence>, d2: Seq<Evidence>, min_score: F32Bits, k1: Seq<Evidence>, k2: Seq<Evidence>)
    requires
        kept_at_least(d1, min_score, k1),
        kept_at_least(d2, min_score, k2),
    ensures
        kept_at_least(d1 + d2, min_score, k1 + k2),
    decreases d2.len(),
{
    if d2.len() == 0 {
        assert(d1 + d2 =~= d1);
        assert(k1 + k2 =~= k1);
    } else {
        assert((d1 + d2).drop_last() =~= d1 + d2.drop_last());
        assert((d1 + d2).last() == d2.last());
        if spec_f32_le(min_score.0, d2.last().score.0) {
            lemma_kept_concat(d1, d2.drop_last(), min_score, k1, k2.drop_last());
            assert((k1 + k2).drop_last() =~= k1 + k2.drop_last());
            assert((k1 + k2).last() == k2.last());
        } else {
            lemma_kept_concat(d1, d2.drop_last(), min_score, k1, k2);
        }
    }
}

} // verus!
