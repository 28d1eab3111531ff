//! Mapping raw retrieval scores to calibrated confidences.
use vstd::prelude::*;

use crate::error::SielError;
use crate::float_bits::{spec_clamp01, spec_f32_le, spec_f32_lt, F32Bits, F32_ONE, F32_ZERO};

verus! {

/// How raw scores become confidences.
#[derive(Clone, Debug)]
pub enum Calibrator {
    /// The raw score, clamped to `[0, 1]`.
    Fixed,
    /// A step function learnt by isotonic regression.
    Isotonic(IsotonicCalibrator),
}

/// A step function: `y_probabilities[i]` applies from `x_thresholds[i]` on.
/// Both vectors hold `f32` bit patterns.
#[derive(Clone, Debug)]
pub struct IsotonicCalibrator {
    pub version: u32,
    pub x_thresholds: Vec<F32Bits>,
    pub y_probabilities: Vec<F32Bits>,
}

/// The two vectors are aligned and non-empty, no threshold is (IEEE) greater than
/// its successor, and every probability lies in `[0, 1]`.
pub open spec fn isotonic_valid(x: Seq<F32Bits>, y: Seq<F32Bits>) -> bool {
    &&& x.len() > 0
    &&& x.len() == y.len()
    &&& forall|i: int| 0 < i < x.len() ==> !spec_f32_lt(#[trigger] x[i].0, x[i - 1].0)
    &&& forall|i: int|
        0 <= i < y.len() ==> spec_f32_le(F32_ZERO, #[trigger] y[i].0) && spec_f32_le(
            y[i].0,
            F32_ONE,
        )
}

/// The thresholds are sorted by `f32::total_cmp`.
pub open spec fn keys_sorted(x: Seq<F32Bits>) -> bool {
    forall|i: int, j: int| 0 <= i <= j < x.len() ==> #[trigger] x[i].key() <= #[trigger] x[j].key()
}

/// How many thresholds come before `k` in the total order.
pub open spec fn count_below(x: Seq<F32Bits>, k: int) -> nat
    decreases x.len(),
{
    if x.len() == 0 {
        0
    } else {
        count_below(x.drop_last(), k) + if x.last().key() < k {
            1nat
        } else {
            0nat
        }
    }
}

/// The step that a raw score falls on, for thresholds sorted in the total order:
/// the first threshold equal to the score if there is one, else the last one
/// below it, else the first step.
pub open spec fn isotonic_index(x: Seq<F32Bits>, k: int) -> int {
    let n = count_below(x, k) as int;
    if n < x.len() && x[n].key() == k {
        n
    } else if n == 0 {
        0
    } else {
        n - 1
    }
}

/// Where the binary search for `k` over `x` ends, from the range `[lo, hi)`: it
/// halves the range, keeping the upper half when the middle threshold is below
/// `k` in the total order.
pub open spec fn search_end(x: Seq<F32Bits>, k: int, lo: int, hi: int) -> int
    decreases hi - lo,
{
    if lo < hi {
        let mid = lo + (hi - lo) / 2;
        if x[mid].key() < k {
            search_end(x, k, mid + 1, hi)
        } else {
            search_end(x, k, lo, mid)
        }
    } else {
        lo
    }
}

/// The step that the calibrator's binary search picks for a score with total
/// order key `k`: the threshold where the search ends if it equals the score,
/// else the one before it, else the first step.  For thresholds sorted in the
/// total order this is `isotonic_index` (`lemma_pick_is_index`).
pub open spec fn isotonic_pick(x: Seq<F32Bits>, k: int) -> int {
    let n = search_end(x, k, 0, x.len() as int);
    if n < x.len() && x[n].key() == k {
        n
    } else if n == 0 {
        0
    } else {
        n - 1
    }
}

/// `out` is what the calibrator gives for `raw`: the clamped raw score when
/// fixed; when isotonic, the clamped probability of the step its search picks.
pub open spec fn calibrated_value(c: Calibrator, raw: F32Bits, out: F32Bits) -> bool {
    match c {
        Calibrator::Fixed => out.0 == spec_clamp01(raw.0),
        Calibrator::Isotonic(m) => isotonic_step(m, raw, out, true),
    }
}

/// `out` is (clamped, when `clamp` holds) the probability of the step that
/// `isotonic_pick` names for `raw`.
pub open spec fn isotonic_step(m: IsotonicCalibrator, raw: F32Bits, out: F32Bits, clamp: bool) -> bool {
    let idx = isotonic_pick(m.x_thresholds@, raw.key());
    out.0 == if clamp {
        spec_clamp01(m.y_probabilities@[idx].0)
    } else {
        m.y_probabilities@[idx].0
    }
}

/// The search ends between `lo` and `hi`; when every threshold before `lo` is
/// below `k` and every one from `hi` on is not, it ends at the first threshold
/// that is not below `k`.
proof fn lemma_search_end(x: Seq<F32Bits>, k: int, lo: int, hi: int)
    requires
        0 <= lo <= hi <= x.len(),
    ensures
        lo <= search_end(x, k, lo, hi) <= hi,
        keys_sorted(x) && (forall|i: int| 0 <= i < lo ==> #[trigger] x[i].key() < k) && (forall|i: int|
            hi <= i < x.len() ==> #[trigger] x[i].key() >= k) ==> count_below(x, k) == search_end(
            x,
            k,
            lo,
            hi,
        ),
    decreases hi - lo,
{
    if lo < hi {
        let mid = lo + (hi - lo) / 2;
        if x[mid].key() < k {
            lemma_search_end(x, k, mid + 1, hi);
            if keys_sorted(x) && (forall|i: int| 0 <= i < lo ==> #[trigger] x[i].key() < k) && (forall|i: int|
                hi <= i < x.len() ==> #[trigger] x[i].key() >= k) {
                assert forall|i: int| 0 <= i < mid + 1 implies #[trigger] x[i].key() < k by {
                    assert(x[i].key() <= x[mid].key());
                }
            }
        } else {
            lemma_search_end(x, k, lo, mid);
            if keys_sorted(x) && (forall|i: int| 0 <= i < lo ==> #[trigger] x[i].key() < k) && (forall|i: int|
                hi <= i < x.len() ==> #[trigger] x[i].key() >= k) {
                assert forall|i: int| mid <= i < x.len() implies #[trigger] x[i].key() >= k by {
                    assert(x[mid].key() <= x[i].key());
                }
            }
        }
    } else {
        if keys_sorted(x) && (forall|i: int| 0 <= i < lo ==> #[trigger] x[i].key() < k) && (forall|i: int|
            hi <= i < x.len() ==> #[trigger] x[i].key() >= k) {
            lemma_count_below(x, k, lo);
        }
    }
}

/// The picked step lies in range, and for thresholds sorted in the total order
/// it is `isotonic_index`.
pub proof fn lemma_pick_is_index(x: Seq<F32Bits>, k: int)
    requires
        x.len() > 0,
    ensures
        0 <= isotonic_pick(x, k) < x.len(),
        keys_sorted(x) ==> isotonic_pick(x, k) == isotonic_index(x, k),
{
    lemma_search_end(x, k, 0, x.len() as int);
}

/// Calibration is a function of the score: two results calibrated from the same
/// score by the same calibrator are the same.
pub proof fn lemma_calibration_deterministic(c: Calibrator, raw: F32Bits, a: F32Bits, b: F32Bits)
    requires
        calibrated_value(c, raw, a),
        calibrated_value(c, raw, b),
    ensures
        a == b,
{
}

/// The message with which `validate` refuses a calibrator, checked in order:
/// alignment, then the order of the thresholds, then the probabilities' range.
pub open spec fn isotonic_error(x: Seq<F32Bits>, y: Seq<F32Bits>) -> Seq<char> {
    if x.len() == 0 || x.len() != y.len() {
        "isotonic calibrator requires aligned non-empty arrays"@
    } else if exists|i: int| 0 < i < x.len() && spec_f32_lt(#[trigger] x[i].0, x[i - 1].0) {
        "isotonic x_thresholds must be sorted ascending"@
    } else {
        "isotonic probabilities must be in [0, 1]"@
    }
}

proof fn lemma_count_below(x: Seq<F32Bits>, k: int, n: int)
    requires
        0 <= n <= x.len(),
        forall|i: int| 0 <= i < n ==> #[trigger] x[i].key() < k,
        forall|i: int| n <= i < x.len() ==> #[trigger] x[i].key() >= k,
    ensures
        count_below(x, k) == n,
    decreases x.len(),
{
    if x.len() > 0 {
        let d = x.drop_last();
        if n == x.len() {
            assert(x[n - 1].key() < k);
            assert forall|i: int| 0 <= i < n - 1 implies #[trigger] d[i].key() < k by {
                assert(d[i] == x[i]);
            }
            lemma_count_below(d, k, n - 1);
        } else {
            assert(x[x.len() - 1].key() >= k);
            assert forall|i: int| 0 <= i < n implies #[trigger] d[i].key() < k by {
                assert(d[i] == x[i]);
            }
            assert forall|i: int| n <= i < d.len() implies #[trigger] d[i].key() >= k by {
                assert(d[i] == x[i]);
            }
            lemma_count_below(d, k, n);
        }
    }
}

/// For thresholds sorted in the total order, the thresholds before
/// `count_below(x, k)` are below `k` and the others are not.
proof fn lemma_count_below_partition(x: Seq<F32Bits>, k: int)
    requires
        keys_sorted(x),
    ensures
        count_below(x, k) <= x.len(),
        forall|i: int| 0 <= i < count_below(x, k) ==> #[trigger] x[i].key() < k,
        forall|i: int| count_below(x, k) <= i < x.len() ==> #[trigger] x[i].key() >= k,
    decreases x.len(),
{
    if x.len() > 0 {
        let d = x.drop_last();
        let n = x.len() - 1;
        assert forall|i: int, j: int| 0 <= i <= j < d.len() implies #[trigger] d[i].key()
            <= #[trigger] d[j].key() by {
            assert(x[i].key() <= x[j].key());
        }
        lemma_count_below_partition(d, k);
        let c = count_below(d, k);
        if x.last().key() < k {
            if c < d.len() {
                assert(d[c as int].key() >= k);
                assert(x[c as int].key() <= x[n].key());
            }
            assert forall|i: int| 0 <= i < count_below(x, k) implies #[trigger] x[i].key() < k by {
                if i < n {
                    assert(d[i] == x[i]);
                }
            }
        } else {
            assert forall|i: int| 0 <= i < count_below(x, k) implies #[trigger] x[i].key() < k by {
                assert(d[i] == x[i]);
            }
            assert forall|i: int| count_below(x, k) <= i < x.len() implies #[trigger] x[i].key() >= k by {
                if i < n {
                    assert(d[i] == x[i]);
                }
            }
        }
    }
}

/// The step that `isotonic_index` names lies in range, and a score no lower in
/// the total order never names an earlier step.
proof fn lemma_isotonic_index_monotone(x: Seq<F32Bits>, k1: int, k2: int)
    requires
        x.len() > 0,
        keys_sorted(x),
        k1 <= k2,
    ensures
        0 <= isotonic_index(x, k1) <= isotonic_index(x, k2) < x.len(),
{
    lemma_count_below_partition(x, k1);
    lemma_count_below_partition(x, k2);
    let n1 = count_below(x, k1) as int;
    let n2 = count_below(x, k2) as int;
    if n2 < n1 {
        assert(x[n2].key() < k1);
    }
    if n1 == n2 && n1 < x.len() && x[n1].key() == k1 && k1 < k2 {
        assert(x[n1].key() >= k2);
    }
}

/// For thresholds strictly increasing in the total order, the step for a score
/// is the last threshold not above the score, or the first step when every
/// threshold is above it.
pub proof fn lemma_isotonic_index_last_at_most(x: Seq<F32Bits>, k: int)
    requires
        x.len() > 0,
        forall|i: int, j: int| 0 <= i < j < x.len() ==> #[trigger] x[i].key() < #[trigger] x[j].key(),
    ensures
        k < x[0].key() ==> isotonic_index(x, k) == 0,
        x[0].key() <= k ==> x[isotonic_index(x, k)].key() <= k && forall|j: int|
            isotonic_index(x, k) < j < x.len() ==> k < #[trigger] x[j].key(),
{
    assert forall|i: int, j: int| 0 <= i <= j < x.len() implies #[trigger] x[i].key() <= #[trigger] x[j].key() by {
        if i < j {
            assert(x[i].key() < x[j].key());
        }
    }
    lemma_count_below_partition(x, k);
    let n = count_below(x, k) as int;
    if n > 0 && k < x[0].key() {
        assert(x[0].key() < k);
    }
    if x[0].key() <= k {
        if n < x.len() && x[n].key() == k {
            assert forall|j: int| n < j < x.len() implies k < #[trigger] x[j].key() by {
                assert(x[n].key() < x[j].key());
            }
        } else {
            if n == 0 {
                assert(x[0].key() >= k);
            }
            assert forall|j: int| n - 1 < j < x.len() implies k < #[trigger] x[j].key() by {
                if j > n {
                    assert(x[n].key() < x[j].key());
                }
            }
        }
    }
}

/// A calibrator whose probabilities never decrease is monotone: for thresholds
/// sorted in the total order, a raw score no lower in that order never gets a
/// lower probability.
pub proof fn lemma_isotonic_monotone(m: IsotonicCalibrator, r1: F32Bits, r2: F32Bits, p1: F32Bits, p2: F32Bits)
    requires
        isotonic_valid(m.x_thresholds@, m.y_probabilities@),
        keys_sorted(m.x_thresholds@),
        forall|i: int, j: int|
            0 <= i <= j < m.y_probabilities@.len() ==> spec_f32_le(
                #[trigger] m.y_probabilities@[i].0,
                #[trigger] m.y_probabilities@[j].0,
            ),
        r1.key() <= r2.key(),
        isotonic_step(m, r1, p1, false),
        isotonic_step(m, r2, p2, false),
    ensures
        spec_f32_le(p1.0, p2.0),
{
    let x = m.x_thresholds@;
    lemma_pick_is_index(x, r1.key());
    lemma_pick_is_index(x, r2.key());
    lemma_isotonic_index_monotone(x, r1.key(), r2.key());
    let i1 = isotonic_index(x, r1.key());
    let i2 = isotonic_index(x, r2.key());
    assert(p1.0 == m.y_probabilities@[i1].0);
    assert(p2.0 == m.y_probabilities@[i2].0);
    assert(spec_f32_le(m.y_probabilities@[i1].0, m.y_probabilities@[i2].0));
}

impl IsotonicCalibrator {
    /// Accepts exactly the calibrators that `isotonic_valid` describes.
    pub fn validate(&self) -> (r: Result<(), SielError>)
        ensures
            r is Ok <==> isotonic_valid(self.x_thresholds@, self.y_probabilities@),
            r matches Err(e) ==> (e matches SielError::InvalidInput(m) && m@ == isotonic_error(
                self.x_thresholds@,
                self.y_probabilities@,
            )),
    {
        let x = &self.x_thresholds;
        let y = &self.y_probabilities;
        if x.len() == 0 || x.len() != y.len() {
            return Err(
                SielError::InvalidInput(
                    "isotonic calibrator requires aligned non-empty arrays".to_string(),
                ),
            );
        }
        let mut i: usize = 1;
        while i < x.len()
            invariant
                1 <= i <= x@.len(),
                x@ == self.x_thresholds@,
                x@.len() == self.y_probabilities@.len(),
                forall|j: int| 0 < j < i ==> !spec_f32_lt(#[trigger] x@[j].0, x@[j - 1].0),
            decreases x@.len() - i,
        {
            if x[i].lt(x[i - 1]) {
                assert(spec_f32_lt(self.x_thresholds@[i as int].0, self.x_thresholds@[i - 1].0));
                return Err(
                    SielError::InvalidInput("isotonic x_thresholds must be sorted ascending".to_string()),
                );
            }
            i = i + 1;
        }
        let mut j: usize = 0;
        while j < y.len()
            invariant
                j <= y@.len(),
                x@ == self.x_thresholds@,
                y@ == self.y_probabilities@,
                x@.len() > 0,
                x@.len() == y@.len(),
                forall|t: int| 0 < t < x@.len() ==> !spec_f32_lt(#[trigger] x@[t].0, x@[t - 1].0),
                forall|t: int|
                    0 <= t < j ==> spec_f32_le(F32_ZERO, #[trigger] y@[t].0) && spec_f32_le(
                        y@[t].0,
                        F32_ONE,
                    ),
            decreases y@.len() - j,
        {
            if !(F32Bits(F32_ZERO).le(y[j]) && y[j].le(F32Bits(F32_ONE))) {
                assert(!(spec_f32_le(F32_ZERO, y@[j as int].0) && spec_f32_le(y@[j as int].0, F32_ONE)));
                return Err(
                    SielError::InvalidInput("isotonic probabilities must be in [0, 1]".to_string()),
                );
            }
            j = j + 1;
        }
        Ok(())
    }

    /// The probability of the step that `raw_score` falls on (found by binary
    /// search in the total order); fails as `validate` does.
    pub fn predict(&self, raw_score: F32Bits) -> (r: Result<F32Bits, SielError>)
        ensures
            r is Ok <==> isotonic_valid(self.x_thresholds@, self.y_probabilities@),
            r matches Err(e) ==> (e matches SielError::InvalidInput(m) && m@ == isotonic_error(
                self.x_thresholds@,
                self.y_probabilities@,
            )),
            r matches Ok(p) ==> isotonic_step(*self, raw_score, p, false),
    {
        self.validate()?;
        let x = &self.x_thresholds;
        let len = x.len();
        let mut lo: usize = 0;
        let mut hi: usize = len;
        while lo < hi
            invariant
                0 <= lo <= hi <= len,
                len == x@.len(),
                x@ == self.x_thresholds@,
                search_end(x@, raw_score.key(), lo as int, hi as int) == search_end(
                    x@,
                    raw_score.key(),
                    0,
                    len as int,
                ),
            decreases hi - lo,
        {
            let mid = lo + (hi - lo) / 2;
            if x[mid].total_lt(raw_score) {
                lo = mid + 1;
            } else {
                hi = mid;
            }
        }
        let idx = if lo < len && !x[lo].total_lt(raw_score) && !raw_score.total_lt(x[lo]) {
            lo
        } else if lo == 0 {
            0
        } else {
            lo - 1
        };
        proof {
            lemma_pick_is_index(x@, raw_score.key());
        }
        Ok(self.y_probabilities[idx])
    }
}

impl Calibrator {
    /// The calibrated confidence of a raw score, clamped to `[0, 1]`, and whether
    /// a learnt calibration produced it.  Fails only on an invalid isotonic model.
    pub fn predict(&self, raw_score: F32Bits) -> (r: Result<(F32Bits, bool), SielError>)
        ensures
            r is Err <==> (self matches Calibrator::Isotonic(m) && !isotonic_valid(
                m.x_thresholds@,
                m.y_probabilities@,
            )),
            r matches Err(e) ==> (self matches Calibrator::Isotonic(m) && e matches SielError::InvalidInput(
                t,
            ) && t@ == isotonic_error(m.x_thresholds@, m.y_probabilities@)),
            r matches Ok((v, calibrated)) ==> calibrated == (self is Isotonic) && calibrated_value(
                *self,
                raw_score,
                v,
            ),
    {
        match self {
            Calibrator::Fixed => Ok((raw_score.clamp01(), false)),
            Calibrator::Isotonic(model) => {
                let p = model.predict(raw_score)?;
                Ok((p.clamp01(), true))
            },
        }
    }
}

/// The thresholds that turn a confidence into a status, and the calibrator that
/// produces the confidence.  Thresholds hold `f32` bit patterns.
#[derive(Clone, Debug)]
pub struct ConfidenceProfile {
    pub profile_id: String,
    pub threshold_high: F32Bits,
    pub threshold_low: F32Bits,
    pub calibrator: Calibrator,
}

/// `0.82`
pub const DEFAULT_THRESHOLD_HIGH: u32 = 0x3f51_eb85;

/// `0.62`
pub const DEFAULT_THRESHOLD_LOW: u32 = 0x3f1e_b852;

impl Default for ConfidenceProfile {
    /// The `default` profile: answer from `0.82`, ask for clarification from
    /// `0.62`, raw scores used as they are.
    fn default() -> (p: ConfidenceProfile)
        ensures
            p.profile_id@ == "default"@,
            p.threshold_high == F32Bits(DEFAULT_THRESHOLD_HIGH),
            p.threshold_low == F32Bits(DEFAULT_THRESHOLD_LOW),
            p.calibrator is Fixed,
    {
        ConfidenceProfile {
            profile_id: "default".to_string(),
            threshold_high: F32Bits(DEFAULT_THRESHOLD_HIGH),
            threshold_low: F32Bits(DEFAULT_THRESHOLD_LOW),
            calibrator: Calibrator::Fixed,
        }
    }
}

} // verus!
