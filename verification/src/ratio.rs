//! Scoring a trial against a baseline.
//!
//! A score is the sum, over the documents of the corpus, of the candidate's
//! gain on each document relative to the baseline, every document weighing
//! the same whatever its size. Scores are whole numbers of billionths, and
//! each document's share is rounded down to one.

use vstd::prelude::*;
use vstd::arithmetic::div_mod::{
    lemma_div_is_ordered,
    lemma_div_is_ordered_by_denominator,
    lemma_div_of0,
    lemma_fundamental_div_mod,
    lemma_fundamental_div_mod_converse,
    lemma_mod_bound,
    lemma_mod_pos_bound,
};

use crate::metric::PerDocumentMetric;

verus! {

/// The score that stands for a ratio of one: scores count billionths.
pub const RATIO_UNIT: u64 = 1_000_000_000;

/// The share of one document in a score: `(baseline - candidate) / (baseline
/// * count)`, in billionths, rounded down.
pub open spec fn gain(baseline: int, candidate: int, count: int) -> int
    recommends
        baseline > 0,
        count > 0,
{
    ((baseline - candidate) * (RATIO_UNIT as int)) / (baseline * count)
}

/// The sum of the shares of the first `upto` documents, each taken over the
/// whole length of `baseline`.
pub open spec fn gain_sum(baseline: Seq<int>, candidate: Seq<int>, upto: int) -> int
    decreases upto,
{
    if upto <= 0 {
        0
    } else {
        gain_sum(baseline, candidate, upto - 1) + gain(
            baseline[upto - 1],
            candidate[upto - 1],
            baseline.len() as int,
        )
    }
}

/// The compressed sizes of `metrics`, in corpus order.
pub open spec fn sizes(metrics: Seq<PerDocumentMetric>) -> Seq<int> {
    Seq::new(metrics.len(), |i: int| metrics[i].size_bytes as int)
}

/// The averaged latencies of `metrics`, in corpus order.
pub open spec fn latencies(metrics: Seq<PerDocumentMetric>) -> Seq<int> {
    Seq::new(metrics.len(), |i: int| metrics[i].latency_picos as int)
}

/// The comparative compression ratio of `candidate` against `baseline`, in
/// billionths: positive where the candidate's output is smaller.
pub open spec fn compression_ratio(
    baseline: Seq<PerDocumentMetric>,
    candidate: Seq<PerDocumentMetric>,
) -> int {
    gain_sum(sizes(baseline), sizes(candidate), baseline.len() as int)
}

/// The comparative time ratio of `candidate` against `baseline`, in
/// billionths: positive where the candidate is faster.
pub open spec fn time_ratio(
    baseline: Seq<PerDocumentMetric>,
    candidate: Seq<PerDocumentMetric>,
) -> int {
    gain_sum(latencies(baseline), latencies(candidate), baseline.len() as int)
}

/// Whether every size and every latency in `metrics` is above zero.
pub open spec fn all_positive(metrics: Seq<PerDocumentMetric>) -> bool {
    forall|i: int|
        0 <= i < metrics.len() ==> (#[trigger] metrics[i]).size_bytes > 0
            && metrics[i].latency_picos > 0
}

/// The two scores of one candidate pipeline, in billionths. Zero is parity
/// with the baseline, a negative score a regression. Nothing is clamped.
#[derive(Clone, Copy, Debug, PartialEq, Eq, Structural)]
pub struct ComparativeScore {
    /// Comparative compression ratio.
    pub ccr: i128,
    /// Comparative time ratio.
    pub ctr: i128,
}

/// Per-document measurements of the reference pipeline, in corpus order.
/// Every size and latency in it is above zero, so that each can divide.
pub struct BaselineMeasurement {
    entries: Vec<PerDocumentMetric>,
}

impl View for BaselineMeasurement {
    type V = Seq<PerDocumentMetric>;

    closed spec fn view(&self) -> Seq<PerDocumentMetric> {
        self.entries@
    }
}

/// The measurements of the reference pipeline on the reference corpus.
pub open spec fn reference_table() -> Seq<PerDocumentMetric> {
    seq![
        PerDocumentMetric { size_bytes: 111_546, latency_picos: 10_283_465_800 },
        PerDocumentMetric { size_bytes: 530_866, latency_picos: 41_414_627_400 },
        PerDocumentMetric { size_bytes: 1_033_512, latency_picos: 76_974_744_200 },
        PerDocumentMetric { size_bytes: 1_990_903, latency_picos: 141_958_408_000 },
        PerDocumentMetric { size_bytes: 3_030_683, latency_picos: 216_099_517_400 },
        PerDocumentMetric { size_bytes: 6_138_827, latency_picos: 432_983_799_200 },
        PerDocumentMetric { size_bytes: 8_096_551, latency_picos: 564_852_807_800 },
        PerDocumentMetric { size_bytes: 10_299_053, latency_picos: 724_003_485_200 },
        PerDocumentMetric { size_bytes: 15_269_708, latency_picos: 1_073_151_699_800 },
        PerDocumentMetric { size_bytes: 20_885_667, latency_picos: 1_496_008_702_200 },
        PerDocumentMetric { size_bytes: 30_338_339, latency_picos: 2_522_441_420_400 },
    ]
}

impl BaselineMeasurement {
    #[verifier::type_invariant]
    spec fn divisible(&self) -> bool {
        all_positive(self.entries@)
    }

    /// Takes `entries` as a baseline, unless one of its sizes or latencies
    /// is zero.
    pub fn new(entries: Vec<PerDocumentMetric>) -> (baseline: Option<BaselineMeasurement>)
        ensures
            baseline is Some <==> all_positive(entries@),
            baseline matches Some(b) ==> b@ == entries@,
    {
        let mut i: usize = 0;
        while i < entries.len()
            invariant
                i <= entries.len(),
                forall|j: int|
                    0 <= j < i ==> (#[trigger] entries@[j]).size_bytes > 0
                        && entries@[j].latency_picos > 0,
            decreases entries.len() - i,
        {
            if entries[i].size_bytes == 0 || entries[i].latency_picos == 0 {
                return None;
            }
            i += 1;
        }
        Some(BaselineMeasurement { entries })
    }

    /// The fixed table for the reference corpus.
    pub fn reference() -> (baseline: BaselineMeasurement)
        ensures
            baseline@ == reference_table(),
    {
        let entries = vec![
            PerDocumentMetric { size_bytes: 111_546, latency_picos: 10_283_465_800 },
            PerDocumentMetric { size_bytes: 530_866, latency_picos: 41_414_627_400 },
            PerDocumentMetric { size_bytes: 1_033_512, latency_picos: 76_974_744_200 },
            PerDocumentMetric { size_bytes: 1_990_903, latency_picos: 141_958_408_000 },
            PerDocumentMetric { size_bytes: 3_030_683, latency_picos: 216_099_517_400 },
            PerDocumentMetric { size_bytes: 6_138_827, latency_picos: 432_983_799_200 },
            PerDocumentMetric { size_bytes: 8_096_551, latency_picos: 564_852_807_800 },
            PerDocumentMetric { size_bytes: 10_299_053, latency_picos: 724_003_485_200 },
            PerDocumentMetric { size_bytes: 15_269_708, latency_picos: 1_073_151_699_800 },
            PerDocumentMetric { size_bytes: 20_885_667, latency_picos: 1_496_008_702_200 },
            PerDocumentMetric { size_bytes: 30_338_339, latency_picos: 2_522_441_420_400 },
        ];
        assert(entries@ =~= reference_table());
        BaselineMeasurement { entries }
    }

    /// The number of documents measured.
    pub fn len(&self) -> (count: usize)
        ensures
            count == self@.len(),
    {
        self.entries.len()
    }

    /// The measurements, in corpus order.
    pub fn entries(&self) -> (entries: &Vec<PerDocumentMetric>)
        ensures
            entries@ == self@,
            all_positive(entries@),
    {
        proof {
            use_type_invariant(self);
        }
        &self.entries
    }
}

/// The largest magnitude that the share of one document among `count` can
/// have.
spec fn gain_limit(count: int) -> int {
    (u64::MAX * RATIO_UNIT) / count + 1
}

/// Rounding a quotient down moves a negative one away from zero unless the
/// division is exact.
proof fn lemma_floor_of_negative(x: int, d: int)
    requires
        x >= 0,
        d > 0,
    ensures
        (-x) / d == if x % d == 0 {
            -(x / d)
        } else {
            -(x / d) - 1
        },
{
    let q = x / d;
    let r = x % d;
    lemma_fundamental_div_mod(x, d);
    lemma_mod_pos_bound(x, d);
    if r == 0 {
        assert(-x == (-q) * d + 0) by (nonlinear_arith)
            requires
                x == d * q + r,
                r == 0,
        ;
        lemma_fundamental_div_mod_converse(-x, d, -q, 0);
    } else {
        assert(-x == (-q - 1) * d + (d - r)) by (nonlinear_arith)
            requires
                x == d * q + r,
        ;
        lemma_fundamental_div_mod_converse(-x, d, -q - 1, d - r);
    }
}

/// A quotient of a numerator within `limit` by a divisor of at least `count`
/// is within `limit / count`.
proof fn lemma_quotient_within_limit(numerator: int, divisor: int, count: int, limit: int)
    requires
        0 <= numerator <= limit,
        0 < count <= divisor,
    ensures
        0 <= numerator / divisor <= limit / count,
{
    lemma_div_is_ordered_by_denominator(numerator, count, divisor);
    lemma_div_is_ordered(numerator, limit, count);
    lemma_div_is_ordered(0, numerator, divisor);
}

/// The shares of up to `count` documents add up to a magnitude far inside
/// the range of a score.
proof fn lemma_limit_total(upto: int, count: int)
    requires
        0 <= upto <= count,
        0 < count <= u64::MAX,
    ensures
        0 <= upto * gain_limit(count) <= u64::MAX * RATIO_UNIT + u64::MAX,
{
    let whole = u64::MAX * RATIO_UNIT;
    let each = whole / count;
    lemma_fundamental_div_mod(whole, count);
    lemma_mod_pos_bound(whole, count);
    lemma_div_is_ordered(0, whole, count);
    assert(0 <= upto * (each + 1) <= whole + count) by (nonlinear_arith)
        requires
            0 <= upto <= count,
            0 <= each,
            count * each <= whole,
    ;
}

/// The share of one document in a score.
fn relative_gain(baseline: u64, candidate: u64, count: usize) -> (share: i128)
    requires
        baseline > 0,
        count > 0,
    ensures
        share == gain(baseline as int, candidate as int, count as int),
        -gain_limit(count as int) <= share <= gain_limit(count as int),
{
    let unit: u128 = RATIO_UNIT as u128;
    assert(baseline * count <= 0xffff_ffff_ffff_ffff * 0xffff_ffff_ffff_ffff) by (nonlinear_arith)
        requires
            0 <= baseline <= 0xffff_ffff_ffff_ffff,
            0 <= count <= 0xffff_ffff_ffff_ffff,
    ;
    assert(baseline * count >= count) by (nonlinear_arith)
        requires
            baseline >= 1,
            count >= 0,
    ;
    let divisor: u128 = (baseline as u128) * (count as u128);
    if candidate <= baseline {
        let numerator: u128 = ((baseline - candidate) as u128) * unit;
        proof {
            assert((baseline - candidate) * RATIO_UNIT <= u64::MAX * RATIO_UNIT)
                by (nonlinear_arith)
                requires
                    0 <= baseline - candidate <= u64::MAX,
            ;
            lemma_quotient_within_limit(
                numerator as int,
                divisor as int,
                count as int,
                u64::MAX * RATIO_UNIT,
            );
        }
        (numerator / divisor) as i128
    } else {
        let numerator: u128 = ((candidate - baseline) as u128) * unit;
        let quotient: u128 = numerator / divisor;
        let remainder: u128 = numerator % divisor;
        proof {
            assert((candidate - baseline) * RATIO_UNIT <= u64::MAX * RATIO_UNIT)
                by (nonlinear_arith)
                requires
                    0 <= candidate - baseline <= u64::MAX,
            ;
            lemma_quotient_within_limit(
                numerator as int,
                divisor as int,
                count as int,
                u64::MAX * RATIO_UNIT,
            );
            lemma_floor_of_negative(numerator as int, divisor as int);
            assert((baseline - candidate) * RATIO_UNIT == -(numerator as int)) by (nonlinear_arith)
                requires
                    numerator == (candidate - baseline) * RATIO_UNIT,
            ;
        }
        if remainder == 0 {
            -(quotient as i128)
        } else {
            -(quotient as i128) - 1
        }
    }
}

/// Scores `candidate` against `baseline`. There is a score exactly when the
/// two cover the same number of documents; document `i` of the one is then
/// held against document `i` of the other.
pub fn comparative_score(
    baseline: &BaselineMeasurement,
    candidate: &Vec<PerDocumentMetric>,
) -> (score: Option<ComparativeScore>)
    ensures
        score is Some <==> candidate@.len() == baseline@.len(),
        score matches Some(s) ==> s.ccr == compression_ratio(baseline@, candidate@) && s.ctr
            == time_ratio(baseline@, candidate@),
{
    proof {
        use_type_invariant(baseline);
    }
    let count = baseline.entries.len();
    if candidate.len() != count {
        return None;
    }
    let mut ccr: i128 = 0;
    let mut ctr: i128 = 0;
    let mut i: usize = 0;
    while i < count
        invariant
            i <= count,
            count == baseline.entries@.len(),
            count == candidate@.len(),
            all_positive(baseline.entries@),
            ccr == gain_sum(sizes(baseline.entries@), sizes(candidate@), i as int),
            ctr == gain_sum(latencies(baseline.entries@), latencies(candidate@), i as int),
            -(i * gain_limit(count as int)) <= ccr <= i * gain_limit(count as int),
            -(i * gain_limit(count as int)) <= ctr <= i * gain_limit(count as int),
        decreases count - i,
    {
        let reference = baseline.entries[i];
        let measured = candidate[i];
        let size_share = relative_gain(reference.size_bytes, measured.size_bytes, count);
        let time_share = relative_gain(reference.latency_picos, measured.latency_picos, count);
        proof {
            lemma_limit_total(i as int, count as int);
            lemma_limit_total(i + 1, count as int);
            assert((i + 1) * gain_limit(count as int) == i * gain_limit(count as int)
                + gain_limit(count as int)) by (nonlinear_arith);
        }
        ccr = ccr + size_share;
        ctr = ctr + time_share;
        i += 1;
    }
    Some(ComparativeScore { ccr, ctr })
}

/// Whether every entry of `values` is above zero.
pub open spec fn positive(values: Seq<int>) -> bool {
    forall|i: int| 0 <= i < values.len() ==> #[trigger] values[i] > 0
}

/// A common factor of numerator and divisor leaves a quotient that is
/// rounded down unchanged, whatever the sign of the numerator.
proof fn lemma_common_factor_vanishes(factor: int, x: int, d: int)
    requires
        factor > 0,
        d > 0,
    ensures
        factor * d > 0,
        (factor * x) / (factor * d) == x / d,
{
    let q = x / d;
    let r = x % d;
    lemma_fundamental_div_mod(x, d);
    lemma_mod_bound(x, d);
    assert(factor * d > 0) by (nonlinear_arith)
        requires
            factor > 0,
            d > 0,
    ;
    assert(factor * x == q * (factor * d) + factor * r && 0 <= factor * r < factor * d)
        by (nonlinear_arith)
        requires
            x == d * q + r,
            0 <= r < d,
            factor > 0,
    ;
    lemma_fundamental_div_mod_converse(factor * x, factor * d, q, factor * r);
}

/// A share is the exact quotient rounded down to a whole billionth: it
/// lies below the quotient by less than one.
pub proof fn lemma_gain_rounds_down(baseline: int, candidate: int, count: int)
    requires
        baseline > 0,
        count > 0,
    ensures
        gain(baseline, candidate, count) * (baseline * count) <= (baseline - candidate)
            * RATIO_UNIT,
        (baseline - candidate) * RATIO_UNIT < (gain(baseline, candidate, count) + 1) * (baseline
            * count),
{
    let numerator = (baseline - candidate) * (RATIO_UNIT as int);
    let divisor = baseline * count;
    assert(divisor > 0) by (nonlinear_arith)
        requires
            baseline > 0,
            count > 0,
            divisor == baseline * count,
    ;
    lemma_fundamental_div_mod(numerator, divisor);
    lemma_mod_bound(numerator, divisor);
    let share = numerator / divisor;
    assert(share * divisor == divisor * share && (share + 1) * divisor == divisor * share
        + divisor) by (nonlinear_arith);
}

/// The share of a document depends on the proportion of candidate to
/// baseline alone: a large document weighs no more than a small one.
pub proof fn lemma_gain_ignores_scale(baseline: int, candidate: int, count: int, factor: int)
    requires
        baseline > 0,
        count > 0,
        factor > 0,
    ensures
        gain(factor * baseline, factor * candidate, count) == gain(baseline, candidate, count),
{
    let unit = RATIO_UNIT as int;
    assert(baseline * count > 0) by (nonlinear_arith)
        requires
            baseline > 0,
            count > 0,
    ;
    assert((factor * baseline - factor * candidate) * unit == factor * ((baseline - candidate)
        * unit)) by (nonlinear_arith);
    assert((factor * baseline) * count == factor * (baseline * count)) by (nonlinear_arith);
    lemma_common_factor_vanishes(factor, (baseline - candidate) * unit, baseline * count);
}

/// Where baseline and candidate agree on a document, its share is zero.
pub proof fn lemma_gain_at_parity(value: int, count: int)
    requires
        value > 0,
        count > 0,
    ensures
        gain(value, value, count) == 0,
{
    assert(value * count > 0) by (nonlinear_arith)
        requires
            value > 0,
            count > 0,
    ;
    assert((value - value) * (RATIO_UNIT as int) == 0);
    lemma_div_of0(value * count);
}

/// The share of a document has the sign of the baseline less the candidate,
/// and never exceeds an equal part of one.
pub proof fn lemma_gain_range(baseline: int, candidate: int, count: int)
    requires
        baseline > 0,
        candidate >= 0,
        count > 0,
    ensures
        gain(baseline, candidate, count) <= (RATIO_UNIT as int) / count,
        candidate <= baseline ==> gain(baseline, candidate, count) >= 0,
        candidate >= baseline ==> gain(baseline, candidate, count) <= 0,
{
    let unit = RATIO_UNIT as int;
    let divisor = baseline * count;
    assert(divisor > 0) by (nonlinear_arith)
        requires
            baseline > 0,
            count > 0,
            divisor == baseline * count,
    ;
    assert((baseline - candidate) * unit <= baseline * unit) by (nonlinear_arith)
        requires
            candidate >= 0,
            unit >= 0,
    ;
    lemma_div_is_ordered((baseline - candidate) * unit, baseline * unit, divisor);
    lemma_common_factor_vanishes(baseline, unit, count);
    lemma_div_of0(divisor);
    if candidate <= baseline {
        assert((baseline - candidate) * unit >= 0) by (nonlinear_arith)
            requires
                candidate <= baseline,
                unit >= 0,
        ;
        lemma_div_is_ordered(0, (baseline - candidate) * unit, divisor);
    }
    if candidate >= baseline {
        assert((baseline - candidate) * unit <= 0) by (nonlinear_arith)
            requires
                candidate >= baseline,
                unit >= 0,
        ;
        lemma_div_is_ordered((baseline - candidate) * unit, 0, divisor);
    }
}

/// A sum of shares is zero where the candidate repeats the baseline.
proof fn lemma_gain_sum_at_parity(values: Seq<int>, upto: int)
    requires
        positive(values),
        0 <= upto <= values.len(),
    ensures
        gain_sum(values, values, upto) == 0,
    decreases upto,
{
    if upto > 0 {
        lemma_gain_sum_at_parity(values, upto - 1);
        lemma_gain_at_parity(values[upto - 1], values.len() as int);
    }
}

/// A sum of `upto` shares is at most `upto` equal parts of one.
proof fn lemma_gain_sum_upper(baseline: Seq<int>, candidate: Seq<int>, upto: int)
    requires
        positive(baseline),
        baseline.len() == candidate.len(),
        forall|i: int| 0 <= i < candidate.len() ==> #[trigger] candidate[i] >= 0,
        0 <= upto <= baseline.len(),
    ensures
        gain_sum(baseline, candidate, upto) <= upto * ((RATIO_UNIT as int) / (
        baseline.len() as int)),
    decreases upto,
{
    let part = (RATIO_UNIT as int) / (baseline.len() as int);
    if upto > 0 {
        lemma_gain_sum_upper(baseline, candidate, upto - 1);
        lemma_gain_range(baseline[upto - 1], candidate[upto - 1], baseline.len() as int);
        assert(upto * part == (upto - 1) * part + part) by (nonlinear_arith);
    } else {
        assert(upto * part == 0) by (nonlinear_arith)
            requires
                upto == 0,
        ;
    }
}

/// A sum of shares is not negative where the candidate never exceeds the
/// baseline, and not positive where it never falls below it.
proof fn lemma_gain_sum_sign(baseline: Seq<int>, candidate: Seq<int>, upto: int)
    requires
        positive(baseline),
        baseline.len() == candidate.len(),
        forall|i: int| 0 <= i < candidate.len() ==> #[trigger] candidate[i] >= 0,
        0 <= upto <= baseline.len(),
    ensures
        (forall|i: int| 0 <= i < upto ==> #[trigger] candidate[i] <= baseline[i]) ==> gain_sum(
            baseline,
            candidate,
            upto,
        ) >= 0,
        (forall|i: int| 0 <= i < upto ==> #[trigger] candidate[i] >= baseline[i]) ==> gain_sum(
            baseline,
            candidate,
            upto,
        ) <= 0,
    decreases upto,
{
    if upto > 0 {
        lemma_gain_sum_sign(baseline, candidate, upto - 1);
        lemma_gain_range(baseline[upto - 1], candidate[upto - 1], baseline.len() as int);
    }
}

/// A pipeline scored against its own measurements is at parity: both scores
/// are zero, and so is the share of every document in them.
pub proof fn lemma_parity_against_itself(metrics: Seq<PerDocumentMetric>)
    requires
        all_positive(metrics),
    ensures
        compression_ratio(metrics, metrics) == 0,
        time_ratio(metrics, metrics) == 0,
        forall|i: int|
            0 <= i < metrics.len() ==> gain(
                #[trigger] sizes(metrics)[i],
                sizes(metrics)[i],
                metrics.len() as int,
            ) == 0,
        forall|i: int|
            0 <= i < metrics.len() ==> gain(
                #[trigger] latencies(metrics)[i],
                latencies(metrics)[i],
                metrics.len() as int,
            ) == 0,
{
    lemma_gain_sum_at_parity(sizes(metrics), metrics.len() as int);
    lemma_gain_sum_at_parity(latencies(metrics), metrics.len() as int);
    assert forall|i: int| 0 <= i < metrics.len() implies gain(
        #[trigger] sizes(metrics)[i],
        sizes(metrics)[i],
        metrics.len() as int,
    ) == 0 by {
        lemma_gain_at_parity(sizes(metrics)[i], metrics.len() as int);
    }
    assert forall|i: int| 0 <= i < metrics.len() implies gain(
        #[trigger] latencies(metrics)[i],
        latencies(metrics)[i],
        metrics.len() as int,
    ) == 0 by {
        lemma_gain_at_parity(latencies(metrics)[i], metrics.len() as int);
    }
}

/// No candidate scores above one: sizes and latencies are never negative,
/// so no document gains more than the whole of its baseline.
pub proof fn lemma_scores_at_most_one(
    baseline: Seq<PerDocumentMetric>,
    candidate: Seq<PerDocumentMetric>,
)
    requires
        all_positive(baseline),
        candidate.len() == baseline.len(),
    ensures
        compression_ratio(baseline, candidate) <= RATIO_UNIT,
        time_ratio(baseline, candidate) <= RATIO_UNIT,
{
    let count = baseline.len() as int;
    let unit = RATIO_UNIT as int;
    lemma_gain_sum_upper(sizes(baseline), sizes(candidate), count);
    lemma_gain_sum_upper(latencies(baseline), latencies(candidate), count);
    if count > 0 {
        lemma_fundamental_div_mod(unit, count);
        lemma_mod_pos_bound(unit, count);
    }
}

/// A candidate that is no larger than the baseline on any document has a
/// compression ratio of zero or more, and one that is no smaller on any has
/// one of zero or less. The same holds of latencies and the time ratio.
pub proof fn lemma_score_sign(baseline: Seq<PerDocumentMetric>, candidate: Seq<PerDocumentMetric>)
    requires
        all_positive(baseline),
        candidate.len() == baseline.len(),
    ensures
        (forall|i: int|
            0 <= i < baseline.len() ==> (#[trigger] candidate[i]).size_bytes
                <= baseline[i].size_bytes) ==> compression_ratio(baseline, candidate) >= 0,
        (forall|i: int|
            0 <= i < baseline.len() ==> (#[trigger] candidate[i]).size_bytes
                >= baseline[i].size_bytes) ==> compression_ratio(baseline, candidate) <= 0,
        (forall|i: int|
            0 <= i < baseline.len() ==> (#[trigger] candidate[i]).latency_picos
                <= baseline[i].latency_picos) ==> time_ratio(baseline, candidate) >= 0,
        (forall|i: int|
            0 <= i < baseline.len() ==> (#[trigger] candidate[i]).latency_picos
                >= baseline[i].latency_picos) ==> time_ratio(baseline, candidate) <= 0,
{
    let count = baseline.len() as int;
    lemma_gain_sum_sign(sizes(baseline), sizes(candidate), count);
    lemma_gain_sum_sign(latencies(baseline), latencies(candidate), count);
    if forall|i: int|
        0 <= i < baseline.len() ==> (#[trigger] candidate[i]).size_bytes
            <= baseline[i].size_bytes {
        assert forall|i: int| 0 <= i < count implies #[trigger] sizes(candidate)[i] <= sizes(
            baseline,
        )[i] by {
            assert(candidate[i].size_bytes <= baseline[i].size_bytes);
        }
    }
    if forall|i: int|
        0 <= i < baseline.len() ==> (#[trigger] candidate[i]).size_bytes
            >= baseline[i].size_bytes {
        assert forall|i: int| 0 <= i < count implies #[trigger] sizes(candidate)[i] >= sizes(
            baseline,
        )[i] by {
            assert(candidate[i].size_bytes >= baseline[i].size_bytes);
        }
    }
    if forall|i: int|
        0 <= i < baseline.len() ==> (#[trigger] candidate[i]).latency_picos
            <= baseline[i].latency_picos {
        assert forall|i: int| 0 <= i < count implies #[trigger] latencies(candidate)[i]
            <= latencies(baseline)[i] by {
            assert(candidate[i].latency_picos <= baseline[i].latency_picos);
        }
    }
    if forall|i: int|
        0 <= i < baseline.len() ==> (#[trigger] candidate[i]).latency_picos
            >= baseline[i].latency_picos {
        assert forall|i: int| 0 <= i < count implies #[trigger] latencies(candidate)[i]
            >= latencies(baseline)[i] by {
            assert(candidate[i].latency_picos >= baseline[i].latency_picos);
        }
    }
}

} // verus!
