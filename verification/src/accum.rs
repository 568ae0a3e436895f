use vstd::arithmetic::div_mod::*;
use vstd::arithmetic::mul::*;
use vstd::prelude::*;

use crate::VALUE_LIMIT;

verus! {

/// Mathematical model of a per-entity running aggregate: the minimum,
/// maximum, sum and number of the values folded into it so far.
pub ghost struct AccModel {
    pub min: int,
    pub max: int,
    pub total: int,
    pub count: int,
}

/// A value representable as a measurement: a bounded count of tenths.
pub open spec fn value_ok(v: int) -> bool {
    -(VALUE_LIMIT as int) <= v <= VALUE_LIMIT as int
}

/// A model accumulator seeded with a single value.
pub open spec fn acc_new(v: int) -> AccModel {
    AccModel { min: v, max: v, total: v, count: 1 }
}

/// A model accumulator after folding in one more value.
pub open spec fn acc_add(a: AccModel, v: int) -> AccModel {
    AccModel {
        min: if v < a.min { v } else { a.min },
        max: if v > a.max { v } else { a.max },
        total: a.total + v,
        count: a.count + 1,
    }
}

/// The merge algebra: min of mins, max of maxes, sums of sums and counts.
pub open spec fn acc_merge(a: AccModel, b: AccModel) -> AccModel {
    AccModel {
        min: if a.min < b.min { a.min } else { b.min },
        max: if a.max > b.max { a.max } else { b.max },
        total: a.total + b.total,
        count: a.count + b.count,
    }
}

/// Well-formedness of an aggregate: at least one observation, extremes
/// within the representable value range, and the total bracketed between
/// `count * min` and `count * max` (the integer form of `min <= mean <= max`).
pub open spec fn acc_wf(a: AccModel) -> bool {
    &&& 1 <= a.count
    &&& value_ok(a.min)
    &&& value_ok(a.max)
    &&& a.min <= a.max
    &&& a.count * a.min <= a.total
    &&& a.total <= a.count * a.max
}

/// The mean of an aggregate, in tenths, rounded to the nearest integer
/// with ties away from zero.  This is the value rendered at format time;
/// it is never stored.
pub open spec fn mean_of(a: AccModel) -> int
    recommends
        1 <= a.count,
{
    if a.total >= 0 {
        (2 * a.total + a.count) / (2 * a.count)
    } else {
        -((2 * (-a.total) + a.count) / (2 * a.count))
    }
}

/// Seeding establishes well-formedness.
pub proof fn lemma_acc_new_wf(v: int)
    requires
        value_ok(v),
    ensures
        acc_wf(acc_new(v)),
{
}

/// Folding in a representable value preserves well-formedness.
pub proof fn lemma_acc_add_wf(a: AccModel, v: int)
    requires
        acc_wf(a),
        value_ok(v),
    ensures
        acc_wf(acc_add(a, v)),
{
    let r = acc_add(a, v);
    assert(r.count * r.min <= r.total && r.total <= r.count * r.max) by (nonlinear_arith)
        requires
            r == acc_add(a, v),
            acc_wf(a),
            value_ok(v),
    ;
}

/// Merging two well-formed aggregates yields a well-formed aggregate.
pub proof fn lemma_acc_merge_wf(a: AccModel, b: AccModel)
    requires
        acc_wf(a),
        acc_wf(b),
    ensures
        acc_wf(acc_merge(a, b)),
{
    let r = acc_merge(a, b);
    assert(r.count * r.min <= r.total && r.total <= r.count * r.max) by (nonlinear_arith)
        requires
            r == acc_merge(a, b),
            acc_wf(a),
            acc_wf(b),
    ;
}

/// The total of a well-formed aggregate is bounded by `count * VALUE_LIMIT`
/// in magnitude.
pub proof fn lemma_acc_total_bound(a: AccModel)
    requires
        acc_wf(a),
    ensures
        -(a.count * (VALUE_LIMIT as int)) <= a.total <= a.count * (VALUE_LIMIT as int),
{
    lemma_mul_inequality(-(VALUE_LIMIT as int), a.min, a.count);
    lemma_mul_inequality(a.max, VALUE_LIMIT as int, a.count);
    lemma_mul_is_commutative(a.count, a.min);
    lemma_mul_is_commutative(a.count, a.max);
    lemma_mul_is_commutative(a.count, -(VALUE_LIMIT as int));
    lemma_mul_is_commutative(a.count, VALUE_LIMIT as int);
    assert(a.count * (-(VALUE_LIMIT as int)) == -(a.count * (VALUE_LIMIT as int)))
        by (nonlinear_arith);
}

/// The merge operation is commutative.
pub proof fn lemma_merge_commutative(a: AccModel, b: AccModel)
    ensures
        acc_merge(a, b) == acc_merge(b, a),
{
}

/// The merge operation is associative.
pub proof fn lemma_merge_associative(a: AccModel, b: AccModel, c: AccModel)
    ensures
        acc_merge(acc_merge(a, b), c) == acc_merge(a, acc_merge(b, c)),
{
}

/// Merging in a one-value aggregate is the same as folding in that value.
pub proof fn lemma_merge_new_is_add(a: AccModel, v: int)
    ensures
        acc_merge(a, acc_new(v)) == acc_add(a, v),
{
}

/// Folding a value into a merged aggregate is the same as folding it into
/// the right operand before merging.
pub proof fn lemma_add_into_merge(a: AccModel, b: AccModel, v: int)
    ensures
        acc_add(acc_merge(a, b), v) == acc_merge(a, acc_add(b, v)),
{
}

/// The rounded mean of a well-formed aggregate lies between its extremes.
pub proof fn lemma_mean_in_range(a: AccModel)
    requires
        acc_wf(a),
    ensures
        a.min <= mean_of(a) <= a.max,
{
    let c = a.count;
    let t = a.total;
    if t >= 0 {
        let q = (2 * t + c) / (2 * c);
        assert(2 * t + c >= a.min * (2 * c) + c) by (nonlinear_arith)
            requires
                c * a.min <= t,
                c >= 1,
        ;
        lemma_fundamental_div_mod_converse(a.min * (2 * c) + c, 2 * c, a.min, c);
        lemma_div_is_ordered(a.min * (2 * c) + c, 2 * t + c, 2 * c);
        assert(2 * t + c <= a.max * (2 * c) + (2 * c - 1)) by (nonlinear_arith)
            requires
                t <= c * a.max,
                c >= 1,
        ;
        lemma_fundamental_div_mod_converse(a.max * (2 * c) + (2 * c - 1), 2 * c, a.max, 2 * c - 1);
        lemma_div_is_ordered(2 * t + c, a.max * (2 * c) + (2 * c - 1), 2 * c);
        assert(a.min <= q <= a.max);
    } else {
        let m = -t;
        let q = (2 * m + c) / (2 * c);
        // t < 0 and c * min <= t force min < 0; q is bounded above by -min.
        assert(a.min < 0) by (nonlinear_arith)
            requires
                c * a.min <= t,
                t < 0,
                c >= 1,
        ;
        assert(2 * m + c <= (-a.min) * (2 * c) + (2 * c - 1)) by (nonlinear_arith)
            requires
                c * a.min <= t,
                m == -t,
                c >= 1,
        ;
        lemma_fundamental_div_mod_converse(
            (-a.min) * (2 * c) + (2 * c - 1),
            2 * c,
            -a.min,
            2 * c - 1,
        );
        lemma_div_is_ordered(2 * m + c, (-a.min) * (2 * c) + (2 * c - 1), 2 * c);
        assert(q <= -a.min);
        if a.max >= 0 {
            lemma_div_pos_is_pos(2 * m + c, 2 * c);
            assert(-q <= a.max);
        } else {
            assert(2 * m + c >= (-a.max) * (2 * c) + c) by (nonlinear_arith)
                requires
                    t <= c * a.max,
                    m == -t,
                    c >= 1,
            ;
            lemma_fundamental_div_mod_converse((-a.max) * (2 * c) + c, 2 * c, -a.max, c);
            lemma_div_is_ordered((-a.max) * (2 * c) + c, 2 * m + c, 2 * c);
            assert(-q <= a.max);
        }
    }
}

} // verus!
