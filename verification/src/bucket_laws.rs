//! What holds of the assignment to buckets.

use crate::arithmetic::{from_integer, lemma_quanta_increase, lemma_quanta_zero, product};
use crate::binary32::{Binary32, INFINITY_BITS};
use crate::buckets::{
    degenerate, equal_width, lemma_cut_inside, quantile_fault, quantiles, reached,
};
use crate::identities::{lemma_count, lemma_signed, one};
use crate::integers::{floor_i32, law_rank_orders_values};
use crate::progress_bin_format::{
    inside_unit, law_validation_is_spacing, well_spaced, MAX_NUM_BUCKETS,
};
use crate::rounding::{lemma_nearest_none, nearest_magnitude};
use crate::rounding_laws::law_rounding_keeps_order;
use vstd::arithmetic::power2::{lemma_pow2_pos, pow2};
use vstd::prelude::*;

verus! {

/// A bucket of equal width is one of those there are.
pub proof fn law_equal_width_is_in_range(p: Binary32, num_buckets: usize)
    requires
        1 <= num_buckets <= MAX_NUM_BUCKETS,
    ensures
        0 <= equal_width(p, num_buckets) < num_buckets,
{
}

/// A higher progress never has a lower bucket by thresholds.
pub proof fn law_quantile_buckets_rise(p: Binary32, q: Binary32, thresholds: Seq<Binary32>)
    requires
        p.at_most(q),
    ensures
        reached(p, thresholds) <= reached(q, thresholds),
    decreases thresholds.len(),
{
    if thresholds.len() > 0 {
        law_quantile_buckets_rise(p, q, thresholds.drop_last());
    }
}

/// More quanta do not round to a lower magnitude.
proof fn lemma_product_magnitudes(a: nat, b: nat, n: nat)
    requires
        a <= b,
    ensures
        nearest_magnitude(a * n, pow2(149)) <= nearest_magnitude(b * n, pow2(149)) <= INFINITY_BITS,
{
    let d = pow2(149);
    lemma_pow2_pos(149);
    let x = a * n;
    let y = b * n;
    assert(x * d <= y * d) by (nonlinear_arith)
        requires
            x == a * n,
            y == b * n,
            a <= b,
    ;
    law_rounding_keeps_order(x, d, y, d);
}

/// Multiplying by a positive number keeps the order.
proof fn lemma_product_rises(p: Binary32, q: Binary32, n: Binary32)
    requires
        p.at_most(q),
        n.finite(),
        !n.zero(),
        !n.negative(),
    ensures
        product(p, n).at_most(product(q, n)),
{
    let big = INFINITY_BITS as nat;
    lemma_signed(true, big);
    lemma_signed(false, big);
    lemma_quanta_zero(p.magnitude());
    lemma_quanta_zero(q.magnitude());
    if p.finite() {
        lemma_product_magnitudes(p.quanta(), p.quanta(), n.quanta());
        lemma_signed(p.negative(), nearest_magnitude(p.quanta() * n.quanta(), pow2(149)));
    }
    if q.finite() {
        lemma_product_magnitudes(q.quanta(), q.quanta(), n.quanta());
        lemma_signed(q.negative(), nearest_magnitude(q.quanta() * n.quanta(), pow2(149)));
    }
    if p.finite() && q.finite() {
        if p.magnitude() < q.magnitude() {
            lemma_quanta_increase(p.magnitude(), q.magnitude());
            lemma_product_magnitudes(p.quanta(), q.quanta(), n.quanta());
        }
        if q.magnitude() < p.magnitude() {
            lemma_quanta_increase(q.magnitude(), p.magnitude());
            lemma_product_magnitudes(q.quanta(), p.quanta(), n.quanta());
        }
        if p.zero() && q.zero() {
            let none = n.quanta();
            assert(0 * none == 0) by (nonlinear_arith);
            lemma_pow2_pos(149);
            lemma_nearest_none(pow2(149));
        }
    }
}

/// The integer part keeps the order.
proof fn lemma_floor_rises(a: Binary32, b: Binary32)
    requires
        a.at_most(b),
    ensures
        floor_i32(a) <= floor_i32(b),
{
    if a.finite() && b.finite() {
        law_rank_orders_values(a, b);
        lemma_pow2_pos(149);
        vstd::arithmetic::div_mod::lemma_div_is_ordered(a.value(), b.value(), pow2(149) as int);
    }
}

/// A higher progress never has a lower bucket of equal width.
pub proof fn law_equal_width_buckets_rise(p: Binary32, q: Binary32, num_buckets: usize)
    requires
        1 <= num_buckets <= MAX_NUM_BUCKETS,
        p.at_most(q),
    ensures
        equal_width(p, num_buckets) <= equal_width(q, num_buckets),
{
    let n = from_integer(num_buckets as nat);
    lemma_count(num_buckets as nat);
    lemma_product_rises(p, q, n);
    lemma_floor_rises(product(p, n), product(q, n));
}

/// A sample of one value has no thresholds, for any number of buckets.
pub proof fn law_degenerate_sample_has_no_thresholds(ps: Seq<Binary32>, num_buckets: usize)
    requires
        degenerate(ps),
    ensures
        quantile_fault(ps, num_buckets) is Some,
{
}

/// A sorted sample gives thresholds exactly where its quantiles increase strictly between zero and
/// one and it has two different values.
pub proof fn law_thresholds_come_from_spaced_quantiles(ps: Seq<Binary32>, num_buckets: usize)
    requires
        2 <= num_buckets <= MAX_NUM_BUCKETS,
        ps.len() > 0,
    ensures
        quantile_fault(ps, num_buckets) is None <==> well_spaced(quantiles(ps, num_buckets as nat))
            && !degenerate(ps),
{
    law_validation_is_spacing(quantiles(ps, num_buckets as nat), num_buckets as nat);
}

/// For three or more buckets, the quantiles of a sample of one value do not increase.
pub proof fn law_quantiles_of_one_value_do_not_increase(ps: Seq<Binary32>, num_buckets: nat)
    requires
        ps.len() > 0,
        num_buckets >= 3,
        degenerate(ps),
    ensures
        !well_spaced(quantiles(ps, num_buckets)),
{
    let thresholds = quantiles(ps, num_buckets);
    lemma_cut_inside(1, ps.len(), num_buckets);
    lemma_cut_inside(2, ps.len(), num_buckets);
    assert(thresholds[0].rank() == thresholds[1].rank());
    assert(!thresholds[0].below(thresholds[1]));
}

/// A threshold is accepted exactly when its value lies strictly between zero and one.
pub proof fn law_accepted_thresholds_are_inside_the_unit(t: Binary32)
    ensures
        inside_unit(t) <==> t.finite() && 0 < t.value() < one().value(),
{
    if t.finite() {
        law_rank_orders_values(t, one());
        law_rank_orders_values(Binary32 { bits: 0 }, t);
        lemma_quanta_zero(0);
    }
}

} // verus!
