//! What holds of thresholds that come from a sample, and of the buckets that they give.

use crate::arithmetic::{from_integer, product};
use crate::binary32::Binary32;
use crate::bucket_laws::law_accepted_thresholds_are_inside_the_unit;
use crate::buckets::{
    equal_width, lemma_cut_inside, quantile_fault, quantiles, reached, sorted,
};
use crate::identities::{lemma_count, lemma_one};
use crate::integers::law_rank_orders_values;
use crate::nearest_laws::{
    law_signs_of_products_and_quotients, lemma_share_of_a_count, nearest_to,
};
use crate::progress_bin_format::{inside_unit, law_validation_is_spacing, ProgressBinError};
use vstd::arithmetic::power2::{lemma_pow2_pos, pow2};
use vstd::prelude::*;

verus! {

/// For every sample and every number of buckets there is one threshold fewer than there are
/// buckets, and the threshold that ends the share `(k + 1) / num_buckets` is the value at the place
/// where that share of the sorted sample ends, whether or not the sample rises there.
pub proof fn law_threshold_is_the_value_where_its_share_ends(
    ps: Seq<Binary32>,
    num_buckets: nat,
    k: nat,
)
    requires
        ps.len() > 0,
        k + 1 < num_buckets,
    ensures
        quantiles(ps, num_buckets).len() == num_buckets - 1,
        ((k + 1) * ps.len()) / num_buckets < ps.len(),
        quantiles(ps, num_buckets)[k as int] == ps[(((k + 1) * ps.len()) / num_buckets) as int],
{
    lemma_cut_inside(k + 1, ps.len(), num_buckets);
}

/// The number of values of a sample that lie below `t`.
pub open spec fn values_below(ps: Seq<Binary32>, t: Binary32) -> nat {
    ps.filter(|p: Binary32| p.below(t)).len()
}

/// The number of values of a sample that do not lie above `t`.
pub open spec fn values_up_to(ps: Seq<Binary32>, t: Binary32) -> nat {
    ps.filter(|p: Binary32| p.at_most(t)).len()
}

/// Where no value from a place on is counted, no more values are than stand before that place.
proof fn lemma_few_counted(ps: Seq<Binary32>, f: spec_fn(Binary32) -> bool, at: int)
    requires
        0 <= at <= ps.len(),
        forall|i: int| at <= i < ps.len() ==> !f(#[trigger] ps[i]),
    ensures
        ps.filter(f).len() <= at,
    decreases ps.len(),
{
    reveal(Seq::filter);
    if ps.len() > 0 {
        let head = ps.drop_last();
        assert forall|i: int| at <= i < head.len() implies !f(#[trigger] head[i]) by {
            assert(head[i] == ps[i]);
        }
        if at == ps.len() {
            lemma_few_counted(head, f, at - 1);
        } else {
            lemma_few_counted(head, f, at);
            assert(!f(ps[ps.len() - 1]));
        }
    }
}

/// Where every value before a place is counted, no fewer values are than stand before it.
proof fn lemma_many_counted(ps: Seq<Binary32>, f: spec_fn(Binary32) -> bool, to: int)
    requires
        0 <= to <= ps.len(),
        forall|i: int| 0 <= i < to ==> f(#[trigger] ps[i]),
    ensures
        ps.filter(f).len() >= to,
    decreases ps.len(),
{
    reveal(Seq::filter);
    if ps.len() > 0 {
        let head = ps.drop_last();
        let most = if to == ps.len() {
            to - 1
        } else {
            to
        };
        assert forall|i: int| 0 <= i < most implies f(#[trigger] head[i]) by {
            assert(head[i] == ps[i]);
        }
        lemma_many_counted(head, f, most);
        if to == ps.len() {
            assert(f(ps[to - 1]));
        }
    }
}

/// A threshold is the quantile of its share: at most that share of the sample lies below it, and
/// more than that share does not lie above it.
pub proof fn law_threshold_is_the_quantile_of_its_share(
    ps: Seq<Binary32>,
    num_buckets: nat,
    k: nat,
)
    requires
        ps.len() > 0,
        sorted(ps),
        k + 1 < num_buckets,
    ensures
        values_below(ps, quantiles(ps, num_buckets)[k as int]) <= ((k + 1) * ps.len())
            / num_buckets,
        ((k + 1) * ps.len()) / num_buckets < values_up_to(
            ps,
            quantiles(ps, num_buckets)[k as int],
        ),
{
    law_threshold_is_the_value_where_its_share_ends(ps, num_buckets, k);
    let at = (((k + 1) * ps.len()) / num_buckets) as int;
    let t = ps[at];
    assert forall|i: int| at <= i < ps.len() implies !(#[trigger] ps[i]).below(t) by {
        assert(t.at_most(ps[i]));
    }
    lemma_few_counted(ps, |p: Binary32| p.below(t), at);
    lemma_many_counted(ps, |p: Binary32| p.at_most(t), at + 1);
}

/// Thresholds of more buckets refine those of fewer: where the number of buckets is multiplied,
/// the old thresholds stay.
pub proof fn law_finer_buckets_keep_the_thresholds(
    ps: Seq<Binary32>,
    num_buckets: nat,
    factor: nat,
    k: nat,
)
    requires
        ps.len() > 0,
        factor > 0,
        k + 1 < num_buckets,
    ensures
        0 < factor * (k + 1) < factor * num_buckets,
        quantiles(ps, factor * num_buckets)[factor * (k + 1) - 1] == quantiles(
            ps,
            num_buckets,
        )[k as int],
{
    let fine = factor * num_buckets;
    let j = factor * (k + 1);
    assert(0 < j < fine) by (nonlinear_arith)
        requires
            factor > 0,
            k + 1 < num_buckets,
            j == factor * (k + 1),
            fine == factor * num_buckets,
    ;
    law_threshold_is_the_value_where_its_share_ends(ps, num_buckets, k);
    law_threshold_is_the_value_where_its_share_ends(ps, fine, (j - 1) as nat);
    let x = (k + 1) * ps.len();
    assert(j * ps.len() == factor * x) by (nonlinear_arith)
        requires
            j == factor * (k + 1),
            x == (k + 1) * ps.len(),
    ;
    vstd::arithmetic::div_mod::lemma_truncate_middle(x as int, num_buckets as int, factor as int);
    vstd::arithmetic::div_mod::lemma_div_multiples_vanish_quotient(
        factor as int,
        x as int,
        num_buckets as int,
    );
}

/// The bucket of a progress value is the number of thresholds that it has reached.
pub proof fn law_bucket_is_the_number_of_thresholds_reached(
    p: Binary32,
    thresholds: Seq<Binary32>,
)
    ensures
        reached(p, thresholds) == thresholds.filter(|t: Binary32| t.at_most(p)).len(),
    decreases thresholds.len(),
{
    reveal(Seq::filter);
    if thresholds.len() > 0 {
        law_bucket_is_the_number_of_thresholds_reached(p, thresholds.drop_last());
    }
}

/// A sample gives thresholds exactly where there are from two to 256 buckets, the values at the
/// ends of the shares increase strictly between zero and one, and not all its values are the same.
pub proof fn law_which_samples_give_thresholds(ps: Seq<Binary32>, num_buckets: usize)
    ensures
        !(2 <= num_buckets <= 256) ==> quantile_fault(ps, num_buckets) == Some(
            ProgressBinError::NumBuckets { num_buckets },
        ),
        2 <= num_buckets <= 256 && ps.len() == 0 ==> quantile_fault(ps, num_buckets) == Some(
            ProgressBinError::EmptySample,
        ),
        2 <= num_buckets <= 256 && ps.len() > 0 ==> {
            let ts = quantiles(ps, num_buckets as nat);
            let increasing = {
                &&& forall|k: int|
                    0 <= k < num_buckets - 1 ==> (#[trigger] ts[k]).finite() && 0 < ts[k].value()
                        < pow2(149)
                &&& forall|j: int, k: int|
                    0 <= j < k < num_buckets - 1 ==> (#[trigger] ts[j]).value() < (
                    #[trigger] ts[k]).value()
            };
            let one_value = forall|i: int|
                0 <= i < ps.len() ==> (#[trigger] ps[i]).rank() == ps[0].rank();
            &&& quantile_fault(ps, num_buckets) is None <==> increasing && !one_value
            &&& increasing && one_value ==> quantile_fault(ps, num_buckets) == Some(
                ProgressBinError::DegenerateSample { value: ps[0] },
            )
        },
{
    if 2 <= num_buckets <= 256 && ps.len() > 0 {
        let ts = quantiles(ps, num_buckets as nat);
        law_validation_is_spacing(ts, num_buckets as nat);
        assert forall|k: int| 0 <= k < ts.len() implies (inside_unit(
            #[trigger] ts[k],
        ) <==> ts[k].finite() && 0 < ts[k].value() < pow2(149)) by {
            law_accepted_thresholds_are_inside_the_unit(ts[k]);
            lemma_one();
        }
        assert forall|j: int, k: int|
            0 <= j < k < ts.len() && ts[j].finite() && ts[k].finite() implies ((
        #[trigger] ts[j]).below(#[trigger] ts[k]) <==> ts[j].value() < ts[k].value()) by {
            law_rank_orders_values(ts[j], ts[k]);
        }
    }
}

/// A progress value times the number of buckets, rounded to the nearest number, lies between the
/// bucket's number and the next, except that the first bucket takes everything below and the last
/// one everything above.
pub proof fn law_equal_width_bucket_holds_its_share(p: Binary32, num_buckets: usize) -> (
    scaled: Binary32)
    requires
        1 <= num_buckets <= 256,
        p.finite(),
        -pow2(149) <= p.value() <= pow2(149),
    ensures
        nearest_to(scaled, p.value() * num_buckets, 1),
        ({
            let b = equal_width(p, num_buckets);
            &&& 0 <= b < num_buckets
            &&& 0 < b ==> b * pow2(149) <= scaled.value()
            &&& b < num_buckets - 1 ==> scaled.value() < (b + 1) * pow2(149)
        }),
{
    let n = from_integer(num_buckets as nat);
    let scaled = product(p, n);
    let d = pow2(149);
    lemma_pow2_pos(149);
    lemma_share_of_a_count(p, num_buckets as nat);
    let v = scaled.value();
    let b = equal_width(p, num_buckets);
    let floor = v / d as int;
    vstd::arithmetic::div_mod::lemma_fundamental_div_mod(v, d as int);
    assert(floor < b ==> v < b * d) by (nonlinear_arith)
        requires
            d > 0,
            v == d * floor + v % d as int,
            0 <= v % d as int,
            v % (d as int) < d,
    ;
    assert(floor >= b ==> v >= b * d) by (nonlinear_arith)
        requires
            d > 0,
            v == d * floor + v % d as int,
            0 <= v % d as int,
            v % (d as int) < d,
    ;
    assert(floor < b + 1 ==> v < (b + 1) * d) by (nonlinear_arith)
        requires
            d > 0,
            v == d * floor + v % d as int,
            0 <= v % d as int,
            v % (d as int) < d,
    ;
    scaled
}

/// A progress value that is not a number, or below every number, is in the first bucket; one above
/// every number is in the last.
pub proof fn law_equal_width_takes_every_value(p: Binary32, num_buckets: usize)
    requires
        1 <= num_buckets <= 256,
        !p.finite(),
    ensures
        equal_width(p, num_buckets) == if p.infinite() && !p.negative() {
            num_buckets - 1
        } else {
            0
        },
{
    lemma_count(num_buckets as nat);
    law_signs_of_products_and_quotients(
        p,
        from_integer(num_buckets as nat),
    );
}

} // verus!
