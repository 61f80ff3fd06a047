//! Statistics over timings: medians and percentiles by rank.

use crate::order::{in_order, lemma_rank_counts, lemma_some_order, ranked, Ranked};
use vstd::prelude::*;

verus! {

/// The middle of a list: its middle value, or the two values whose mean is the
/// median.
#[derive(Clone, Copy, Debug, PartialEq, Eq)]
pub enum Middle<T> {
    One(T),
    Two(T, T),
}

/// The middle of `items` read along `order`.
pub open spec fn middle_along<T>(items: Seq<T>, order: Seq<usize>) -> Middle<T> {
    let n = order.len() as int;
    if n % 2 == 1 {
        Middle::One(items[order[n / 2] as int])
    } else {
        Middle::Two(items[order[n / 2 - 1] as int], items[order[n / 2] as int])
    }
}

/// Whether `m` is the median of `items`.
pub open spec fn is_median<T: Ranked>(items: Seq<T>, m: Middle<T>) -> bool {
    exists|order: Seq<usize>| #[trigger] in_order(items, order) && m == middle_along(items, order)
}

/// A list has one median.
pub proof fn law_one_median<T: Ranked>(items: Seq<T>, a: Middle<T>, b: Middle<T>)
    requires
        is_median(items, a),
        is_median(items, b),
    ensures
        a == b,
{
    let p = choose|order: Seq<usize>| #[trigger]
        in_order(items, order) && a == middle_along(items, order);
    let q = choose|order: Seq<usize>| #[trigger]
        in_order(items, order) && b == middle_along(items, order);
    crate::order::law_one_order(items, p, q);
}

/// The median of a list, as a value of the contracts.
pub open spec fn the_median<T: Ranked>(items: Seq<T>) -> Middle<T> {
    choose|m: Middle<T>| is_median(items, m)
}

/// A median is the median.
pub proof fn lemma_the_median<T: Ranked>(items: Seq<T>, m: Middle<T>)
    requires
        is_median(items, m),
    ensures
        m == the_median(items),
{
    law_one_median(items, m, the_median(items));
}

/// Every list has a median.
pub proof fn lemma_some_median<T: Ranked>(items: Seq<T>)
    requires
        items.len() <= usize::MAX,
    ensures
        is_median(items, the_median(items)),
{
    lemma_some_order(items);
    let order = choose|order: Seq<usize>| #[trigger] in_order(items, order);
    let m = middle_along(items, order);
    assert(is_median(items, m));
}

/// A median stands in the middle: it is one of the values, and no fewer than half
/// of them rank no later than it, and no fewer than half no earlier. Of an even
/// number it is the two in the middle, the earlier one first.
pub proof fn law_median_divides<T: Ranked>(items: Seq<T>, m: Middle<T>)
    requires
        0 < items.len() <= usize::MAX,
        is_median(items, m),
    ensures
        match m {
            Middle::One(x) => {
                &&& items.len() % 2 == 1
                &&& items.contains(x)
                &&& 2 * items.filter(|y: T| y.precedes(&x)).len() > items.len()
                &&& 2 * items.filter(|y: T| x.precedes(&y)).len() > items.len()
            },
            Middle::Two(a, b) => {
                &&& items.len() % 2 == 0
                &&& items.contains(a) && items.contains(b)
                &&& a.precedes(&b)
                &&& 2 * items.filter(|y: T| y.precedes(&a)).len() >= items.len()
                &&& 2 * items.filter(|y: T| a.precedes(&y)).len() > items.len()
                &&& 2 * items.filter(|y: T| y.precedes(&b)).len() > items.len()
                &&& 2 * items.filter(|y: T| b.precedes(&y)).len() >= items.len()
            },
        },
{
    let order = choose|order: Seq<usize>| #[trigger]
        in_order(items, order) && m == middle_along(items, order);
    let n = items.len() as int;
    lemma_rank_counts(items, order, n / 2);
    if n % 2 == 0 {
        lemma_rank_counts(items, order, n / 2 - 1);
        assert(crate::order::before(items, order[n / 2 - 1], order[n / 2]));
    }
}

/// A percentile is one of the values: at least that share of them rank no later
/// than it, and less than that share rank before it. The lowest has no value
/// before it.
pub proof fn law_percentile_divides<T: Ranked>(items: Seq<T>, pct: nat, x: T)
    requires
        0 < items.len() <= usize::MAX,
        pct <= 100,
        is_percentile(items, pct, x),
    ensures
        items.contains(x),
        100 * items.filter(|y: T| y.precedes(&x)).len() >= pct * items.len(),
        pct > 0 ==> 100 * (items.len() - items.filter(|y: T| x.precedes(&y)).len()) < pct
            * items.len(),
        pct == 0 ==> items.filter(|y: T| x.precedes(&y)).len() >= items.len(),
{
    let n = items.len();
    let order = choose|order: Seq<usize>| #[trigger]
        in_order(items, order) && x == items[order[percentile_rank(pct, n) - 1] as int];
    assert(0 <= pct * n <= 100 * n) by (nonlinear_arith)
        requires
            pct <= 100,
    ;
    assert(pct > 0 ==> pct * n >= n) by (nonlinear_arith)
        requires
            n >= 0,
    ;
    assert(pct == 0 ==> pct * n == 0) by (nonlinear_arith);
    lemma_rank_counts(items, order, percentile_rank(pct, n) - 1);
}

/// The median of a list that is not empty.
pub fn median<T: Ranked + Copy>(items: &[T]) -> (m: Middle<T>)
    requires
        items@.len() > 0,
    ensures
        is_median(items@, m),
{
    let order = ranked(items);
    let n: usize = order.len();
    assert(in_order(items@, order@));
    if n % 2 == 1 {
        Middle::One(items[order[n / 2]])
    } else {
        Middle::Two(items[order[n / 2 - 1]], items[order[n / 2]])
    }
}

/// The rank, counted from one, that a percentile falls on among `n` values.
pub open spec fn percentile_rank(pct: nat, n: nat) -> nat {
    let up = (pct * n + 99) / 100;
    if up == 0 {
        1
    } else {
        up
    }
}

/// Whether `x` is the percentile `pct` of `items`.
pub open spec fn is_percentile<T: Ranked>(items: Seq<T>, pct: nat, x: T) -> bool {
    exists|order: Seq<usize>| #[trigger]
        in_order(items, order) && x == items[order[percentile_rank(pct, items.len()) - 1] as int]
}

/// A higher percentile is never a smaller value.
pub proof fn law_percentiles_rise<T: Ranked>(items: Seq<T>, p: nat, q: nat, x: T, y: T)
    requires
        items.len() > 0,
        p <= q <= 100,
        is_percentile(items, p, x),
        is_percentile(items, q, y),
    ensures
        x.precedes(&y),
{
    let n = items.len();
    let a = choose|order: Seq<usize>| #[trigger]
        in_order(items, order) && x == items[order[percentile_rank(p, n) - 1] as int];
    let b = choose|order: Seq<usize>| #[trigger]
        in_order(items, order) && y == items[order[percentile_rank(q, n) - 1] as int];
    crate::order::law_one_order(items, a, b);
    assert(p * n <= q * n <= 100 * n) by (nonlinear_arith)
        requires
            p <= q <= 100,
    ;
    let i = percentile_rank(p, n) - 1;
    let j = percentile_rank(q, n) - 1;
    if i == j {
        T::total(&x, &y);
    } else {
        assert(crate::order::before(items, a[i], a[j]));
    }
}

/// The percentile `pct` of a list that is not empty.
pub fn percentile(items: &[u64], pct: usize) -> (x: u64)
    requires
        items@.len() > 0,
        pct <= 100,
    ensures
        is_percentile(items@, pct as nat, x),
{
    let order = ranked(items);
    let n: usize = order.len();
    assert(in_order(items@, order@));
    assert(pct * n <= 100 * n) by (nonlinear_arith)
        requires
            pct <= 100,
    ;
    let up: u128 = (pct as u128 * n as u128 + 99) / 100;
    let rank: usize = if up == 0 {
        1
    } else {
        up as usize
    };
    items[order[rank - 1]]
}

/// A timing of one slice: how long it took and how many bytes it held.
#[derive(Clone, Copy, Debug, PartialEq, Eq)]
pub struct Sample {
    pub nanos: u64,
    pub bytes: usize,
}

impl Ranked for Sample {
    /// By time per byte. A slice without bytes has none, and ranks last.
    open spec fn precedes(&self, other: &Self) -> bool {
        if other.bytes == 0 {
            true
        } else if self.bytes == 0 {
            false
        } else {
            self.nanos * other.bytes <= other.nanos * self.bytes
        }
    }

    proof fn total(a: &Self, b: &Self) {
    }

    proof fn transitive(a: &Self, b: &Self, c: &Self) {
        if a.bytes > 0 && b.bytes > 0 && c.bytes > 0 {
            lemma_ratio(
                a.nanos as int,
                a.bytes as int,
                b.nanos as int,
                b.bytes as int,
                c.nanos as int,
                c.bytes as int,
            );
        }
    }

    fn at_most(&self, other: &Self) -> (r: bool) {
        if other.bytes == 0 {
            true
        } else if self.bytes == 0 {
            false
        } else {
            let a: u64 = self.nanos;
            let b: u64 = other.nanos;
            let x: usize = self.bytes;
            let y: usize = other.bytes;
            assert(a * y <= 0xffff_ffff_ffff_ffff * 0xffff_ffff_ffff_ffff) by (nonlinear_arith)
                requires
                    a <= 0xffff_ffff_ffff_ffff,
                    y <= 0xffff_ffff_ffff_ffff,
            ;
            assert(b * x <= 0xffff_ffff_ffff_ffff * 0xffff_ffff_ffff_ffff) by (nonlinear_arith)
                requires
                    b <= 0xffff_ffff_ffff_ffff,
                    x <= 0xffff_ffff_ffff_ffff,
            ;
            a as u128 * y as u128 <= b as u128 * x as u128
        }
    }
}

proof fn lemma_ratio(an: int, ab: int, bn: int, bb: int, cn: int, cb: int)
    requires
        ab > 0,
        bb > 0,
        cb > 0,
        an * bb <= bn * ab,
        bn * cb <= cn * bb,
    ensures
        an * cb <= cn * ab,
{
    assert((an * bb) * cb <= (bn * ab) * cb) by (nonlinear_arith)
        requires
            an * bb <= bn * ab,
            cb > 0,
    ;
    assert((bn * cb) * ab <= (cn * bb) * ab) by (nonlinear_arith)
        requires
            bn * cb <= cn * bb,
            ab > 0,
    ;
    assert((bn * ab) * cb == (bn * cb) * ab) by (nonlinear_arith);
    assert((an * bb) * cb == (an * cb) * bb) by (nonlinear_arith);
    assert((cn * bb) * ab == (cn * ab) * bb) by (nonlinear_arith);
    assert(an * cb <= cn * ab) by (nonlinear_arith)
        requires
            (an * cb) * bb <= (cn * ab) * bb,
            bb > 0,
    ;
}

/// The median of a list is one of its values, or two: no fewer than half of the values
/// rank no later, and no fewer than half no earlier.
pub proof fn law_median_of_a_list<T: Ranked + Copy>(items: &[T], m: Middle<T>)
    requires
        items@.len() > 0,
        call_ensures(median::<T>, (items,), m),
    ensures
        match m {
            Middle::One(x) => {
                &&& items@.len() % 2 == 1
                &&& items@.contains(x)
                &&& 2 * items@.filter(|y: T| y.precedes(&x)).len() > items@.len()
                &&& 2 * items@.filter(|y: T| x.precedes(&y)).len() > items@.len()
            },
            Middle::Two(a, b) => {
                &&& items@.len() % 2 == 0
                &&& items@.contains(a) && items@.contains(b)
                &&& a.precedes(&b)
                &&& 2 * items@.filter(|y: T| y.precedes(&a)).len() >= items@.len()
                &&& 2 * items@.filter(|y: T| a.precedes(&y)).len() > items@.len()
                &&& 2 * items@.filter(|y: T| y.precedes(&b)).len() > items@.len()
                &&& 2 * items@.filter(|y: T| b.precedes(&y)).len() >= items@.len()
            },
        },
{
    assert(items@.len() == items.len());
    law_median_divides(items@, m);
}

/// A percentile of a list is one of its values: at least that share of the values are
/// no greater, and less than that share are smaller.
pub proof fn law_percentile_of_a_list(items: &[u64], pct: usize, x: u64)
    requires
        items@.len() > 0,
        pct <= 100,
        call_ensures(percentile, (items, pct), x),
    ensures
        items@.contains(x),
        100 * items@.filter(|y: u64| y <= x).len() >= pct * items@.len(),
        pct > 0 ==> 100 * (items@.len() - items@.filter(|y: u64| x <= y).len()) < pct * items@.len(),
        pct == 0 ==> items@.filter(|y: u64| x <= y).len() == items@.len(),
{
    assert(items@.len() == items.len());
    law_percentile_divides(items@, pct as nat, x);
    assert((|y: u64| y.precedes(&x)) =~= (|y: u64| y <= x));
    assert((|y: u64| x.precedes(&y)) =~= (|y: u64| x <= y));
    items@.lemma_filter_len(|y: u64| x <= y);
}

/// Samples rank by the time that a byte took: the time of one, over the bytes of the
/// other. One without bytes ranks behind every other.
pub proof fn law_samples_rank_by_pace(a: Sample, b: Sample, r: bool)
    requires
        call_ensures(<Sample as Ranked>::at_most, (&a, &b), r),
    ensures
        a.bytes > 0 && b.bytes > 0 ==> (r <==> a.nanos * b.bytes <= b.nanos * a.bytes),
        b.bytes == 0 ==> r,
        a.bytes == 0 && b.bytes > 0 ==> !r,
{
}

}
