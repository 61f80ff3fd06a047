//! Ranking: a stable order over the items of a list, and what is read off it.

use vstd::prelude::*;

verus! {

/// A type whose values are ranked by a total preorder.
pub trait Ranked: Sized {
    /// Whether `self` ranks no later than `other`.
    spec fn precedes(&self, other: &Self) -> bool;

    proof fn total(a: &Self, b: &Self)
        ensures
            a.precedes(b) || b.precedes(a),
    ;

    proof fn transitive(a: &Self, b: &Self, c: &Self)
        requires
            a.precedes(b),
            b.precedes(c),
        ensures
            a.precedes(c),
    ;

    fn at_most(&self, other: &Self) -> (r: bool)
        ensures
            r == self.precedes(other),
    ;
}

/// Whether the item at `a` comes before the one at `b`: by rank, and among
/// equal ranks by position.
pub open spec fn before<T: Ranked>(items: Seq<T>, a: usize, b: usize) -> bool {
    items[a as int].precedes(&items[b as int]) && (items[b as int].precedes(&items[a as int])
        ==> a < b)
}

/// Whether `order` lists the positions from `lo` up to `hi` once each, in rank
/// order, equal ranks in the order they stand.
pub open spec fn range_in_order<T: Ranked>(
    items: Seq<T>,
    order: Seq<usize>,
    lo: int,
    hi: int,
) -> bool {
    &&& order.len() == hi - lo
    &&& forall|i: int| 0 <= i < order.len() ==> lo <= #[trigger] order[i] < hi
    &&& forall|k: usize| lo <= k < hi ==> order.contains(k)
    &&& forall|i: int, j: int|
        0 <= i < j < order.len() ==> before(items, #[trigger] order[i], #[trigger] order[j])
}

/// Whether `order` is the stable rank order of all of `items`.
pub open spec fn in_order<T: Ranked>(items: Seq<T>, order: Seq<usize>) -> bool {
    range_in_order(items, order, 0, items.len() as int)
}

/// A list has one stable rank order only.
pub proof fn law_one_order<T: Ranked>(items: Seq<T>, a: Seq<usize>, b: Seq<usize>)
    requires
        in_order(items, a),
        in_order(items, b),
    ensures
        a == b,
{
    lemma_same_prefix(items, a, b, items.len() as int);
    assert(a.take(items.len() as int) =~= a);
    assert(b.take(items.len() as int) =~= b);
}

proof fn lemma_same_prefix<T: Ranked>(items: Seq<T>, a: Seq<usize>, b: Seq<usize>, n: int)
    requires
        in_order(items, a),
        in_order(items, b),
        0 <= n <= items.len(),
    ensures
        a.take(n) == b.take(n),
    decreases n,
{
    if n > 0 {
        lemma_same_prefix(items, a, b, n - 1);
        let i = n - 1;
        assert(forall|k: int| 0 <= k < i ==> a[k] == b[k]) by {
            assert forall|k: int| 0 <= k < i implies a[k] == b[k] by {
                assert(a.take(i)[k] == b.take(i)[k]);
            }
        }
        assert(b.contains(a[i]));
        assert(a.contains(b[i]));
        let p = choose|p: int| 0 <= p < b.len() && b[p] == a[i];
        let q = choose|q: int| 0 <= q < a.len() && a[q] == b[i];
        if p < i {
            assert(before(items, a[p], a[i]));
        }
        if q < i {
            assert(before(items, b[q], b[i]));
        }
        if p > i && q > i {
            assert(before(items, b[i], b[p]));
            assert(before(items, a[i], a[q]));
        }
        assert(a[i] == b[i]);
        assert(a.take(n) =~= b.take(n));
    }
}

proof fn lemma_before_transitive<T: Ranked>(items: Seq<T>, a: usize, b: usize, c: usize)
    requires
        before(items, a, b),
        before(items, b, c),
    ensures
        before(items, a, c),
{
    T::transitive(&items[a as int], &items[b as int], &items[c as int]);
    if items[c as int].precedes(&items[a as int]) {
        T::transitive(&items[c as int], &items[a as int], &items[b as int]);
        T::transitive(&items[b as int], &items[c as int], &items[a as int]);
    }
}

/// Merges the orders of two neighbouring ranges.
fn merge<T: Ranked>(items: &[T], left: &Vec<usize>, right: &Vec<usize>, Ghost(lo): Ghost<int>, Ghost(
    mid,
): Ghost<int>, Ghost(hi): Ghost<int>) -> (out: Vec<usize>)
    requires
        0 <= lo <= mid <= hi <= items@.len(),
        range_in_order(items@, left@, lo, mid),
        range_in_order(items@, right@, mid, hi),
    ensures
        range_in_order(items@, out@, lo, hi),
{
    let mut out: Vec<usize> = Vec::new();
    let mut i: usize = 0;
    let mut j: usize = 0;
    while i < left.len() || j < right.len()
        invariant
            0 <= lo <= mid <= hi <= items@.len(),
            range_in_order(items@, left@, lo, mid),
            range_in_order(items@, right@, mid, hi),
            i <= left@.len(),
            j <= right@.len(),
            out@.len() == i + j,
            forall|k: int| 0 <= k < out@.len() ==> lo <= #[trigger] out@[k] < hi,
            forall|k: int| 0 <= k < i ==> out@.contains(#[trigger] left@[k]),
            forall|k: int| 0 <= k < j ==> out@.contains(#[trigger] right@[k]),
            forall|k: int, m: int|
                0 <= k < out@.len() && i <= m < left@.len() ==> before(
                    items@,
                    #[trigger] out@[k],
                    #[trigger] left@[m],
                ),
            forall|k: int, m: int|
                0 <= k < out@.len() && j <= m < right@.len() ==> before(
                    items@,
                    #[trigger] out@[k],
                    #[trigger] right@[m],
                ),
            forall|k: int, m: int|
                0 <= k < m < out@.len() ==> before(
                    items@,
                    #[trigger] out@[k],
                    #[trigger] out@[m],
                ),
        decreases left@.len() - i + right@.len() - j,
    {
        let take_left: bool = if i == left.len() {
            false
        } else if j == right.len() {
            true
        } else {
            items[left[i]].at_most(&items[right[j]])
        };
        let ghost was = out@;
        if take_left {
            let x: usize = left[i];
            proof {
                if j < right@.len() {
                    assert(before(items@, x, right@[j as int]));
                    assert forall|m: int| j <= m < right@.len() implies before(
                        items@,
                        x,
                        #[trigger] right@[m],
                    ) by {
                        if m > j {
                            lemma_before_transitive(items@, x, right@[j as int], right@[m]);
                        }
                    }
                }
            }
            out.push(x);
            i = i + 1;
            assert(out@[was.len() as int] == x);
        } else {
            let x: usize = right[j];
            proof {
                if i < left@.len() {
                    T::total(&items@[left@[i as int] as int], &items@[x as int]);
                    assert(before(items@, x, left@[i as int]));
                    assert forall|m: int| i <= m < left@.len() implies before(
                        items@,
                        x,
                        #[trigger] left@[m],
                    ) by {
                        if m > i {
                            lemma_before_transitive(items@, x, left@[i as int], left@[m]);
                        }
                    }
                }
            }
            out.push(x);
            j = j + 1;
            assert(out@[was.len() as int] == x);
        }
        assert forall|y: usize| was.contains(y) implies out@.contains(y) by {
            let k = choose|k: int| 0 <= k < was.len() && was[k] == y;
            assert(out@[k] == y);
        }
    }
    assert forall|k: usize| lo <= k < hi implies out@.contains(k) by {
        if k < mid {
            assert(left@.contains(k));
            let p = choose|p: int| 0 <= p < left@.len() && left@[p] == k;
            assert(out@.contains(left@[p]));
        } else {
            assert(right@.contains(k));
            let p = choose|p: int| 0 <= p < right@.len() && right@[p] == k;
            assert(out@.contains(right@[p]));
        }
    }
    out
}

fn rank_range<T: Ranked>(items: &[T], lo: usize, hi: usize) -> (order: Vec<usize>)
    requires
        lo <= hi <= items@.len(),
    ensures
        range_in_order(items@, order@, lo as int, hi as int),
    decreases hi - lo,
{
    if hi - lo <= 1 {
        let mut order: Vec<usize> = Vec::new();
        if lo < hi {
            order.push(lo);
            assert(order@[0] == lo);
        }
        return order;
    }
    let mid: usize = lo + (hi - lo) / 2;
    let left = rank_range(items, lo, mid);
    let right = rank_range(items, mid, hi);
    merge(items, &left, &right, Ghost(lo as int), Ghost(mid as int), Ghost(hi as int))
}

/// The stable rank order of `items`.
pub fn ranked<T: Ranked>(items: &[T]) -> (order: Vec<usize>)
    ensures
        in_order(items@, order@),
{
    rank_range(items, 0, items.len())
}

/// The items of a list read along an order.
pub open spec fn along<T>(items: Seq<T>, order: Seq<usize>) -> Seq<T> {
    order.map_values(|k: usize| items[k as int])
}

/// Every list has a stable rank order.
pub proof fn lemma_some_order<T: Ranked>(items: Seq<T>)
    requires
        items.len() <= usize::MAX,
    ensures
        exists|order: Seq<usize>| #[trigger] in_order(items, order),
{
    let plain = Seq::new(items.len(), |i: int| i as usize);
    let leq = |a: usize, b: usize| a == b || before(items, a, b);
    assert(vstd::relations::total_ordering(leq)) by {
        assert forall|a: usize, b: usize| #[trigger] leq(a, b) || #[trigger] leq(b, a) by {
            T::total(&items[a as int], &items[b as int]);
        }
        assert forall|a: usize, b: usize, c: usize| #[trigger] leq(a, b) && #[trigger] leq(
            b,
            c,
        ) implies leq(a, c) by {
            if a != b && b != c {
                let x = items[a as int];
                let y = items[b as int];
                let z = items[c as int];
                T::transitive(&x, &y, &z);
                if z.precedes(&x) {
                    T::transitive(&y, &z, &x);
                    T::transitive(&z, &x, &y);
                }
            }
        }
    }
    plain.lemma_sort_by_ensures(leq);
    let order = plain.sort_by(leq);
    plain.to_multiset_ensures();
    order.to_multiset_ensures();
    assert(order.len() == plain.len());
    assert forall|k: usize| 0 <= k < items.len() implies order.contains(k) by {
        assert(plain[k as int] == k);
        assert(plain.to_multiset().count(k) > 0);
    }
    assert forall|i: int| 0 <= i < order.len() implies 0 <= #[trigger] order[i] < items.len() by {
        assert(order.contains(order[i]));
        assert(plain.contains(order[i]));
    }
    assert(order.no_duplicates()) by {
        plain.lemma_multiset_has_no_duplicates();
        assert forall|x: usize| order.to_multiset().contains(x) implies order.to_multiset().count(
            x,
        ) == 1 by {
            assert(plain.to_multiset().contains(x));
        }
        order.lemma_multiset_has_no_duplicates_conv();
    }
    assert forall|i: int, j: int| 0 <= i < j < order.len() implies before(
        items,
        #[trigger] order[i],
        #[trigger] order[j],
    ) by {
        assert(leq(order[i], order[j]));
    }
    assert(in_order(items, order));
}

/// Distinct places of a list whose items all pass a test are no more than the
/// items that pass it.
pub proof fn lemma_pass_count<T>(items: Seq<T>, at: Seq<usize>, passes: spec_fn(T) -> bool)
    requires
        items.len() <= usize::MAX,
        at.no_duplicates(),
        forall|k: int| 0 <= k < at.len() ==> #[trigger] at[k] < items.len(),
        forall|k: int| 0 <= k < at.len() ==> passes(items[(#[trigger] at[k]) as int]),
    ensures
        items.filter(passes).len() >= at.len(),
    decreases items.len(),
{
    reveal(Seq::filter);
    if items.len() == 0 {
        if at.len() > 0 {
            assert(at[0] < items.len());
        }
    } else {
        let less = items.drop_last();
        let last = (items.len() - 1) as usize;
        if at.contains(last) {
            let p = choose|p: int| 0 <= p < at.len() && at[p] == last;
            let rest = at.remove(p);
            assert forall|k: int| 0 <= k < rest.len() implies #[trigger] rest[k] < less.len() by {
                let q = if k < p {
                    k
                } else {
                    k + 1
                };
                assert(rest[k] == at[q]);
                assert(at[q] != at[p]);
            }
            assert forall|k: int| 0 <= k < rest.len() implies passes(
                less[(#[trigger] rest[k]) as int],
            ) by {
                let q = if k < p {
                    k
                } else {
                    k + 1
                };
                assert(rest[k] == at[q]);
            }
            lemma_pass_count(less, rest, passes);
            assert(passes(items[at[p] as int]));
        } else {
            assert forall|k: int| 0 <= k < at.len() implies #[trigger] at[k] < less.len() by {
                assert(at.contains(at[k]));
            }
            assert forall|k: int| 0 <= k < at.len() implies passes(
                less[(#[trigger] at[k]) as int],
            ) by {
                assert(at[k] < less.len());
            }
            lemma_pass_count(less, at, passes);
        }
    }
}

/// What stands at place `p` of the rank order has at least `p` other items ranked
/// no later than it, and all that come behind it ranked no earlier.
pub proof fn lemma_rank_counts<T: Ranked>(items: Seq<T>, order: Seq<usize>, p: int)
    requires
        in_order(items, order),
        0 <= p < items.len() <= usize::MAX,
    ensures
        ({
            let x = items[order[p] as int];
            &&& items.contains(x)
            &&& items.filter(|y: T| y.precedes(&x)).len() >= p + 1
            &&& items.filter(|y: T| x.precedes(&y)).len() >= items.len() - p
        }),
{
    let x = items[order[p] as int];
    T::total(&x, &x);
    assert(0 <= order[p] < items.len());
    assert(order.no_duplicates()) by {
        assert forall|i: int, j: int|
            0 <= i < order.len() && 0 <= j < order.len() && i != j implies order[i] != order[j] by {
            if i < j {
                assert(before(items, order[i], order[j]));
            } else {
                assert(before(items, order[j], order[i]));
            }
        }
    }
    let front = order.take(p + 1);
    let back = order.skip(p);
    assert forall|k: int| 0 <= k < front.len() implies #[trigger] front[k] < items.len()
        && items[front[k] as int].precedes(&x) by {
        assert(front[k] == order[k]);
        if k < p {
            assert(before(items, order[k], order[p]));
        }
    }
    assert forall|k: int| 0 <= k < back.len() implies #[trigger] back[k] < items.len()
        && x.precedes(&items[back[k] as int]) by {
        assert(back[k] == order[p + k]);
        if k > 0 {
            assert(before(items, order[p], order[p + k]));
        }
    }
    lemma_pass_count(items, front, |y: T| y.precedes(&x));
    lemma_pass_count(items, back, |y: T| x.precedes(&y));
}

/// Reading a list along its order rearranges it: every item stays, as often as
/// it was there.
pub proof fn law_order_rearranges<T: Ranked>(items: Seq<T>, order: Seq<usize>)
    requires
        in_order(items, order),
        items.len() <= usize::MAX,
    ensures
        along(items, order).to_multiset() == items.to_multiset(),
{
    let plain = Seq::new(items.len(), |i: int| i as usize);
    assert(order.no_duplicates()) by {
        assert forall|i: int, j: int|
            0 <= i < order.len() && 0 <= j < order.len() && i != j implies order[i] != order[j] by {
            if i < j {
                assert(before(items, order[i], order[j]));
            } else {
                assert(before(items, order[j], order[i]));
            }
        }
    }
    order.lemma_multiset_has_no_duplicates();
    plain.lemma_multiset_has_no_duplicates();
    assert forall|x: usize| order.to_multiset().count(x) == plain.to_multiset().count(x) by {
        vstd::seq_lib::to_multiset_contains(order, x);
        vstd::seq_lib::to_multiset_contains(plain, x);
        if order.contains(x) {
            assert(plain[x as int] == x);
        }
        if plain.contains(x) {
            assert(order.contains(x));
        }
        assert(order.contains(x) == plain.contains(x));
        if order.contains(x) {
            assert(order.to_multiset().contains(x));
            assert(plain.to_multiset().contains(x));
        }
    }
    assert(order.to_multiset() =~= plain.to_multiset());
    lemma_mapped_multiset(order, plain, |k: usize| items[k as int]);
    assert(plain.map_values(|k: usize| items[k as int]) =~= items);
}

pub proof fn lemma_mapped_multiset<A, B>(a: Seq<A>, b: Seq<A>, f: spec_fn(A) -> B)
    requires
        a.to_multiset() == b.to_multiset(),
    ensures
        a.map_values(f).to_multiset() == b.map_values(f).to_multiset(),
    decreases a.len(),
{
    vstd::seq_lib::to_multiset_len(a);
    vstd::seq_lib::to_multiset_len(b);
    if a.len() == 0 {
        assert(a.map_values(f) =~= b.map_values(f));
    } else {
        let x = a.last();
        let i = a.len() - 1;
        vstd::seq_lib::to_multiset_contains(a, x);
        vstd::seq_lib::to_multiset_contains(b, x);
        let j = choose|j: int| 0 <= j < b.len() && b[j] == x;
        vstd::seq_lib::to_multiset_remove(a, i);
        vstd::seq_lib::to_multiset_remove(b, j);
        lemma_mapped_multiset(a.remove(i), b.remove(j), f);
        let fa = a.map_values(f);
        let fb = b.map_values(f);
        vstd::seq_lib::to_multiset_remove(fa, i);
        vstd::seq_lib::to_multiset_remove(fb, j);
        assert(a.remove(i).map_values(f) =~= fa.remove(i));
        assert(b.remove(j).map_values(f) =~= fb.remove(j));
        vstd::seq_lib::to_multiset_contains(fa, fa[i]);
        vstd::seq_lib::to_multiset_contains(fb, fb[j]);
        assert(fa.to_multiset() =~= fa.remove(i).to_multiset().insert(f(x)));
        assert(fb.to_multiset() =~= fb.remove(j).to_multiset().insert(f(x)));
    }
}

impl Ranked for u64 {
    open spec fn precedes(&self, other: &Self) -> bool {
        *self <= *other
    }

    proof fn total(a: &Self, b: &Self) {
    }

    proof fn transitive(a: &Self, b: &Self, c: &Self) {
    }

    fn at_most(&self, other: &Self) -> (r: bool) {
        *self <= *other
    }
}

impl Ranked for usize {
    open spec fn precedes(&self, other: &Self) -> bool {
        *self <= *other
    }

    proof fn total(a: &Self, b: &Self) {
    }

    proof fn transitive(a: &Self, b: &Self, c: &Self) {
    }

    fn at_most(&self, other: &Self) -> (r: bool) {
        *self <= *other
    }
}

// ---------------------------------------------------------------------------
// The order of text
// ---------------------------------------------------------------------------

/// Whether `a` comes no later than `b`, character by character. UTF-8 keeps the
/// order of characters, so this is also the order of the bytes.
pub open spec fn text_at_most(a: Seq<char>, b: Seq<char>) -> bool
    decreases a.len(),
{
    if a.len() == 0 {
        true
    } else if b.len() == 0 {
        false
    } else if a[0] == b[0] {
        text_at_most(a.drop_first(), b.drop_first())
    } else {
        a[0] < b[0]
    }
}

pub proof fn lemma_text_total(a: Seq<char>, b: Seq<char>)
    ensures
        text_at_most(a, b) || text_at_most(b, a),
    decreases a.len(),
{
    if a.len() > 0 && b.len() > 0 {
        lemma_text_total(a.drop_first(), b.drop_first());
    }
}

pub proof fn lemma_text_transitive(a: Seq<char>, b: Seq<char>, c: Seq<char>)
    requires
        text_at_most(a, b),
        text_at_most(b, c),
    ensures
        text_at_most(a, c),
    decreases a.len(),
{
    if a.len() > 0 && b.len() > 0 && c.len() > 0 && a[0] == b[0] && b[0] == c[0] {
        lemma_text_transitive(a.drop_first(), b.drop_first(), c.drop_first());
    }
}

/// Two texts that come no later than each other are the same text.
pub proof fn lemma_text_antisymmetric(a: Seq<char>, b: Seq<char>)
    requires
        text_at_most(a, b),
        text_at_most(b, a),
    ensures
        a == b,
    decreases a.len(),
{
    if a.len() > 0 && b.len() > 0 {
        lemma_text_antisymmetric(a.drop_first(), b.drop_first());
        assert(a =~= seq![a[0]] + a.drop_first());
        assert(b =~= seq![b[0]] + b.drop_first());
    } else {
        assert(a =~= b);
    }
}

/// A text comes no later than another exactly where it is the front of it, or is
/// smaller in the first character that they differ in.
pub proof fn law_text_order(a: Seq<char>, b: Seq<char>, k: nat)
    requires
        k <= a.len(),
        k <= b.len(),
        a.take(k as int) == b.take(k as int),
    ensures
        k == a.len() ==> text_at_most(a, b),
        k == b.len() && k < a.len() ==> !text_at_most(a, b),
        k < a.len() && k < b.len() && a[k as int] != b[k as int] ==> (text_at_most(a, b) <==> a[
        k as int] < b[k as int]),
    decreases k,
{
    if k > 0 {
        let x = a.drop_first();
        let y = b.drop_first();
        assert(a[0] == a.take(k as int)[0] && b[0] == b.take(k as int)[0]);
        assert(x.take(k - 1) =~= y.take(k - 1)) by {
            assert forall|i: int| 0 <= i < k - 1 implies #[trigger] x.take(k - 1)[i] == y.take(
                k - 1,
            )[i] by {
                assert(a.take(k as int)[i + 1] == b.take(k as int)[i + 1]);
                assert(a.take(k as int)[i + 1] == a[i + 1] && b.take(k as int)[i + 1] == b[i + 1]);
                assert(x.take(k - 1)[i] == a[i + 1] && y.take(k - 1)[i] == b[i + 1]);
            }
        }
        law_text_order(x, y, (k - 1) as nat);
    }
}

/// `text_at_most`, computed.
pub fn at_most_text(a: &str, b: &str) -> (r: bool)
    ensures
        r == text_at_most(a@, b@),
{
    let x = crate::text::chars_of(a);
    let y = crate::text::chars_of(b);
    let mut i: usize = 0;
    assert(x@.skip(0) =~= x@);
    assert(y@.skip(0) =~= y@);
    while i < x.len() && i < y.len() && x[i] == y[i]
        invariant
            i <= x@.len(),
            i <= y@.len(),
            text_at_most(x@, y@) == text_at_most(x@.skip(i as int), y@.skip(i as int)),
        decreases x@.len() - i,
    {
        assert(x@.skip(i as int).drop_first() =~= x@.skip(i + 1));
        assert(y@.skip(i as int).drop_first() =~= y@.skip(i + 1));
        i = i + 1;
    }
    if i == x.len() {
        true
    } else if i == y.len() {
        false
    } else {
        x[i] < y[i]
    }
}

impl Ranked for String {
    open spec fn precedes(&self, other: &Self) -> bool {
        text_at_most(self@, other@)
    }

    proof fn total(a: &Self, b: &Self) {
        lemma_text_total(a@, b@);
    }

    proof fn transitive(a: &Self, b: &Self, c: &Self) {
        lemma_text_transitive(a@, b@, c@);
    }

    fn at_most(&self, other: &Self) -> (r: bool) {
        at_most_text(self.as_str(), other.as_str())
    }
}

/// A ranking names every place of its list once. What it names first ranks no later than
/// what it names after it, and equals stay as they stood.
pub proof fn law_rankings_are_sorted<T: Ranked>(items: &[T], order: Vec<usize>, i: int, j: int)
    requires
        call_ensures(ranked::<T>, (items,), order),
        0 <= i < j < order@.len(),
    ensures
        order@.len() == items@.len(),
        order@[i] < items@.len() && order@[j] < items@.len(),
        order@[i] != order@[j],
        items@[order@[i] as int].precedes(&items@[order@[j] as int]),
        items@[order@[j] as int].precedes(&items@[order@[i] as int]) ==> order@[i] < order@[j],
{
    assert(before(items@, order@[i], order@[j]));
}

/// Texts are ordered by the first character in which they differ, and one that another
/// goes on comes before it.
pub proof fn law_texts_are_ordered_by_character(a: &str, b: &str, r: bool, k: nat)
    requires
        call_ensures(at_most_text, (a, b), r),
        k <= a@.len(),
        k <= b@.len(),
        a@.take(k as int) == b@.take(k as int),
    ensures
        k == a@.len() ==> r,
        k == b@.len() && k < a@.len() ==> !r,
        k < a@.len() && k < b@.len() && a@[k as int] != b@[k as int] ==> (r <==> a@[k as int]
            < b@[k as int]),
{
    law_text_order(a@, b@, k);
}

}
