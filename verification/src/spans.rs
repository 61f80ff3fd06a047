//! The part of a rank table that byte pair merging can reach, and whether every
//! byte has a token of its own.

use crate::engine::{refused, unsupported, Unsupported};
use crate::order::{before, in_order, ranked, Ranked};
use crate::ranks::Token;
use crate::scan::{trim, trimmed};
use crate::text::{count_text, decimal, same};
use vstd::prelude::*;
use vstd::string::StringExecFns;

verus! {

// ---------------------------------------------------------------------------
// Reachable spans
// ---------------------------------------------------------------------------

/// The spans of a table.
pub open spec fn spans_of(tokens: Seq<Token>) -> Set<Seq<u8>> {
    Set::new(|s: Seq<u8>| exists|i: int| 0 <= i < tokens.len() && (#[trigger] tokens[i]).bytes@ == s)
}

/// Whether merging can build `span` out of the spans in `all`: it is one of
/// them, and it is a single byte or two such spans side by side.
pub open spec fn reachable(all: Set<Seq<u8>>, span: Seq<u8>) -> bool
    decreases span.len(),
{
    &&& all.contains(span)
    &&& span.len() <= 1 || exists|p: int|
        1 <= p < span.len() && reachable(all, #[trigger] span.take(p)) && reachable(
            all,
            span.skip(p),
        )
}

/// Whether a set of spans splits `span` in two.
pub open spec fn splits(keys: Set<Seq<u8>>, span: Seq<u8>) -> bool {
    exists|p: int|
        1 <= p < span.len() && #[trigger] keys.contains(span.take(p)) && keys.contains(span.skip(p))
}

/// Whether every span of a set that is longer than a byte splits within it.
pub open spec fn closed(keys: Set<Seq<u8>>) -> bool {
    forall|s: Seq<u8>| #[trigger] keys.contains(s) ==> s.len() <= 1 || splits(keys, s)
}

/// The reachable spans of a set.
pub open spec fn reachable_part(all: Set<Seq<u8>>) -> Set<Seq<u8>> {
    Set::new(|s: Seq<u8>| reachable(all, s))
}

/// What is reachable stays reachable without the rest: taking unreachable spans
/// away, as often as one likes, ends at the reachable part.
pub proof fn law_reachable_part_is_closed(all: Set<Seq<u8>>)
    ensures
        closed(reachable_part(all)),
        reachable_part(all).subset_of(all),
{
    let k = reachable_part(all);
    assert forall|s: Seq<u8>| #[trigger] k.contains(s) implies s.len() <= 1 || splits(k, s) by {
        if s.len() > 1 {
            let p = choose|p: int|
                1 <= p < s.len() && reachable(all, #[trigger] s.take(p)) && reachable(
                    all,
                    s.skip(p),
                );
            assert(k.contains(s.take(p)));
            assert(k.contains(s.skip(p)));
        }
    }
}

/// No larger part of a table is closed: every closed part of it is reachable.
pub proof fn law_reachable_part_is_largest(all: Set<Seq<u8>>, part: Set<Seq<u8>>)
    requires
        part.subset_of(all),
        closed(part),
    ensures
        part.subset_of(reachable_part(all)),
{
    assert forall|s: Seq<u8>| part.contains(s) implies reachable_part(all).contains(s) by {
        lemma_closed_is_reachable(all, part, s);
    }
}

proof fn lemma_closed_is_reachable(all: Set<Seq<u8>>, part: Set<Seq<u8>>, s: Seq<u8>)
    requires
        part.subset_of(all),
        closed(part),
        part.contains(s),
    ensures
        reachable(all, s),
    decreases s.len(),
{
    if s.len() > 1 {
        assert(splits(part, s));
        let p = choose|p: int|
            1 <= p < s.len() && #[trigger] part.contains(s.take(p)) && part.contains(s.skip(p));
        lemma_closed_is_reachable(all, part, s.take(p));
        lemma_closed_is_reachable(all, part, s.skip(p));
    }
}

// ---------------------------------------------------------------------------
// The order of spans
// ---------------------------------------------------------------------------

/// Whether `a` comes no later than `b`, byte by byte.
pub open spec fn span_at_most(a: Seq<u8>, b: Seq<u8>) -> bool
    decreases a.len(),
{
    if a.len() == 0 {
        true
    } else if b.len() == 0 {
        false
    } else if a[0] == b[0] {
        span_at_most(a.drop_first(), b.drop_first())
    } else {
        a[0] < b[0]
    }
}

proof fn lemma_span_total(a: Seq<u8>, b: Seq<u8>)
    ensures
        span_at_most(a, b) || span_at_most(b, a),
    decreases a.len(),
{
    if a.len() > 0 && b.len() > 0 {
        lemma_span_total(a.drop_first(), b.drop_first());
    }
}

proof fn lemma_span_transitive(a: Seq<u8>, b: Seq<u8>, c: Seq<u8>)
    requires
        span_at_most(a, b),
        span_at_most(b, c),
    ensures
        span_at_most(a, c),
    decreases a.len(),
{
    if a.len() > 0 && b.len() > 0 && c.len() > 0 && a[0] == b[0] && b[0] == c[0] {
        lemma_span_transitive(a.drop_first(), b.drop_first(), c.drop_first());
    }
}

proof fn lemma_span_antisymmetric(a: Seq<u8>, b: Seq<u8>)
    requires
        span_at_most(a, b),
        span_at_most(b, a),
    ensures
        a == b,
    decreases a.len(),
{
    if a.len() > 0 && b.len() > 0 {
        lemma_span_antisymmetric(a.drop_first(), b.drop_first());
        assert(a =~= seq![a[0]] + a.drop_first());
        assert(b =~= seq![b[0]] + b.drop_first());
    } else {
        assert(a =~= b);
    }
}

/// Whether the bytes of `a` from `from` up to `to` come no later than `b`.
fn at_most_span(a: &Vec<u8>, from: usize, to: usize, b: &Vec<u8>) -> (r: bool)
    requires
        from <= to <= a@.len(),
    ensures
        r == span_at_most(a@.subrange(from as int, to as int), b@),
{
    let mut i: usize = 0;
    let ghost x = a@.subrange(from as int, to as int);
    assert(x.skip(0) =~= x);
    assert(b@.skip(0) =~= b@);
    while i < to - from && i < b.len() && a[from + i] == b[i]
        invariant
            from <= to <= a@.len(),
            x == a@.subrange(from as int, to as int),
            i <= x.len(),
            i <= b@.len(),
            span_at_most(x, b@) == span_at_most(x.skip(i as int), b@.skip(i as int)),
        decreases x.len() - i,
    {
        assert(x.skip(i as int).drop_first() =~= x.skip(i + 1));
        assert(b@.skip(i as int).drop_first() =~= b@.skip(i + 1));
        i = i + 1;
    }
    if i == to - from {
        true
    } else if i == b.len() {
        false
    } else {
        a[from + i] < b[i]
    }
}

/// Tokens rank by their bytes.
impl Ranked for Token {
    open spec fn precedes(&self, other: &Self) -> bool {
        span_at_most(self.bytes@, other.bytes@)
    }

    proof fn total(a: &Self, b: &Self) {
        lemma_span_total(a.bytes@, b.bytes@);
    }

    proof fn transitive(a: &Self, b: &Self, c: &Self) {
        lemma_span_transitive(a.bytes@, b.bytes@, c.bytes@);
    }

    fn at_most(&self, other: &Self) -> (r: bool) {
        assert(self.bytes@.subrange(0, self.bytes@.len() as int) =~= self.bytes@);
        at_most_span(&self.bytes, 0, self.bytes.len(), &other.bytes)
    }
}

/// Whether the bytes of `a` from `from` up to `to` are those of `b`.
fn same_span(a: &Vec<u8>, from: usize, to: usize, b: &Vec<u8>) -> (r: bool)
    requires
        from <= to <= a@.len(),
    ensures
        r == (a@.subrange(from as int, to as int) == b@),
{
    if to - from != b.len() {
        return false;
    }
    let mut i: usize = 0;
    while i < b.len()
        invariant
            i <= b@.len() == to - from,
            from <= to <= a@.len(),
            forall|k: int| 0 <= k < i ==> a@[from + k] == b@[k],
        decreases b@.len() - i,
    {
        if a[from + i] != b[i] {
            assert(a@.subrange(from as int, to as int)[i as int] != b@[i as int]);
            return false;
        }
        i = i + 1;
    }
    assert(a@.subrange(from as int, to as int) =~= b@);
    true
}

/// Where a span stands in a table, found through the table's order.
fn find_span(
    tokens: &Vec<Token>,
    order: &Vec<usize>,
    a: &Vec<u8>,
    from: usize,
    to: usize,
) -> (r: Option<usize>)
    requires
        in_order(tokens@, order@),
        from <= to <= a@.len(),
    ensures
        match r {
            Some(i) => i < tokens@.len() && tokens@[i as int].bytes@ == a@.subrange(
                from as int,
                to as int,
            ),
            None => !spans_of(tokens@).contains(a@.subrange(from as int, to as int)),
        },
{
    let ghost x = a@.subrange(from as int, to as int);
    let mut lo: usize = 0;
    let mut hi: usize = order.len();
    while lo < hi
        invariant
            lo <= hi <= order@.len(),
            in_order(tokens@, order@),
            from <= to <= a@.len(),
            x == a@.subrange(from as int, to as int),
            forall|k: int|
                0 <= k < lo ==> !span_at_most(x, tokens@[#[trigger] order@[k] as int].bytes@),
            forall|k: int|
                hi <= k < order@.len() ==> span_at_most(
                    x,
                    tokens@[#[trigger] order@[k] as int].bytes@,
                ),
        decreases hi - lo,
    {
        let mid: usize = lo + (hi - lo) / 2;
        let at: usize = order[mid];
        let ghost here = tokens@[at as int].bytes@;
        if at_most_span(a, from, to, &tokens[at].bytes) {
            assert forall|k: int| mid <= k < order@.len() implies span_at_most(
                x,
                tokens@[#[trigger] order@[k] as int].bytes@,
            ) by {
                if k > mid {
                    assert(before(tokens@, order@[mid as int], order@[k]));
                    lemma_span_transitive(x, here, tokens@[order@[k] as int].bytes@);
                }
            }
            hi = mid;
        } else {
            assert forall|k: int| 0 <= k < mid + 1 implies !span_at_most(
                x,
                tokens@[#[trigger] order@[k] as int].bytes@,
            ) by {
                if k < mid && span_at_most(x, tokens@[order@[k] as int].bytes@) {
                    assert(before(tokens@, order@[k], order@[mid as int]));
                    lemma_span_transitive(x, tokens@[order@[k] as int].bytes@, here);
                }
            }
            lo = mid + 1;
        }
    }
    if lo < order.len() && same_span(a, from, to, &tokens[order[lo]].bytes) {
        return Some(order[lo]);
    }
    proof {
        if spans_of(tokens@).contains(x) {
            let i = choose|i: int| 0 <= i < tokens@.len() && (#[trigger] tokens@[i]).bytes@ == x;
            assert(order@.contains(i as usize));
            let k = choose|k: int| 0 <= k < order@.len() && order@[k] == i as usize;
            lemma_span_total(x, x);
            assert(span_at_most(x, tokens@[order@[k] as int].bytes@));
            assert(lo <= k);
            assert(lo < order@.len());
            let first = tokens@[order@[lo as int] as int].bytes@;
            if lo < k {
                assert(before(tokens@, order@[lo as int], order@[k]));
            }
            assert(span_at_most(x, first));
            lemma_span_antisymmetric(x, first);
            assert(false);
        }
    }
    None
}

// ---------------------------------------------------------------------------
// Pruning
// ---------------------------------------------------------------------------

/// The lengths of the spans of a table.
fn lengths(tokens: &Vec<Token>) -> (r: Vec<usize>)
    ensures
        r@.len() == tokens@.len(),
        forall|i: int| 0 <= i < r@.len() ==> #[trigger] r@[i] == tokens@[i].bytes@.len(),
{
    let mut r: Vec<usize> = Vec::new();
    let mut i: usize = 0;
    while i < tokens.len()
        invariant
            i <= tokens@.len(),
            r@.len() == i,
            forall|k: int| 0 <= k < i ==> #[trigger] r@[k] == tokens@[k].bytes@.len(),
        decreases tokens@.len() - i,
    {
        r.push(tokens[i].bytes.len());
        i = i + 1;
    }
    r
}

/// Whether the span at `i` is reachable, given which shorter ones are.
fn joins(tokens: &Vec<Token>, order: &Vec<usize>, live: &Vec<bool>, i: usize) -> (r: bool)
    requires
        i < tokens@.len(),
        in_order(tokens@, order@),
        live@.len() == tokens@.len(),
        forall|j: int|
            0 <= j < tokens@.len() && tokens@[j].bytes@.len() < tokens@[i as int].bytes@.len()
                ==> #[trigger] live@[j] == reachable(spans_of(tokens@), tokens@[j].bytes@),
    ensures
        r == reachable(spans_of(tokens@), tokens@[i as int].bytes@),
{
    let a = &tokens[i].bytes;
    let ghost all = spans_of(tokens@);
    let ghost x = a@;
    assert(all.contains(x)) by {
        assert(tokens@[i as int].bytes@ == x);
    }
    if a.len() <= 1 {
        return true;
    }
    let n: usize = a.len();
    let mut p: usize = 1;
    while p < n
        invariant
            1 <= p <= n == x.len(),
            x == a@,
            a == tokens@[i as int].bytes,
            i < tokens@.len(),
            all == spans_of(tokens@),
            all.contains(x),
            in_order(tokens@, order@),
            live@.len() == tokens@.len(),
            forall|j: int|
                0 <= j < tokens@.len() && tokens@[j].bytes@.len() < tokens@[i as int].bytes@.len()
                    ==> #[trigger] live@[j] == reachable(all, tokens@[j].bytes@),
            forall|q: int|
                1 <= q < p ==> !(reachable(all, #[trigger] x.take(q)) && reachable(
                    all,
                    x.skip(q),
                )),
        decreases n - p,
    {
        let left = find_span(tokens, order, a, 0, p);
        let right = find_span(tokens, order, a, p, n);
        assert(x.subrange(0, p as int) =~= x.take(p as int));
        assert(x.subrange(p as int, n as int) =~= x.skip(p as int));
        match (left, right) {
            (Some(l), Some(r)) => {
                assert(live@[l as int] == reachable(all, x.take(p as int)));
                assert(live@[r as int] == reachable(all, x.skip(p as int)));
                if live[l] && live[r] {
                    return true;
                }
            },
            _ => {},
        }
        p = p + 1;
    }
    false
}

/// Which spans of a table merging can reach.
fn live_spans(tokens: &Vec<Token>) -> (live: Vec<bool>)
    ensures
        live@.len() == tokens@.len(),
        forall|j: int|
            0 <= j < tokens@.len() ==> #[trigger] live@[j] == reachable(
                spans_of(tokens@),
                tokens@[j].bytes@,
            ),
{
    let order = ranked(tokens.as_slice());
    let sizes = lengths(tokens);
    let by_size = ranked(sizes.as_slice());
    let ghost all = spans_of(tokens@);
    let mut live: Vec<bool> = Vec::new();
    let mut i: usize = 0;
    while i < tokens.len()
        invariant
            i <= tokens@.len(),
            live@.len() == i,
        decreases tokens@.len() - i,
    {
        live.push(false);
        i = i + 1;
    }
    let mut k: usize = 0;
    while k < by_size.len()
        invariant
            k <= by_size@.len(),
            all == spans_of(tokens@),
            in_order(tokens@, order@),
            in_order(sizes@, by_size@),
            sizes@.len() == tokens@.len(),
            forall|j: int| 0 <= j < sizes@.len() ==> #[trigger] sizes@[j] == tokens@[j].bytes@.len(),
            live@.len() == tokens@.len(),
            forall|m: int|
                0 <= m < k ==> live@[#[trigger] by_size@[m] as int] == reachable(
                    all,
                    tokens@[by_size@[m] as int].bytes@,
                ),
        decreases by_size@.len() - k,
    {
        let at: usize = by_size[k];
        proof {
            assert forall|j: int|
                0 <= j < tokens@.len() && tokens@[j].bytes@.len() < tokens@[at as int].bytes@.len() implies #[trigger] live@[j]
                == reachable(all, tokens@[j].bytes@) by {
                assert(by_size@.contains(j as usize));
                let m = choose|m: int| 0 <= m < by_size@.len() && by_size@[m] == j as usize;
                if m > k {
                    assert(before(sizes@, by_size@[k as int], by_size@[m]));
                    assert(sizes@[at as int] <= sizes@[j]);
                }
                assert(m < k);
                assert(live@[by_size@[m] as int] == reachable(
                    all,
                    tokens@[by_size@[m] as int].bytes@,
                ));
            }
        }
        let found = joins(tokens, &order, &live, at);
        proof {
            assert forall|m: int| 0 <= m < k implies by_size@[m] != at by {
                assert(before(sizes@, by_size@[m], by_size@[k as int]));
            }
        }
        live.set(at, found);
        k = k + 1;
    }
    assert forall|j: int| 0 <= j < tokens@.len() implies #[trigger] live@[j] == reachable(
        all,
        tokens@[j].bytes@,
    ) by {
        assert(by_size@.contains(j as usize));
        let m = choose|m: int| 0 <= m < by_size@.len() && by_size@[m] == j as usize;
        assert(live@[by_size@[m] as int] == reachable(all, tokens@[by_size@[m] as int].bytes@));
    }
    live
}

/// The tokens of a table that merging can reach, in order.
pub open spec fn pruned(tokens: Seq<Token>) -> Seq<Token> {
    tokens.filter(|t: Token| reachable(spans_of(tokens), t.bytes@))
}

/// Drops every token that merging cannot reach.
pub fn prune(tokens: Vec<Token>) -> (r: Vec<Token>)
    ensures
        r@ == pruned(tokens@),
{
    let live = live_spans(&tokens);
    let ghost keep = |t: Token| reachable(spans_of(tokens@), t.bytes@);
    let mut rest = tokens;
    let mut backwards: Vec<Token> = Vec::new();
    let ghost all = tokens@;
    let mut i: usize = rest.len();
    assert(all.skip(i as int).filter(keep) =~= Seq::empty()) by {
        reveal(Seq::filter);
        assert(all.skip(i as int) =~= Seq::empty());
    }
    assert(all.take(i as int) =~= all);
    while i > 0
        invariant
            i <= all.len(),
            rest@ == all.take(i as int),
            live@.len() == all.len(),
            keep == (|t: Token| reachable(spans_of(all), t.bytes@)),
            forall|j: int|
                0 <= j < all.len() ==> #[trigger] live@[j] == reachable(
                    spans_of(all),
                    all[j].bytes@,
                ),
            backwards@.reverse() =~= all.skip(i as int).filter(keep),
        decreases i,
    {
        let last = rest.pop();
        i = i - 1;
        proof {
            assert(all.skip(i as int) =~= seq![all[i as int]] + all.skip(i + 1));
            Seq::filter_distributes_over_add(seq![all[i as int]], all.skip(i + 1), keep);
            reveal_with_fuel(Seq::filter, 2);
            assert(seq![all[i as int]].drop_last() =~= Seq::<Token>::empty());
        }
        match last {
            Some(t) => {
                if live[i] {
                    backwards.push(t);
                }
            },
            None => {},
        }
        assert(rest@ =~= all.take(i as int));
    }
    assert(all.skip(0) =~= all);
    let mut r: Vec<Token> = Vec::new();
    let ghost want = backwards@.reverse();
    let mut left: usize = backwards.len();
    assert(want.take(0) =~= Seq::empty());
    while left > 0
        invariant
            left <= want.len(),
            want.len() - left == r@.len(),
            backwards@ =~= want.reverse().take(left as int),
            r@ =~= want.take(want.len() - left),
        decreases left,
    {
        let last = backwards.pop();
        left = left - 1;
        match last {
            Some(t) => {
                assert(t == want[want.len() - 1 - left]);
                r.push(t);
            },
            None => {},
        }
    }
    assert(want.take(want.len() as int) =~= want);
    r
}

// ---------------------------------------------------------------------------
// Single bytes
// ---------------------------------------------------------------------------

/// The bytes that have a token of their own, each with its rank, in order.
pub open spec fn singles(tokens: Seq<Token>) -> Seq<(u8, u32)>
    decreases tokens.len(),
{
    if tokens.len() == 0 {
        Seq::empty()
    } else if tokens.last().bytes@.len() == 1 {
        singles(tokens.drop_last()).push((tokens.last().bytes@[0], tokens.last().rank))
    } else {
        singles(tokens.drop_last())
    }
}

/// The ranks of the single bytes.
pub open spec fn single_ranks(tokens: Seq<Token>) -> Seq<u32> {
    singles(tokens).map_values(|p: (u8, u32)| p.1)
}

/// What is said of a table that lacks bytes, or gives two the same rank.
pub open spec fn lacking(found: nat, distinct: nat) -> Seq<char> {
    "vocabulary has "@ + decimal(found) + " single-byte tokens over "@ + decimal(distinct)
        + " distinct ids; wordchipper needs a 1:1 table for all 256 bytes"@
}

/// How many different values a list in rank order holds.
fn distinct_along(items: &Vec<u64>, order: &Vec<usize>) -> (n: usize)
    requires
        in_order(items@, order@),
    ensures
        n == items@.to_set().len(),
{
    let ghost row = crate::order::along(items@, order@);
    let mut n: usize = 0;
    let mut k: usize = 0;
    assert(row.take(0).to_set() =~= Set::empty());
    while k < order.len()
        invariant
            k <= order@.len(),
            n <= k,
            in_order(items@, order@),
            row == crate::order::along(items@, order@),
            n == row.take(k as int).to_set().len(),
        decreases order@.len() - k,
    {
        let x: u64 = items[order[k]];
        let fresh: bool = k == 0 || items[order[k - 1]] != x;
        proof {
            let done = row.take(k as int);
            vstd::seq_lib::seq_to_set_is_finite(done);
            assert(row.take(k + 1) =~= done.push(x));
            lemma_pushed_set(done, x);
            if fresh {
                if done.to_set().contains(x) {
                    let i = choose|i: int| 0 <= i < done.len() && done[i] == x;
                    assert(items@[order@[i] as int] == x);
                    if i < k - 1 {
                        assert(before(items@, order@[i], order@[k - 1]));
                    }
                    assert(before(items@, order@[k - 1], order@[k as int]));
                    assert(false);
                }
            } else {
                assert(done[k - 1] == x);
                assert(done.to_set().contains(x));
            }
        }
        if fresh {
            n = n + 1;
        }
        k = k + 1;
    }
    assert(row.take(row.len() as int) =~= row);
    assert(row.to_set() =~= items@.to_set()) by {
        assert forall|y: u64| items@.to_set().contains(y) implies row.to_set().contains(y) by {
            let i = choose|i: int| 0 <= i < items@.len() && items@[i] == y;
            assert(order@.contains(i as usize));
            let j = choose|j: int| 0 <= j < order@.len() && order@[j] == i as usize;
            assert(row[j] == y);
        }
        assert forall|y: u64| row.to_set().contains(y) implies items@.to_set().contains(y) by {
            let j = choose|j: int| 0 <= j < row.len() && row[j] == y;
            assert(items@[order@[j] as int] == y);
        }
    }
    n
}

/// Ranks as wider numbers are as many as before.
proof fn lemma_widened(ranks: Seq<u32>)
    ensures
        ranks.map_values(|r: u32| r as u64).to_set().len() == ranks.to_set().len(),
    decreases ranks.len(),
{
    let wide = ranks.map_values(|r: u32| r as u64);
    vstd::seq_lib::seq_to_set_is_finite(ranks);
    vstd::seq_lib::seq_to_set_is_finite(wide);
    if ranks.len() == 0 {
        assert(wide.to_set() =~= Set::empty());
        assert(ranks.to_set() =~= Set::empty());
    } else {
        let less = ranks.drop_last();
        let x = ranks.last();
        lemma_widened(less);
        let wide_less = less.map_values(|r: u32| r as u64);
        vstd::seq_lib::seq_to_set_is_finite(less);
        vstd::seq_lib::seq_to_set_is_finite(wide_less);
        assert(ranks =~= less.push(x));
        assert(wide =~= wide_less.push(x as u64));
        lemma_pushed_set(less, x);
        lemma_pushed_set(wide_less, x as u64);
        if less.contains(x) {
            let i = choose|i: int| 0 <= i < less.len() && less[i] == x;
            assert(wide_less[i] == x as u64);
        }
        if wide_less.contains(x as u64) {
            let i = choose|i: int| 0 <= i < wide_less.len() && wide_less[i] == x as u64;
            assert(less[i] == x);
        }
    }
}

proof fn lemma_pushed_set<A>(s: Seq<A>, x: A)
    ensures
        s.push(x).to_set() == s.to_set().insert(x),
{
    assert forall|y: A| s.to_set().insert(x).contains(y) implies s.push(x).to_set().contains(y) by {
        if y == x {
            assert(s.push(x)[s.len() as int] == x);
        } else {
            let i = choose|i: int| 0 <= i < s.len() && s[i] == y;
            assert(s.push(x)[i] == y);
        }
    }
    assert forall|y: A| s.push(x).to_set().contains(y) implies s.to_set().insert(x).contains(y) by {
        let i = choose|i: int| 0 <= i < s.push(x).len() && s.push(x)[i] == y;
        if i < s.len() {
            assert(s[i] == y);
        }
    }
    assert(s.push(x).to_set() =~= s.to_set().insert(x));
}

/// Whether every byte has a token of its own, with a rank of its own.
pub fn check_bytes(tokens: &Vec<Token>) -> (r: Result<(), Unsupported>)
    ensures
        ({
            let found = single_ranks(tokens@).len();
            let distinct = single_ranks(tokens@).to_set().len();
            if found == 256 && distinct == 256 {
                r is Ok
            } else {
                refused(r, lacking(found, distinct))
            }
        }),
{
    let mut wide: Vec<u64> = Vec::new();
    let mut i: usize = 0;
    assert(tokens@.take(0) =~= Seq::empty());
    assert(single_ranks(tokens@.take(0)).map_values(|r: u32| r as u64) =~= wide@);
    while i < tokens.len()
        invariant
            i <= tokens@.len(),
            wide@ == single_ranks(tokens@.take(i as int)).map_values(|r: u32| r as u64),
        decreases tokens@.len() - i,
    {
        assert(tokens@.take(i + 1).drop_last() =~= tokens@.take(i as int));
        if tokens[i].bytes.len() == 1 {
            wide.push(tokens[i].rank as u64);
        }
        assert(single_ranks(tokens@.take(i + 1)).map_values(|r: u32| r as u64) =~= wide@);
        i = i + 1;
    }
    assert(tokens@.take(tokens@.len() as int) =~= tokens@);
    let order = ranked(wide.as_slice());
    let distinct = distinct_along(&wide, &order);
    proof {
        lemma_widened(single_ranks(tokens@));
    }
    let found: usize = wide.len();
    if found == 256 && distinct == 256 {
        return Ok(());
    }
    let mut msg = "vocabulary has ".to_owned();
    let first = count_text(found);
    let second = count_text(distinct);
    msg.append(first.as_str());
    msg.append(" single-byte tokens over ");
    msg.append(second.as_str());
    msg.append(" distinct ids; wordchipper needs a 1:1 table for all 256 bytes");
    unsupported(msg.as_str())
}

/// Whether no span is listed twice.
pub open spec fn distinct_spans(tokens: Seq<Token>) -> bool {
    forall|i: int, j: int|
        0 <= i < j < tokens.len() ==> (#[trigger] tokens[i]).bytes@ != (#[trigger] tokens[j]).bytes@
}

/// The bytes with a token of their own, as numbers.
spec fn single_bytes(tokens: Seq<Token>) -> Seq<int> {
    singles(tokens).map_values(|p: (u8, u32)| p.0 as int)
}

proof fn lemma_single_bytes(tokens: Seq<Token>)
    requires
        distinct_spans(tokens),
    ensures
        single_bytes(tokens).no_duplicates(),
        forall|b: u8|
            single_bytes(tokens).contains(b as int) ==> exists|i: int|
                0 <= i < tokens.len() && (#[trigger] tokens[i]).bytes@ == seq![b],
    decreases tokens.len(),
{
    if tokens.len() > 0 {
        let less = tokens.drop_last();
        let last = tokens.last();
        lemma_single_bytes(less);
        assert forall|b: u8| single_bytes(tokens).contains(b as int) implies exists|i: int|
            0 <= i < tokens.len() && (#[trigger] tokens[i]).bytes@ == seq![b] by {
            if single_bytes(less).contains(b as int) {
                let i = choose|i: int| 0 <= i < less.len() && (#[trigger] less[i]).bytes@ == seq![b];
                assert(tokens[i].bytes@ == seq![b]);
            } else {
                let k = choose|k: int|
                    0 <= k < single_bytes(tokens).len() && single_bytes(tokens)[k] == b as int;
                if k < single_bytes(less).len() {
                    assert(single_bytes(less)[k] == b as int);
                }
                assert(last.bytes@ =~= seq![b]);
                assert(tokens[tokens.len() - 1].bytes@ == seq![b]);
            }
        }
        if last.bytes@.len() == 1 {
            let b = last.bytes@[0];
            assert(single_bytes(tokens) =~= single_bytes(less).push(b as int));
            if single_bytes(less).contains(b as int) {
                let i = choose|i: int| 0 <= i < less.len() && (#[trigger] less[i]).bytes@ == seq![b];
                assert(last.bytes@ =~= seq![b]);
                assert(tokens[i].bytes@ != tokens[tokens.len() - 1].bytes@);
                assert(false);
            }
            assert(single_bytes(tokens).no_duplicates());
        } else {
            assert(single_bytes(tokens) =~= single_bytes(less));
        }
    }
}

/// A table that passes, with no span listed twice, holds every byte, and no two
/// bytes share a rank.
pub proof fn law_byte_table(tokens: Seq<Token>)
    requires
        distinct_spans(tokens),
        single_ranks(tokens).len() == 256,
        single_ranks(tokens).to_set().len() == 256,
    ensures
        forall|b: u8| #[trigger] spans_of(tokens).contains(seq![b]),
        single_ranks(tokens).no_duplicates(),
{
    lemma_single_bytes(tokens);
    single_ranks(tokens).lemma_no_dup_set_cardinality();
    let found = single_bytes(tokens);
    let whole = vstd::set_lib::set_int_range(0, 256);
    vstd::set_lib::lemma_int_range(0, 256);
    found.unique_seq_to_set();
    assert forall|b: int| found.to_set().contains(b) implies whole.contains(b) by {
        let k = choose|k: int| 0 <= k < found.len() && found[k] == b;
        assert(found[k] == singles(tokens)[k].0 as int);
    }
    vstd::set_lib::lemma_subset_equality(found.to_set(), whole);
    assert forall|b: u8| #[trigger] spans_of(tokens).contains(seq![b]) by {
        assert(whole.contains(b as int));
        assert(found.to_set().contains(b as int));
        assert(found.contains(b as int));
    }
}

// ---------------------------------------------------------------------------
// Patterns
// ---------------------------------------------------------------------------

/// A pattern that a library has built in under another spelling.
#[derive(Clone, Copy, Debug, PartialEq, Eq, Structural)]
pub enum Spelling {
    Gpt2,
    Cl100kBase,
}

pub const GPT2_PATTERN: &'static str =
    "'s|'t|'re|'ve|'m|'ll|'d| ?\\p{L}+| ?\\p{N}+| ?[^\\s\\p{L}\\p{N}]+|\\s+(?!\\S)|\\s+";

pub const CL100K_BASE_PATTERN: &'static str =
    "(?i:'s|'t|'re|'ve|'m|'ll|'d)|[^\\r\\n\\p{L}\\p{N}]?\\p{L}+|\\p{N}{1,3}| ?[^\\s\\p{L}\\p{N}]+[\\r\\n]*|\\s*[\\r\\n]+|\\s+(?!\\S)|\\s+";

/// The built-in pattern that a pattern file spells, if it spells one.
pub open spec fn spelling_of(raw: Seq<char>) -> Option<Spelling> {
    if trimmed(raw) == GPT2_PATTERN@ {
        Some(Spelling::Gpt2)
    } else if trimmed(raw) == CL100K_BASE_PATTERN@ {
        Some(Spelling::Cl100kBase)
    } else {
        None
    }
}

/// `spelling_of`, computed.
pub fn known_spelling(raw: &str) -> (r: Option<Spelling>)
    ensures
        r == spelling_of(raw@),
{
    let pattern = trim(raw);
    if same(pattern.as_str(), GPT2_PATTERN) {
        Some(Spelling::Gpt2)
    } else if same(pattern.as_str(), CL100K_BASE_PATTERN) {
        Some(Spelling::Cl100kBase)
    } else {
        None
    }
}

// ---------------------------------------------------------------------------
// What the answers are
// ---------------------------------------------------------------------------

/// Pruning keeps tokens or drops them, all with the same bytes alike, and changes
/// neither the tokens nor their order.
pub proof fn law_pruning_keeps_or_drops(tokens: Vec<Token>, r: Vec<Token>)
    requires
        call_ensures(prune, (tokens,), r),
    ensures
        r@ == tokens@.filter(|t: Token| exists|i: int|
            0 <= i < r@.len() && (#[trigger] r@[i]).bytes@ == t.bytes@),
{
    let keep = |t: Token| reachable(spans_of(tokens@), t.bytes@);
    let left = |t: Token| exists|i: int| 0 <= i < r@.len() && (#[trigger] r@[i]).bytes@ == t.bytes@;
    assert(r@ == tokens@.filter(keep));
    assert forall|t: Token| tokens@.contains(t) implies keep(t) == left(t) by {
        if keep(t) {
            lemma_filtered(tokens@, keep, t);
            let i = choose|i: int| 0 <= i < r@.len() && r@[i] == t;
            assert(r@[i].bytes@ == t.bytes@);
        }
        if left(t) {
            let i = choose|i: int| 0 <= i < r@.len() && (#[trigger] r@[i]).bytes@ == t.bytes@;
            assert(r@.contains(r@[i]));
            lemma_filtered(tokens@, keep, r@[i]);
        }
    }
    lemma_same_filter(tokens@, keep, left);
}

proof fn lemma_filtered(s: Seq<Token>, keep: spec_fn(Token) -> bool, t: Token)
    ensures
        s.filter(keep).contains(t) <==> s.contains(t) && keep(t),
    decreases s.len(),
{
    reveal(Seq::filter);
    if s.len() > 0 {
        let less = s.drop_last();
        let (f, g) = (s.filter(keep), less.filter(keep));
        lemma_filtered(less, keep, t);
        if s.contains(t) && keep(t) {
            let i = choose|i: int| 0 <= i < s.len() && s[i] == t;
            if i < less.len() {
                assert(less[i] == t);
                let k = choose|k: int| 0 <= k < g.len() && g[k] == t;
                assert(f[k] == t);
            } else {
                assert(f[f.len() - 1] == t);
            }
        }
        if f.contains(t) {
            let k = choose|k: int| 0 <= k < f.len() && f[k] == t;
            if k < g.len() {
                assert(g[k] == t);
                let i = choose|i: int| 0 <= i < less.len() && less[i] == t;
                assert(s[i] == t);
            } else {
                assert(s[s.len() - 1] == t);
            }
        }
    }
}

proof fn lemma_same_filter(
    s: Seq<Token>,
    a: spec_fn(Token) -> bool,
    b: spec_fn(Token) -> bool,
)
    requires
        forall|t: Token| s.contains(t) ==> a(t) == b(t),
    ensures
        s.filter(a) == s.filter(b),
    decreases s.len(),
{
    reveal(Seq::filter);
    if s.len() > 0 {
        let less = s.drop_last();
        assert forall|t: Token| less.contains(t) implies a(t) == b(t) by {
            let i = choose|i: int| 0 <= i < less.len() && less[i] == t;
            assert(s[i] == t);
            assert(s.contains(t));
        }
        assert(s[s.len() - 1] == s.last());
        assert(s.contains(s.last()));
        lemma_same_filter(less, a, b);
    }
}

/// What is left after pruning can be merged: every token of more than one byte is two
/// of the others, side by side.
pub proof fn law_pruned_tokens_can_be_merged(tokens: Vec<Token>, r: Vec<Token>, i: int)
    requires
        call_ensures(prune, (tokens,), r),
        0 <= i < r@.len(),
        r@[i].bytes@.len() > 1,
    ensures
        exists|j: int, k: int|
            0 <= j < r@.len() && 0 <= k < r@.len() && r@[i].bytes@ == (#[trigger] r@[j]).bytes@ + (
            #[trigger] r@[k]).bytes@ && r@[j].bytes@.len() > 0 && r@[k].bytes@.len() > 0,
{
    let all = spans_of(tokens@);
    let keep = |t: Token| reachable(all, t.bytes@);
    let s = r@[i].bytes@;
    assert(r@.contains(r@[i]));
    lemma_filtered(tokens@, keep, r@[i]);
    let p = choose|p: int|
        1 <= p < s.len() && reachable(all, #[trigger] s.take(p)) && reachable(all, s.skip(p));
    lemma_kept_span(tokens@, r@, s.take(p));
    lemma_kept_span(tokens@, r@, s.skip(p));
    let j = choose|j: int| 0 <= j < r@.len() && (#[trigger] r@[j]).bytes@ == s.take(p);
    let k = choose|k: int| 0 <= k < r@.len() && (#[trigger] r@[k]).bytes@ == s.skip(p);
    assert(s.take(p) + s.skip(p) =~= s);
    assert(r@[i].bytes@ == r@[j].bytes@ + r@[k].bytes@);
}

proof fn lemma_kept_span(tokens: Seq<Token>, r: Seq<Token>, s: Seq<u8>)
    requires
        r == pruned(tokens),
    ensures
        reachable(spans_of(tokens), s) <==> exists|i: int|
            0 <= i < r.len() && (#[trigger] r[i]).bytes@ == s,
{
    let all = spans_of(tokens);
    let keep = |t: Token| reachable(all, t.bytes@);
    assert(r == tokens.filter(keep));
    if reachable(all, s) {
        assert(all.contains(s));
        let i = choose|i: int| 0 <= i < tokens.len() && (#[trigger] tokens[i]).bytes@ == s;
        assert(tokens.contains(tokens[i]));
        lemma_filtered(tokens, keep, tokens[i]);
        let j = choose|j: int| 0 <= j < r.len() && r[j] == tokens[i];
        assert(r[j].bytes@ == s);
    }
    if exists|i: int| 0 <= i < r.len() && (#[trigger] r[i]).bytes@ == s {
        let i = choose|i: int| 0 <= i < r.len() && (#[trigger] r[i]).bytes@ == s;
        assert(r.contains(r[i]));
        lemma_filtered(tokens, keep, r[i]);
    }
}

/// Pruning drops no more than it must: a token of at most one byte stays, and so does
/// one that is two tokens which stay, side by side.
pub proof fn law_pruning_keeps_what_can_be_merged(
    tokens: Vec<Token>,
    r: Vec<Token>,
    t: Token,
    j: int,
    k: int,
)
    requires
        call_ensures(prune, (tokens,), r),
        tokens@.contains(t),
        t.bytes@.len() <= 1 || (0 <= j < r@.len() && 0 <= k < r@.len() && t.bytes@
            == r@[j].bytes@ + r@[k].bytes@ && r@[j].bytes@.len() > 0 && r@[k].bytes@.len() > 0),
    ensures
        r@.contains(t),
{
    let all = spans_of(tokens@);
    let keep = |t: Token| reachable(all, t.bytes@);
    let s = t.bytes@;
    let i = choose|i: int| 0 <= i < tokens@.len() && tokens@[i] == t;
    assert(tokens@[i].bytes@ == s);
    assert(all.contains(s));
    if s.len() > 1 {
        let (a, b) = (r@[j].bytes@, r@[k].bytes@);
        let p = a.len() as int;
        assert(s.take(p) =~= a);
        assert(s.skip(p) =~= b);
        assert(r@[j].bytes@ == s.take(p));
        assert(r@[k].bytes@ == s.skip(p));
        lemma_kept_span(tokens@, r@, s.take(p));
        lemma_kept_span(tokens@, r@, s.skip(p));
    }
    assert(reachable(all, s));
    lemma_filtered(tokens@, keep, t);
}

/// Spans are ordered by the first byte in which they differ, and one that another goes
/// on comes before it.
pub proof fn law_order_of_spans(a: Token, b: Token, r: bool, n: int)
    requires
        call_ensures(<Token as Ranked>::at_most, (&a, &b), r),
        0 <= n <= a.bytes@.len(),
        n <= b.bytes@.len(),
        a.bytes@.take(n) == b.bytes@.take(n),
    ensures
        n == a.bytes@.len() ==> r,
        n == b.bytes@.len() && n < a.bytes@.len() ==> !r,
        n < a.bytes@.len() && n < b.bytes@.len() && a.bytes@[n] < b.bytes@[n] ==> r,
        n < a.bytes@.len() && n < b.bytes@.len() && a.bytes@[n] > b.bytes@[n] ==> !r,
{
    lemma_same_start(a.bytes@, b.bytes@, n);
}

proof fn lemma_same_start(a: Seq<u8>, b: Seq<u8>, n: int)
    requires
        0 <= n <= a.len(),
        n <= b.len(),
        a.take(n) == b.take(n),
    ensures
        n == a.len() ==> span_at_most(a, b),
        n == b.len() && n < a.len() ==> !span_at_most(a, b),
        n < a.len() && n < b.len() && a[n] < b[n] ==> span_at_most(a, b),
        n < a.len() && n < b.len() && a[n] > b[n] ==> !span_at_most(a, b),
    decreases n,
{
    if n > 0 {
        assert(a.take(n)[0] == a[0]);
        assert(b.take(n)[0] == b[0]);
        let (x, y) = (a.drop_first(), b.drop_first());
        assert(x.take(n - 1) =~= a.take(n).drop_first());
        assert(y.take(n - 1) =~= b.take(n).drop_first());
        lemma_same_start(x, y, n - 1);
    }
}

proof fn lemma_single_filter(tokens: Seq<Token>)
    ensures
        single_ranks(tokens) == tokens.filter(|t: Token| t.bytes@.len() == 1).map_values(
            |t: Token| t.rank,
        ),
    decreases tokens.len(),
{
    reveal(Seq::filter);
    let one = |t: Token| t.bytes@.len() == 1;
    let rank = |t: Token| t.rank;
    if tokens.len() > 0 {
        let less = tokens.drop_last();
        lemma_single_filter(less);
        if tokens.last().bytes@.len() == 1 {
            assert(single_ranks(tokens) =~= single_ranks(less).push(tokens.last().rank));
            assert(tokens.filter(one) == less.filter(one).push(tokens.last()));
            assert(less.filter(one).push(tokens.last()).map_values(rank) =~= less.filter(
                one,
            ).map_values(rank).push(tokens.last().rank));
        } else {
            assert(single_ranks(tokens) =~= single_ranks(less));
        }
    } else {
        assert(single_ranks(tokens) =~= tokens.filter(one).map_values(rank));
    }
}

/// A table passes exactly where it has as many tokens of one byte as there are bytes,
/// and as many ranks among them; else it is said how many there are of each.
pub proof fn law_byte_tables_are_counted(tokens: &Vec<Token>, r: Result<(), Unsupported>)
    requires
        call_ensures(check_bytes, (tokens,), r),
    ensures
        ({
            let ones = tokens@.filter(|t: Token| t.bytes@.len() == 1);
            let ranks = ones.map_values(|t: Token| t.rank).to_set();
            &&& r is Ok <==> ones.len() == 256 && ranks.len() == 256
            &&& r is Err ==> r->Err_0.0@ == "vocabulary has "@ + decimal(ones.len())
                + " single-byte tokens over "@ + decimal(ranks.len())
                + " distinct ids; wordchipper needs a 1:1 table for all 256 bytes"@
        }),
{
    lemma_single_filter(tokens@);
    let ones = tokens@.filter(|t: Token| t.bytes@.len() == 1);
    assert(ones.map_values(|t: Token| t.rank).len() == ones.len());
}

/// A pattern is known by what it spells, whatever whitespace stands round it, and by
/// nothing else.
pub proof fn law_patterns_are_known_by_their_text(raw: &str, pattern: String, r: Option<Spelling>)
    requires
        call_ensures(known_spelling, (raw,), r),
        call_ensures(trim, (raw,), pattern),
    ensures
        r == Some(Spelling::Gpt2) <==> pattern@
            == "'s|'t|'re|'ve|'m|'ll|'d| ?\\p{L}+| ?\\p{N}+| ?[^\\s\\p{L}\\p{N}]+|\\s+(?!\\S)|\\s+"@,
        r == Some(Spelling::Cl100kBase) ==> pattern@
            == "(?i:'s|'t|'re|'ve|'m|'ll|'d)|[^\\r\\n\\p{L}\\p{N}]?\\p{L}+|\\p{N}{1,3}| ?[^\\s\\p{L}\\p{N}]+[\\r\\n]*|\\s*[\\r\\n]+|\\s+(?!\\S)|\\s+"@,
        r is None ==> pattern@
            != "(?i:'s|'t|'re|'ve|'m|'ll|'d)|[^\\r\\n\\p{L}\\p{N}]?\\p{L}+|\\p{N}{1,3}| ?[^\\s\\p{L}\\p{N}]+[\\r\\n]*|\\s*[\\r\\n]+|\\s+(?!\\S)|\\s+"@,
{
}

}
