//! The widths of a scaling sweep.

use crate::scan::{trim, trimmed};
use crate::text::{number, parse_usize};
use vstd::arithmetic::power2::{lemma2_to64, lemma_pow2_strictly_increases, lemma_pow2_unfold, pow2};
use vstd::prelude::*;

verus! {

/// The number of cores a sweep goes up to: the performance cores where the
/// system names them and there is one, else the cores that are available, else
/// one.
pub open spec fn cores(named: Option<Seq<char>>, available: Option<usize>) -> nat {
    let fallback = match available {
        Some(n) => n as nat,
        None => 1,
    };
    match named {
        Some(text) => match number(trimmed(text)) {
            Some(n) => if 0 < n <= usize::MAX {
                n
            } else {
                fallback
            },
            None => fallback,
        },
        None => fallback,
    }
}

/// `cores`, computed from what the system printed of its performance cores and
/// from the parallelism it offers.
pub fn perf_cores(named: Option<&str>, available: Option<usize>) -> (n: usize)
    ensures
        n == cores(
            match named {
                Some(text) => Some(text@),
                None => None,
            },
            available,
        ),
{
    if let Some(text) = named {
        let t = trim(text);
        if let Some(n) = parse_usize(t.as_str()) {
            if n > 0 {
                return n;
            }
        }
    }
    match available {
        Some(n) => n,
        None => 1,
    }
}

/// The widths up to `max`: the powers of two, and one where there is none.
pub fn thread_counts(max: usize) -> (v: Vec<usize>)
    requires
        max <= usize::MAX / 2,
    ensures
        v@.len() > 0,
        v@[0] == 1,
        forall|i: int| 0 < i < v@.len() ==> #[trigger] v@[i] == 2 * v@[i - 1],
        forall|i: int| 0 <= i < v@.len() ==> #[trigger] v@[i] <= max || max == 0,
        2 * v@.last() > max,
        max == 0 ==> v@.len() == 1,
{
    let mut v: Vec<usize> = Vec::new();
    let mut n: usize = 1;
    while n <= max
        invariant
            max <= usize::MAX / 2,
            1 <= n <= 2 * max + 1,
            v@.len() == 0 ==> n == 1,
            v@.len() > 0 ==> v@[0] == 1 && n == 2 * v@.last(),
            forall|i: int| 0 < i < v@.len() ==> #[trigger] v@[i] == 2 * v@[i - 1],
            forall|i: int| 0 <= i < v@.len() ==> #[trigger] v@[i] <= max,
            max == 0 ==> v@.len() == 0,
        decreases 2 * max + 2 - n,
    {
        v.push(n);
        n = n * 2;
    }
    if v.len() == 0 {
        v.push(1);
    }
    v
}

/// The widths of a sweep are exactly the powers of two that do not exceed the
/// number of cores, from one on; and one in any case.
pub proof fn law_widths_are_the_powers_of_two(max: usize, v: Vec<usize>, i: nat)
    requires
        max <= usize::MAX / 2,
        call_ensures(thread_counts, (max,), v),
    ensures
        i < v@.len() <==> i == 0 || pow2(i) <= max,
        i < v@.len() ==> v@[i as int] == pow2(i),
{
    lemma_widths(v@, i);
    vstd::arithmetic::power2::lemma_pow2_pos(i);
    if i >= v@.len() {
        let last = (v@.len() - 1) as nat;
        lemma_widths(v@, last);
        lemma_pow2_unfold(v@.len());
        if i > v@.len() {
            lemma_pow2_strictly_increases(v@.len(), i);
        }
    }
}

proof fn lemma_widths(v: Seq<usize>, i: nat)
    requires
        v.len() > 0,
        v[0] == 1,
        forall|i: int| 0 < i < v.len() ==> #[trigger] v[i] == 2 * v[i - 1],
    ensures
        i < v.len() ==> v[i as int] == pow2(i),
    decreases i,
{
    lemma2_to64();
    if 0 < i < v.len() {
        lemma_widths(v, (i - 1) as nat);
        lemma_pow2_unfold(i);
        assert(v[i as int] == 2 * v[i - 1]);
    }
}

/// Where the system names its performance cores, whatever whitespace stands round the number,
/// there are that many. Where it does not, names none, or says something else, there are as
/// many as are available, and one where that is not known either.
pub proof fn law_named_cores_count(
    named: Option<&str>,
    available: Option<usize>,
    n: usize,
    text: &str,
    count: Option<usize>,
)
    requires
        call_ensures(perf_cores, (named, available), n),
        named is Some ==> text@ == trimmed(named->0@) && call_ensures(parse_usize, (text,), count),
    ensures
        ({
            let said = named is Some && count is Some && count->0 > 0;
            &&& said ==> n == count->0
            &&& !said && available is Some ==> n == available->0
            &&& !said && available is None ==> n == 1
        }),
{
}

}
