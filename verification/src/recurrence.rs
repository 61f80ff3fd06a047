//! Synthetic text with a chosen rate of repetition.
//!
//! Words are sampled uniformly from a vocabulary, without replacement, and the
//! text is drawn uniformly from the sample, so that only repetition varies
//! across a sweep.

use crate::order::{along, before, in_order, law_order_rearranges, lemma_mapped_multiset,
    lemma_text_antisymmetric, lemma_text_transitive, ranked, text_at_most, Ranked};
use crate::scan::{contents, split_words, words};
use crate::text::{byte_count, byte_len, lemma_bytes_concat, lemma_bytes_push, same};
use vstd::prelude::*;
use vstd::string::StringExecFns;

verus! {

// ---------------------------------------------------------------------------
// Vocabulary
// ---------------------------------------------------------------------------

/// How often `w` stands in a list of words.
pub open spec fn occurrences(list: Seq<Seq<char>>, w: Seq<char>) -> nat {
    list.to_multiset().count(w)
}

/// Whether `a` comes before `b` in a vocabulary: the more frequent word first,
/// and of two equally frequent ones the smaller.
pub open spec fn comes_first(list: Seq<Seq<char>>, a: Seq<char>, b: Seq<char>) -> bool {
    occurrences(list, a) > occurrences(list, b) || (occurrences(list, a) == occurrences(list, b)
        && a != b && text_at_most(a, b))
}

/// Whether `v` is the vocabulary of a list of words: each of them once, in
/// order.
pub open spec fn is_vocabulary(list: Seq<Seq<char>>, v: Seq<Seq<char>>) -> bool {
    &&& forall|w: Seq<char>| #[trigger] v.contains(w) <==> list.contains(w)
    &&& forall|i: int, j: int|
        0 <= i < j < v.len() ==> comes_first(list, #[trigger] v[i], #[trigger] v[j])
}

/// A vocabulary holds no word twice.
pub proof fn law_vocabulary_is_distinct(list: Seq<Seq<char>>, v: Seq<Seq<char>>)
    requires
        is_vocabulary(list, v),
    ensures
        v.no_duplicates(),
{
    assert forall|i: int, j: int|
        0 <= i < v.len() && 0 <= j < v.len() && i != j implies v[i] != v[j] by {
        if i < j {
            assert(comes_first(list, v[i], v[j]));
        } else {
            assert(comes_first(list, v[j], v[i]));
        }
    }
}

/// How often a word was seen; the more often, the earlier it ranks.
#[derive(Clone, Copy)]
struct Seen {
    times: usize,
}

impl Ranked for Seen {
    closed spec fn precedes(&self, other: &Self) -> bool {
        self.times >= other.times
    }

    proof fn total(a: &Self, b: &Self) {
    }

    proof fn transitive(a: &Self, b: &Self, c: &Self) {
    }

    fn at_most(&self, other: &Self) -> (r: bool) {
        self.times >= other.times
    }
}

/// The words at the given positions of a list.
spec fn heads_of(list: Seq<String>, heads: Seq<usize>) -> Seq<Seq<char>> {
    heads.map_values(|k: usize| list[k as int]@)
}

/// Whether `heads` and `seen` tally the words of `p`: one position per word,
/// smaller words first, with the number of times.
spec fn tallied(
    list: Seq<String>,
    p: Seq<Seq<char>>,
    heads: Seq<usize>,
    seen: Seq<Seen>,
) -> bool {
    let h = heads_of(list, heads);
    &&& heads.len() == seen.len()
    &&& forall|k: int| 0 <= k < heads.len() ==> #[trigger] heads[k] < list.len()
    &&& forall|a: int, b: int|
        0 <= a < b < h.len() ==> text_at_most(#[trigger] h[a], #[trigger] h[b]) && h[a] != h[b]
    &&& forall|w: Seq<char>| #[trigger] p.contains(w) <==> h.contains(w)
    &&& forall|k: int|
        0 <= k < seen.len() ==> (#[trigger] seen[k]).times == occurrences(p, h[k])
            && seen[k].times <= p.len()
    &&& p.len() > 0 ==> h.len() > 0 && h.last() == p.last()
    &&& p.len() == 0 ==> h.len() == 0
}

proof fn lemma_contains_push(p: Seq<Seq<char>>, w: Seq<char>)
    ensures
        forall|x: Seq<char>| #[trigger] p.push(w).contains(x) <==> p.contains(x) || x == w,
        forall|x: Seq<char>|
            #[trigger] occurrences(p.push(w), x) == occurrences(p, x) + if x == w {
                1nat
            } else {
                0
            },
{
    assert forall|x: Seq<char>| #[trigger] p.push(w).contains(x) <==> p.contains(x) || x == w by {
        if p.contains(x) {
            let k = choose|k: int| 0 <= k < p.len() && p[k] == x;
            assert(p.push(w)[k] == x);
        }
        if x == w {
            assert(p.push(w)[p.len() as int] == x);
        }
    }
    vstd::seq_lib::to_multiset_build(p, w);
}

proof fn lemma_tally_same(
    list: Seq<String>,
    p: Seq<Seq<char>>,
    heads: Seq<usize>,
    seen: Seq<Seen>,
    w: Seq<char>,
)
    requires
        tallied(list, p, heads, seen),
        heads.len() > 0,
        heads_of(list, heads).last() == w,
        p.len() > 0,
    ensures
        tallied(
            list,
            p.push(w),
            heads,
            seen.update(seen.len() - 1, Seen { times: (seen.last().times + 1) as usize }),
        ) || p.len() >= usize::MAX,
{
    if p.len() < usize::MAX {
        lemma_contains_push(p, w);
        let h = heads_of(list, heads);
        let more = seen.update(seen.len() - 1, Seen { times: (seen.last().times + 1) as usize });
        assert forall|x: Seq<char>| #[trigger] p.push(w).contains(x) <==> h.contains(x) by {
            assert(h[h.len() - 1] == w);
        }
        assert forall|k: int| 0 <= k < more.len() implies (#[trigger] more[k]).times == occurrences(
            p.push(w),
            h[k],
        ) && more[k].times <= p.push(w).len() by {
            assert(seen[k].times == occurrences(p, h[k]));
            if k < more.len() - 1 {
                assert(h[k] != h[h.len() - 1]);
            }
        }
    }
}

proof fn lemma_tally_new(
    list: Seq<String>,
    p: Seq<Seq<char>>,
    heads: Seq<usize>,
    seen: Seq<Seen>,
    at: usize,
)
    requires
        tallied(list, p, heads, seen),
        at < list.len(),
        p.len() > 0 ==> p.last() != list[at as int]@ && text_at_most(p.last(), list[at as int]@),
    ensures
        tallied(list, p.push(list[at as int]@), heads.push(at), seen.push(Seen { times: 1 })),
{
    let w = list[at as int]@;
    let h = heads_of(list, heads);
    let g = heads_of(list, heads.push(at));
    let more = seen.push(Seen { times: 1 });
    assert(g =~= h.push(w));
    lemma_contains_push(p, w);
    lemma_contains_push(h, w);
    assert forall|k: int| 0 <= k < h.len() implies text_at_most(#[trigger] h[k], w) && h[k] != w by {
        if k < h.len() - 1 {
            assert(text_at_most(h[k], h[h.len() - 1]));
            lemma_text_transitive(h[k], h.last(), w);
            if h[k] == w {
                lemma_text_antisymmetric(h.last(), w);
            }
        }
    }
    assert(!h.contains(w));
    assert(!p.contains(w));
    vstd::seq_lib::to_multiset_contains(p, w);
    assert forall|a: int, b: int| 0 <= a < b < g.len() implies text_at_most(
        #[trigger] g[a],
        #[trigger] g[b],
    ) && g[a] != g[b] by {
        assert(g[a] == h[a]);
        if b < h.len() {
            assert(g[b] == h[b]);
        }
    }
    assert forall|k: int| 0 <= k < more.len() implies (#[trigger] more[k]).times == occurrences(
        p.push(w),
        g[k],
    ) && more[k].times <= p.push(w).len() by {
        if k < seen.len() {
            assert(seen[k].times == occurrences(p, h[k]));
            assert(g[k] == h[k]);
        }
    }
}

/// Distinct whitespace-separated words of `text`, most frequent first.
pub fn vocabulary(text: &str) -> (r: Vec<String>)
    ensures
        is_vocabulary(words(text@), contents(r@)),
{
    let list = split_words(text);
    let order = ranked(list.as_slice());
    let n: usize = order.len();
    let ghost sorted = contents(along(list@, order@));
    proof {
        law_order_rearranges(list@, order@);
        lemma_mapped_multiset(along(list@, order@), list@, |s: String| s@);
    }
    let mut heads: Vec<usize> = Vec::new();
    let mut seen: Vec<Seen> = Vec::new();
    let mut i: usize = 0;
    assert(sorted.take(0) =~= Seq::empty());
    while i < n
        invariant
            i <= n,
            n == order@.len() == list@.len(),
            in_order(list@, order@),
            sorted == contents(along(list@, order@)),
            tallied(list@, sorted.take(i as int), heads@, seen@),
        decreases n - i,
    {
        let at: usize = order[i];
        let ghost p = sorted.take(i as int);
        let ghost w = list@[at as int]@;
        assert(sorted[i as int] == w);
        assert(sorted.take(i + 1) =~= p.push(w));
        let m: usize = heads.len();
        if m > 0 && same(list[heads[m - 1]].as_str(), list[at].as_str()) {
            let times: usize = seen[m - 1].times;
            proof {
                lemma_tally_same(list@, p, heads@, seen@, w);
            }
            seen[m - 1] = Seen { times: times + 1 };
        } else {
            proof {
                if i > 0 {
                    assert(before(list@, order@[i - 1], at));
                    assert(p.last() == list@[order@[i - 1] as int]@);
                    assert(heads_of(list@, heads@)[m - 1] == list@[heads@[m - 1] as int]@);
                }
                lemma_tally_new(list@, p, heads@, seen@, at);
            }
            heads.push(at);
            seen.push(Seen { times: 1 });
        }
        i = i + 1;
    }
    assert(sorted.take(n as int) =~= sorted);
    let rank = ranked(seen.as_slice());
    let ghost h = heads_of(list@, heads@);
    let mut r: Vec<String> = Vec::new();
    let mut i: usize = 0;
    while i < rank.len()
        invariant
            i <= rank@.len(),
            in_order(seen@, rank@),
            tallied(list@, sorted, heads@, seen@),
            h == heads_of(list@, heads@),
            r@.len() == i,
            forall|k: int| 0 <= k < i ==> (#[trigger] r@[k])@ == h[rank@[k] as int],
        decreases rank@.len() - i,
    {
        let at: usize = heads[rank[i]];
        r.push(list[at].clone());
        i = i + 1;
    }
    proof {
        let ws = words(text@);
        let v = contents(r@);
        assert(ws.to_multiset() == sorted.to_multiset());
        assert forall|w: Seq<char>| #[trigger] v.contains(w) <==> ws.contains(w) by {
            vstd::seq_lib::to_multiset_contains(ws, w);
            vstd::seq_lib::to_multiset_contains(sorted, w);
            assert(sorted.contains(w) <==> h.contains(w));
            if v.contains(w) {
                let k = choose|k: int| 0 <= k < v.len() && v[k] == w;
                assert(r@[k]@ == h[rank@[k] as int]);
                assert(h.contains(w));
            }
            if h.contains(w) {
                let q = choose|q: int| 0 <= q < h.len() && h[q] == w;
                assert(rank@.contains(q as usize));
                let k = choose|k: int| 0 <= k < rank@.len() && rank@[k] == q as usize;
                assert(r@[k]@ == h[q]);
                assert(v[k] == w);
            }
        }
        assert forall|i: int, j: int| 0 <= i < j < v.len() implies comes_first(
            ws,
            #[trigger] v[i],
            #[trigger] v[j],
        ) by {
            let a = rank@[i];
            let b = rank@[j];
            assert(before(seen@, a, b));
            assert(r@[i]@ == h[a as int]);
            assert(r@[j]@ == h[b as int]);
            assert(seen@[a as int].times == occurrences(sorted, h[a as int]));
            assert(seen@[b as int].times == occurrences(sorted, h[b as int]));
            if seen@[a as int].times == seen@[b as int].times {
                assert(a < b);
                assert(text_at_most(h[a as int], h[b as int]));
            }
        }
    }
    r
}

// ---------------------------------------------------------------------------
// Synthetic text
// ---------------------------------------------------------------------------

/// One step of the generator.
pub open spec fn scrambled(s: u64) -> u64 {
    let a = s ^ (s << 13u64);
    let b = a ^ (a >> 7u64);
    b ^ (b << 17u64)
}

/// The `n`th number of the generator, counted from one; before the first stands
/// its start.
pub open spec fn draw(seed: u64, n: nat) -> u64
    decreases n,
{
    if n == 0 {
        seed | 1
    } else {
        scrambled(draw(seed, (n - 1) as nat))
    }
}

/// Where step `k` of the sampling takes its word from.
pub open spec fn taken_from(n: nat, seed: u64, k: nat) -> int {
    k + draw(seed, k + 1) as int % (n - k)
}

/// The positions of a vocabulary of `n` words after `k` steps of sampling: the
/// first `k` are the sample.
pub open spec fn shuffled(n: nat, seed: u64, k: nat) -> Seq<usize>
    decreases k,
{
    if k == 0 {
        Seq::new(n, |i: int| i as usize)
    } else {
        let last = shuffled(n, seed, (k - 1) as nat);
        let j = taken_from(n, seed, (k - 1) as nat);
        last.update(k - 1, last[j]).update(j, last[k - 1])
    }
}

/// Which word of the sample is drawn at place `i` of the text.
pub open spec fn pick(seed: u64, want: nat, i: nat) -> usize {
    (draw(seed, want + 1 + i) as int % want as int) as usize
}

/// The words drawn for the first `k` places.
pub open spec fn picks(seed: u64, want: nat, k: nat) -> Seq<usize> {
    Seq::new(k, |i: int| pick(seed, want, i as nat))
}

/// The word at place `i` of the text.
pub open spec fn word_at(vocab: Seq<Seq<char>>, seed: u64, want: nat, i: nat) -> Seq<char> {
    vocab[shuffled(vocab.len(), seed, want)[pick(seed, want, i) as int] as int]
}

/// The text of the first `k` places: words with one space between.
pub open spec fn line(vocab: Seq<Seq<char>>, seed: u64, want: nat, k: nat) -> Seq<char>
    decreases k,
{
    if k == 0 {
        Seq::empty()
    } else {
        let so_far = line(vocab, seed, want, (k - 1) as nat);
        let w = word_at(vocab, seed, want, (k - 1) as nat);
        if so_far.len() == 0 {
            w
        } else {
            so_far.push(' ') + w
        }
    }
}

/// Whether a text of `k` words has no room for the next one in `bytes` bytes.
pub open spec fn full(
    vocab: Seq<Seq<char>>,
    seed: u64,
    want: nat,
    bytes: nat,
    k: nat,
) -> bool {
    line(vocab, seed, want, k).len() > 0 && byte_count(line(vocab, seed, want, k)) + 1
        + byte_count(word_at(vocab, seed, want, k)) > bytes
}

/// Whether the text ends at all, after a number of words that can be counted.
pub open spec fn ends(vocab: Seq<Seq<char>>, seed: u64, want: nat, bytes: nat) -> bool {
    exists|k: nat| k <= usize::MAX && #[trigger] full(vocab, seed, want, bytes, k)
}

/// Whether this is the synthetic text: it stops at the first word that has no
/// room, and counts its words and how many of the sample they are.
pub open spec fn is_synth(
    vocab: Seq<Seq<char>>,
    want: nat,
    bytes: nat,
    seed: u64,
    text: Seq<char>,
    words: nat,
    distinct: nat,
) -> bool {
    &&& full(vocab, seed, want, bytes, words)
    &&& forall|i: nat| i < words ==> !#[trigger] full(vocab, seed, want, bytes, i)
    &&& text == line(vocab, seed, want, words)
    &&& distinct == picks(seed, want, words).to_set().len()
}

proof fn lemma_same_draws(a: u64, b: u64, n: nat)
    requires
        a | 1 == b | 1,
    ensures
        draw(a, n) == draw(b, n),
    decreases n,
{
    if n > 0 {
        lemma_same_draws(a, b, (n - 1) as nat);
    }
}

proof fn lemma_same_sample(n: nat, a: u64, b: u64, k: nat)
    requires
        a | 1 == b | 1,
    ensures
        shuffled(n, a, k) == shuffled(n, b, k),
    decreases k,
{
    if k > 0 {
        lemma_same_sample(n, a, b, (k - 1) as nat);
        lemma_same_draws(a, b, k);
    }
}

proof fn lemma_same_line(vocab: Seq<Seq<char>>, a: u64, b: u64, want: nat, k: nat)
    requires
        a | 1 == b | 1,
    ensures
        line(vocab, a, want, k) == line(vocab, b, want, k),
        word_at(vocab, a, want, k) == word_at(vocab, b, want, k),
    decreases k,
{
    lemma_same_sample(vocab.len(), a, b, want);
    lemma_same_draws(a, b, want + 1 + k);
    if k > 0 {
        lemma_same_line(vocab, a, b, want, (k - 1) as nat);
    }
}

/// There is one synthetic text: what is drawn depends on the vocabulary, the
/// size of the sample, the room and the seed alone.
pub proof fn law_one_synth(
    vocab: Seq<Seq<char>>,
    want: nat,
    bytes: nat,
    seed: u64,
    text: Seq<char>,
    words: nat,
    distinct: nat,
    other_text: Seq<char>,
    other_words: nat,
    other_distinct: nat,
)
    requires
        is_synth(vocab, want, bytes, seed, text, words, distinct),
        is_synth(vocab, want, bytes, seed, other_text, other_words, other_distinct),
    ensures
        text == other_text,
        words == other_words,
        distinct == other_distinct,
{
    if words < other_words {
        assert(!full(vocab, seed, want, bytes, words));
    }
    if other_words < words {
        assert(!full(vocab, seed, want, bytes, other_words));
    }
}

/// An even seed and the odd one after it draw the same text.
pub proof fn law_seeds_pair_up(
    vocab: Seq<Seq<char>>,
    want: nat,
    bytes: nat,
    seed: u64,
    text: Seq<char>,
    words: nat,
    distinct: nat,
)
    requires
        seed % 2 == 0,
    ensures
        is_synth(vocab, want, bytes, seed, text, words, distinct) <==> is_synth(
            vocab,
            want,
            bytes,
            (seed + 1) as u64,
            text,
            words,
            distinct,
        ),
{
    let next = (seed + 1) as u64;
    assert(seed | 1 == next | 1) by (bit_vector)
        requires
            seed % 2 == 0,
            next == seed + 1,
    ;
    assert forall|k: nat|
        #![trigger full(vocab, seed, want, bytes, k)]
        #![trigger full(vocab, next, want, bytes, k)]
        full(vocab, seed, want, bytes, k) == full(vocab, next, want, bytes, k) by {
        lemma_same_line(vocab, seed, next, want, k);
    }
    lemma_same_line(vocab, seed, next, want, words);
    assert forall|i: int| 0 <= i < words implies #[trigger] picks(seed, want, words)[i] == picks(
        next,
        want,
        words,
    )[i] by {
        lemma_same_draws(seed, next, want + 1 + i as nat);
    }
    assert(picks(seed, want, words) =~= picks(next, want, words));
}

proof fn lemma_taken_from(n: nat, seed: u64, k: nat)
    requires
        k < n,
    ensures
        k <= taken_from(n, seed, k) < n,
{
    vstd::arithmetic::div_mod::lemma_mod_bound(draw(seed, k + 1) as int, n - k);
}

proof fn lemma_pick(seed: u64, want: nat, i: nat)
    requires
        0 < want <= usize::MAX,
    ensures
        pick(seed, want, i) < want,
        pick(seed, want, i) == draw(seed, want + 1 + i) as int % want as int,
{
    vstd::arithmetic::div_mod::lemma_mod_bound(draw(seed, want + 1 + i) as int, want as int);
}

/// Sampling is without replacement: at every step the positions are those of
/// the vocabulary, each once.
pub proof fn law_sample_without_replacement(n: nat, seed: u64, k: nat)
    requires
        k <= n <= usize::MAX,
    ensures
        shuffled(n, seed, k).len() == n,
        shuffled(n, seed, k).no_duplicates(),
        forall|i: int| 0 <= i < n ==> (#[trigger] shuffled(n, seed, k)[i]) < n,
    decreases k,
{
    if k > 0 {
        law_sample_without_replacement(n, seed, (k - 1) as nat);
        lemma_taken_from(n, seed, (k - 1) as nat);
    }
}

/// A vocabulary of words that are not empty always gives a text that ends: by
/// then it has at most one word more than it has bytes.
pub proof fn law_synth_ends(vocab: Seq<Seq<char>>, seed: u64, want: nat, bytes: nat)
    requires
        0 < want <= vocab.len() <= usize::MAX,
        bytes < usize::MAX,
        forall|i: int| 0 <= i < vocab.len() ==> (#[trigger] vocab[i]).len() > 0,
    ensures
        ends(vocab, seed, want, bytes),
{
    lemma_line_grows(vocab, seed, want, bytes + 1);
    assert(full(vocab, seed, want, bytes, bytes + 1));
}

proof fn lemma_line_grows(vocab: Seq<Seq<char>>, seed: u64, want: nat, k: nat)
    requires
        0 < want <= vocab.len() <= usize::MAX,
        forall|i: int| 0 <= i < vocab.len() ==> (#[trigger] vocab[i]).len() > 0,
    ensures
        byte_count(line(vocab, seed, want, k)) >= k,
        line(vocab, seed, want, k).len() >= k,
    decreases k,
{
    crate::text::lemma_text_bytes(line(vocab, seed, want, k));
    if k > 0 {
        lemma_line_grows(vocab, seed, want, (k - 1) as nat);
        law_sample_without_replacement(vocab.len(), seed, want);
        lemma_pick(seed, want, (k - 1) as nat);
    }
}

/// The text stays within its size, or is a single word of the vocabulary that
/// is larger than that by itself.
pub proof fn law_synth_size(
    vocab: Seq<Seq<char>>,
    want: nat,
    bytes: nat,
    seed: u64,
    text: Seq<char>,
    words: nat,
    distinct: nat,
)
    requires
        0 < want <= vocab.len() <= usize::MAX,
        is_synth(vocab, want, bytes, seed, text, words, distinct),
    ensures
        byte_count(text) <= bytes || vocab.contains(text),
{
    lemma_line_size(vocab, want, bytes, seed, words);
}

proof fn lemma_line_size(vocab: Seq<Seq<char>>, want: nat, bytes: nat, seed: u64, k: nat)
    requires
        0 < want <= vocab.len() <= usize::MAX,
        forall|i: nat| i < k ==> !#[trigger] full(vocab, seed, want, bytes, i),
    ensures
        byte_count(line(vocab, seed, want, k)) <= bytes || vocab.contains(
            line(vocab, seed, want, k),
        ),
{
    if k > 0 {
        let i = (k - 1) as nat;
        let so_far = line(vocab, seed, want, i);
        let w = word_at(vocab, seed, want, i);
        assert(!full(vocab, seed, want, bytes, i));
        law_sample_without_replacement(vocab.len(), seed, want);
        lemma_pick(seed, want, i);
        if so_far.len() > 0 {
            lemma_bytes_push(so_far, ' ');
            lemma_bytes_concat(so_far.push(' '), w);
        }
    }
}

proof fn lemma_scan_solid_tail(s: Seq<char>, w: Seq<char>)
    requires
        forall|i: int| 0 <= i < w.len() ==> !crate::scan::white(#[trigger] w[i]),
    ensures
        crate::scan::word_scan(s + w) == (
            crate::scan::word_scan(s).0,
            crate::scan::word_scan(s).1 + w,
        ),
    decreases w.len(),
{
    if w.len() == 0 {
        assert(s + w =~= s);
        assert(crate::scan::word_scan(s).1 + w =~= crate::scan::word_scan(s).1);
    } else {
        lemma_scan_solid_tail(s, w.drop_last());
        assert((s + w).drop_last() =~= s + w.drop_last());
        assert((crate::scan::word_scan(s).1 + w.drop_last()).push(w.last())
            =~= crate::scan::word_scan(s).1 + w);
    }
}

/// Nothing is invented: where the vocabulary holds words, the words of the text
/// are exactly those drawn, in order.
pub proof fn law_synth_words(vocab: Seq<Seq<char>>, seed: u64, want: nat, k: nat)
    requires
        0 < want <= vocab.len() <= usize::MAX,
        forall|i: int| 0 <= i < vocab.len() ==> (#[trigger] vocab[i]).len() > 0,
        forall|i: int, j: int|
            0 <= i < vocab.len() && 0 <= j < vocab[i].len() ==> !crate::scan::white(
                #[trigger] vocab[i][j],
            ),
    ensures
        words(line(vocab, seed, want, k)) == Seq::new(
            k,
            |i: int| word_at(vocab, seed, want, i as nat),
        ),
        forall|i: nat| i < k ==> vocab.contains(#[trigger] word_at(vocab, seed, want, i)),
    decreases k,
{
    let all = Seq::new(k, |i: int| word_at(vocab, seed, want, i as nat));
    law_sample_without_replacement(vocab.len(), seed, want);
    assert forall|i: nat| i < k implies vocab.contains(#[trigger] word_at(vocab, seed, want, i)) by {
        lemma_pick(seed, want, i);
    }
    if k == 0 {
        assert(words(line(vocab, seed, want, k)) =~= all);
    } else {
        let i = (k - 1) as nat;
        law_synth_words(vocab, seed, want, i);
        lemma_line_grows(vocab, seed, want, i);
        lemma_pick(seed, want, i);
        let so_far = line(vocab, seed, want, i);
        let w = word_at(vocab, seed, want, i);
        let at = shuffled(vocab.len(), seed, want)[pick(seed, want, i) as int] as int;
        assert(w == vocab[at]);
        assert forall|j: int| 0 <= j < w.len() implies !crate::scan::white(#[trigger] w[j]) by {
            assert(!crate::scan::white(vocab[at][j]));
        }
        let start = if so_far.len() == 0 {
            so_far
        } else {
            so_far.push(' ')
        };
        assert(line(vocab, seed, want, k) =~= start + w);
        assert(so_far.push(' ').drop_last() =~= so_far);
        lemma_scan_solid_tail(start, w);
        assert(crate::scan::word_scan(start).1 + w =~= w);
        assert(words(line(vocab, seed, want, k)) =~= words(so_far).push(w));
        assert(all =~= Seq::new(i, |i: int| word_at(vocab, seed, want, i as nat)).push(w));
    }
}

/// One step of the sampling exchanges two places and leaves the others: the next
/// place of the sample, and one of those not yet sampled, as many places on as
/// the generator's number leaves over when it is divided by how many are left.
pub proof fn law_sampling_exchanges_two_places(n: nat, seed: u64, k: nat, p: int)
    requires
        k < n <= usize::MAX,
        k <= p < n,
        p - k == draw(seed, k + 1) as int % (n - k),
    ensures
        forall|i: int|
            0 <= i < n ==> #[trigger] shuffled(n, seed, 0)[i] == i,
        shuffled(n, seed, k + 1)[k as int] == shuffled(n, seed, k)[p],
        shuffled(n, seed, k + 1)[p] == shuffled(n, seed, k)[k as int],
        forall|i: int|
            0 <= i < n && i != k && i != p ==> #[trigger] shuffled(n, seed, k + 1)[i] == shuffled(
                n,
                seed,
                k,
            )[i],
{
    law_sample_without_replacement(n, seed, k);
}

/// Every place that is left can be taken at every step: some number of the
/// generator takes it, and so does every other that leaves the same over.
pub proof fn law_every_place_can_be_taken(n: nat, k: nat, j: int, d: u64)
    requires
        k < n <= usize::MAX,
        k <= j < n,
        d as int % (n - k) == j - k,
    ensures
        exists|e: u64| #[trigger] (e as int % (n - k)) == j - k,
        forall|seed: u64| #[trigger]
            draw(seed, k + 1) == d ==> shuffled(n, seed, k + 1)[k as int] == shuffled(n, seed, k)[j],
{
    assert forall|seed: u64| #[trigger] draw(seed, k + 1) == d implies shuffled(n, seed, k + 1)[
    k as int] == shuffled(n, seed, k)[j] by {
        law_sampling_exchanges_two_places(n, seed, k, j);
    }
    let e = (j - k) as u64;
    vstd::arithmetic::div_mod::lemma_small_mod((j - k) as nat, (n - k) as nat);
    assert(e as int % (n - k) == j - k);
}

/// The numbers with which the sampling takes the places `want`, one after the
/// other, given where every place stands.
spec fn numbers_for(n: nat, places: Seq<usize>) -> (Seq<u64>, Seq<usize>)
    decreases places.len(),
{
    if places.len() == 0 {
        (Seq::empty(), Seq::new(n, |i: int| i as usize))
    } else {
        let (draws, s) = numbers_for(n, places.drop_last());
        let k = places.len() - 1;
        let p = s.index_of(places.last());
        (draws.push((p - k) as u64), s.update(k, s[p]).update(p, s[k]))
    }
}

proof fn lemma_numbers_for(n: nat, places: Seq<usize>)
    requires
        places.len() <= n <= usize::MAX,
        places.no_duplicates(),
        forall|i: int| 0 <= i < places.len() ==> #[trigger] places[i] < n,
    ensures
        ({
            let (draws, s) = numbers_for(n, places);
            &&& draws.len() == places.len()
            &&& s.len() == n
            &&& s.take(places.len() as int) == places
            &&& s.no_duplicates()
            &&& forall|x: usize| x < n ==> #[trigger] s.contains(x)
            &&& forall|seed: u64|
                (forall|i: int|
                    0 <= i < places.len() ==> draw(seed, (i + 1) as nat) == #[trigger] draws[i])
                    ==> #[trigger] shuffled(n, seed, places.len()) == s
        }),
    decreases places.len(),
{
    let (draws, s) = numbers_for(n, places);
    if places.len() == 0 {
        assert(s.take(0) =~= places);
        assert forall|x: usize| x < n implies #[trigger] s.contains(x) by {
            assert(s[x as int] == x);
        }
        assert forall|seed: u64| #[trigger] shuffled(n, seed, 0) == s by {
            assert(shuffled(n, seed, 0) =~= s);
        }
    } else {
        let less = places.drop_last();
        lemma_numbers_for(n, less);
        let (was_draws, was) = numbers_for(n, less);
        let k = less.len() as int;
        let w = places.last();
        assert(was.contains(w));
        let p = was.index_of(w);
        assert(0 <= p < n && was[p] == w);
        if p < k {
            assert(was.take(k)[p] == less[p]);
            assert(places[p] == places[k]);
        }
        assert(s.take(places.len() as int) =~= places) by {
            assert forall|i: int| 0 <= i < places.len() implies s[i] == places[i] by {
                if i < k {
                    assert(was.take(k)[i] == less[i]);
                }
            }
        }
        assert forall|x: usize| x < n implies #[trigger] s.contains(x) by {
            assert(was.contains(x));
            let i = choose|i: int| 0 <= i < was.len() && was[i] == x;
            let at = if i == k {
                p
            } else if i == p {
                k
            } else {
                i
            };
            assert(s[at] == x);
        }
        assert forall|seed: u64|
            (forall|i: int|
                0 <= i < places.len() ==> draw(seed, (i + 1) as nat)
                    == #[trigger] draws[i]) implies #[trigger] shuffled(n, seed, places.len())
            == s by {
            assert forall|i: int| 0 <= i < less.len() implies draw(seed, (i + 1) as nat)
                == #[trigger] was_draws[i] by {
                assert(draws[i] == was_draws[i]);
            }
            assert(shuffled(n, seed, less.len()) == was);
            assert(draws[k] == (p - k) as u64);
            vstd::arithmetic::div_mod::lemma_small_mod((p - k) as nat, (n - k) as nat);
            law_sampling_exchanges_two_places(n, seed, k as nat, p);
            law_sample_without_replacement(n, seed, (k + 1) as nat);
            assert(shuffled(n, seed, places.len()) =~= s);
        }
    }
}

/// Every sample can come about: for any choice of distinct words, in any order,
/// there are numbers of the generator that draw exactly that one. No word of the
/// vocabulary is favoured by where it stands.
pub proof fn law_every_sample_can_be_drawn(n: nat, places: Seq<usize>)
    requires
        places.len() <= n <= usize::MAX,
        places.no_duplicates(),
        forall|i: int| 0 <= i < places.len() ==> #[trigger] places[i] < n,
    ensures
        exists|draws: Seq<u64>|
            #![trigger draws.len()]
            draws.len() == places.len() && forall|seed: u64|
                (forall|i: int|
                    0 <= i < places.len() ==> draw(seed, (i + 1) as nat) == #[trigger] draws[i])
                    ==> (#[trigger] shuffled(n, seed, places.len())).take(places.len() as int)
                    == places,
{
    lemma_numbers_for(n, places);
    let draws = numbers_for(n, places).0;
    assert(draws.len() == places.len());
}

/// The generator goes through its states one by one: no two go to the same, a
/// state is zero only after zero, and two states mixed go where they go, mixed.
pub proof fn law_generator_steps(a: u64, b: u64)
    ensures
        scrambled(a) == scrambled(b) ==> a == b,
        scrambled(0) == 0,
        scrambled(a ^ b) == scrambled(a) ^ scrambled(b),
{
    lemma_left(a, b, a ^ (a << 13u64), b ^ (b << 13u64));
    lemma_right(
        a ^ (a << 13u64),
        b ^ (b << 13u64),
        (a ^ (a << 13u64)) ^ ((a ^ (a << 13u64)) >> 7u64),
        (b ^ (b << 13u64)) ^ ((b ^ (b << 13u64)) >> 7u64),
    );
    lemma_left_again(
        (a ^ (a << 13u64)) ^ ((a ^ (a << 13u64)) >> 7u64),
        (b ^ (b << 13u64)) ^ ((b ^ (b << 13u64)) >> 7u64),
        scrambled(a),
        scrambled(b),
    );
    assert(({
        let s = a ^ b;
        let x = s ^ (s << 13u64);
        let y = x ^ (x >> 7u64);
        y ^ (y << 17u64)
    }) == ({
        let x = a ^ (a << 13u64);
        let y = x ^ (x >> 7u64);
        y ^ (y << 17u64)
    }) ^ ({
        let x = b ^ (b << 13u64);
        let y = x ^ (x >> 7u64);
        y ^ (y << 17u64)
    })) by (bit_vector);
    assert(({
        let x = 0u64 ^ (0u64 << 13u64);
        let y = x ^ (x >> 7u64);
        y ^ (y << 17u64)
    }) == 0u64) by (bit_vector);
}

proof fn lemma_left(a: u64, b: u64, x: u64, y: u64)
    requires
        x == a ^ (a << 13u64),
        y == b ^ (b << 13u64),
    ensures
        x == y ==> a == b,
{
    assert(a == x ^ (x << 13u64) ^ (x << 26u64) ^ (x << 39u64) ^ (x << 52u64)) by (bit_vector)
        requires
            x == a ^ (a << 13u64),
    ;
    assert(b == y ^ (y << 13u64) ^ (y << 26u64) ^ (y << 39u64) ^ (y << 52u64)) by (bit_vector)
        requires
            y == b ^ (b << 13u64),
    ;
}

proof fn lemma_right(a: u64, b: u64, x: u64, y: u64)
    requires
        x == a ^ (a >> 7u64),
        y == b ^ (b >> 7u64),
    ensures
        x == y ==> a == b,
{
    assert(a == x ^ (x >> 7u64) ^ (x >> 14u64) ^ (x >> 21u64) ^ (x >> 28u64) ^ (x >> 35u64) ^ (x
        >> 42u64) ^ (x >> 49u64) ^ (x >> 56u64) ^ (x >> 63u64)) by (bit_vector)
        requires
            x == a ^ (a >> 7u64),
    ;
    assert(b == y ^ (y >> 7u64) ^ (y >> 14u64) ^ (y >> 21u64) ^ (y >> 28u64) ^ (y >> 35u64) ^ (y
        >> 42u64) ^ (y >> 49u64) ^ (y >> 56u64) ^ (y >> 63u64)) by (bit_vector)
        requires
            y == b ^ (b >> 7u64),
    ;
}

proof fn lemma_left_again(a: u64, b: u64, x: u64, y: u64)
    requires
        x == a ^ (a << 17u64),
        y == b ^ (b << 17u64),
    ensures
        x == y ==> a == b,
{
    assert(a == x ^ (x << 17u64) ^ (x << 34u64) ^ (x << 51u64)) by (bit_vector)
        requires
            x == a ^ (a << 17u64),
    ;
    assert(b == y ^ (y << 17u64) ^ (y << 34u64) ^ (y << 51u64)) by (bit_vector)
        requires
            y == b ^ (b << 17u64),
    ;
}

/// The text that comes back is drawn from the sample alone: the word at place `i`
/// is the one that the generator's next number picks among the `want` sampled
/// ones, going on from where the sampling stopped. The numbers that come back
/// count its words and how many different ones it holds. It fits the room, unless
/// it is a single word, and the word that would have come next does not.
pub proof fn law_synth_draws_from_the_sample(
    vocab: &[String],
    want: usize,
    bytes: usize,
    seed: u64,
    r: (String, usize, usize),
)
    requires
        0 < want <= vocab@.len() <= usize::MAX,
        contents(vocab@).no_duplicates(),
        forall|i: int| 0 <= i < vocab@.len() ==> (#[trigger] vocab@[i])@.len() > 0,
        forall|i: int, j: int|
            #![trigger vocab@[i]@[j]]
            0 <= i < vocab@.len() && 0 <= j < vocab@[i]@.len() ==> !crate::scan::white(
                vocab@[i]@[j],
            ),
        call_ensures(synth_recurrence, (vocab, want, bytes, seed), r),
    ensures
        words(r.0@).len() == r.1,
        forall|i: int|
            0 <= i < r.1 ==> #[trigger] words(r.0@)[i] == vocab@[shuffled(
                vocab@.len(),
                seed,
                want as nat,
            )[draw(seed, (want + 1 + i) as nat) as int % want as int] as int]@,
        r.2 == words(r.0@).to_set().len(),
        byte_count(r.0@) <= bytes || r.1 == 1,
        byte_count(r.0@) + 1 + byte_count(
            vocab@[shuffled(vocab@.len(), seed, want as nat)[draw(
                seed,
                (want + 1 + r.1) as nat,
            ) as int % want as int] as int]@,
        ) > bytes,
        forall|i: int|
            0 <= i < vocab@.len() ==> 0 <= #[trigger] shuffled(vocab@.len(), seed, want as nat)[i]
                < vocab@.len(),
{
    let v = contents(vocab@);
    let n = v.len();
    let wn = want as nat;
    let k = r.1 as nat;
    assert forall|i: int| 0 <= i < v.len() implies (#[trigger] v[i]).len() > 0 by {
        assert(vocab@[i]@.len() > 0);
    }
    assert forall|i: int, j: int|
        0 <= i < v.len() && 0 <= j < v[i].len() implies !crate::scan::white(
        #[trigger] v[i][j],
    ) by {
        assert(!crate::scan::white(vocab@[i]@[j]));
    }
    law_synth_words(v, seed, wn, k);
    law_sample_without_replacement(n, seed, wn);
    let sample = shuffled(n, seed, wn);
    let ws = words(r.0@);
    assert forall|i: int| 0 <= i < r.1 implies #[trigger] ws[i] == vocab@[sample[draw(
        seed,
        (want + 1 + i) as nat,
    ) as int % want as int] as int]@ by {
        lemma_pick(seed, wn, i as nat);
        assert(ws[i] == word_at(v, seed, wn, i as nat));
        assert((wn + 1 + i as nat) as nat == (want + 1 + i) as nat);
    }
    lemma_pick(seed, wn, k);
    assert((wn + 1 + k) as nat == (want + 1 + r.1) as nat);
    assert(word_at(v, seed, wn, k) == vocab@[sample[draw(seed, (want + 1 + r.1) as nat) as int
        % want as int] as int]@);
    let ps = picks(seed, wn, k);
    assert forall|i: int| 0 <= i < k implies #[trigger] ps[i] < want by {
        lemma_pick(seed, wn, i as nat);
    }
    let f = |p: usize| v[sample[p as int] as int];
    assert(ws =~= ps.map_values(f));
    lemma_as_many_words(v, sample, ps, want);
    if k == 0 {
        assert(!full(v, seed, wn, bytes as nat, 0));
    }
    if k >= 2 {
        let i = (k - 1) as nat;
        assert(!full(v, seed, wn, bytes as nat, i));
        lemma_line_grows(v, seed, wn, i);
        let so_far = line(v, seed, wn, i);
        lemma_bytes_push(so_far, ' ');
        lemma_bytes_concat(so_far.push(' '), word_at(v, seed, wn, i));
        lemma_space();
    }
}

proof fn lemma_space()
    ensures
        crate::text::width(' ') == 1,
{
}

/// Distinct words are picked as often as distinct places are.
proof fn lemma_as_many_words(v: Seq<Seq<char>>, sample: Seq<usize>, ps: Seq<usize>, want: usize)
    requires
        v.no_duplicates(),
        sample.len() == v.len(),
        sample.no_duplicates(),
        forall|i: int| 0 <= i < sample.len() ==> (#[trigger] sample[i]) < v.len(),
        want <= v.len(),
        forall|i: int| 0 <= i < ps.len() ==> #[trigger] ps[i] < want,
    ensures
        ps.map_values(|p: usize| v[sample[p as int] as int]).to_set().len() == ps.to_set().len(),
    decreases ps.len(),
{
    let f = |p: usize| v[sample[p as int] as int];
    let ws = ps.map_values(f);
    if ps.len() == 0 {
        assert(ws.to_set() =~= Set::empty());
        assert(ps.to_set() =~= Set::empty());
    } else {
        let less = ps.drop_last();
        let p = ps.last();
        assert(ps[ps.len() - 1] == p);
        lemma_as_many_words(v, sample, less, want);
        let lw = less.map_values(f);
        assert(ws =~= lw.push(f(p)));
        assert(ps =~= less.push(p));
        vstd::seq_lib::seq_to_set_is_finite(lw);
        vstd::seq_lib::seq_to_set_is_finite(less);
        assert(ws.to_set() =~= lw.to_set().insert(f(p))) by {
            assert forall|x: Seq<char>| #[trigger] ws.to_set().contains(x) <==> lw.to_set().insert(
                f(p),
            ).contains(x) by {
                if lw.contains(x) {
                    let i = choose|i: int| 0 <= i < lw.len() && lw[i] == x;
                    assert(ws[i] == x);
                }
                if x == f(p) {
                    assert(ws[ps.len() - 1] == x);
                }
                if ws.contains(x) {
                    let i = choose|i: int| 0 <= i < ws.len() && ws[i] == x;
                    if i < lw.len() {
                        assert(lw[i] == x);
                    }
                }
            }
        }
        assert(ps.to_set() =~= less.to_set().insert(p)) by {
            assert forall|x: usize| #[trigger] ps.to_set().contains(x) <==> less.to_set().insert(
                p,
            ).contains(x) by {
                if less.contains(x) {
                    let i = choose|i: int| 0 <= i < less.len() && less[i] == x;
                    assert(ps[i] == x);
                }
                if ps.contains(x) {
                    let i = choose|i: int| 0 <= i < ps.len() && ps[i] == x;
                    if i < less.len() {
                        assert(less[i] == x);
                    }
                }
            }
        }
        assert(lw.contains(f(p)) <==> less.contains(p)) by {
            if less.contains(p) {
                let i = choose|i: int| 0 <= i < less.len() && less[i] == p;
                assert(lw[i] == f(p));
            }
            if lw.contains(f(p)) {
                let i = choose|i: int| 0 <= i < lw.len() && lw[i] == f(p);
                assert(ps[i] == less[i] && ps[i] < want);
                assert(sample[less[i] as int] == sample[p as int]);
                assert(less[i] == p);
            }
        }
    }
}

fn next_draw(s: u64) -> (r: u64)
    ensures
        r == scrambled(s),
{
    let a: u64 = s ^ (s << 13u64);
    let b: u64 = a ^ (a >> 7u64);
    b ^ (b << 17u64)
}

/// The sample: `want` of `n` positions, and the state of the generator behind
/// it.
fn sample(n: usize, want: usize, seed: u64) -> (r: (Vec<usize>, u64))
    requires
        want <= n,
    ensures
        r.0@ == shuffled(n as nat, seed, want as nat),
        r.1 == draw(seed, want as nat),
{
    let mut idx: Vec<usize> = Vec::new();
    let mut i: usize = 0;
    while i < n
        invariant
            i <= n,
            idx@.len() == i,
            forall|k: int| 0 <= k < i ==> idx@[k] == k,
        decreases n - i,
    {
        idx.push(i);
        i = i + 1;
    }
    assert(idx@ =~= shuffled(n as nat, seed, 0));
    let mut state: u64 = seed | 1;
    let mut i: usize = 0;
    while i < want
        invariant
            i <= want <= n,
            idx@ == shuffled(n as nat, seed, i as nat),
            idx@.len() == n,
            state == draw(seed, i as nat),
        decreases want - i,
    {
        state = next_draw(state);
        proof {
            lemma_taken_from(n as nat, seed, i as nat);
        }
        let j: usize = i + (state % ((n - i) as u64)) as usize;
        let a: usize = idx[i];
        let b: usize = idx[j];
        idx[i] = b;
        idx[j] = a;
        i = i + 1;
    }
    (idx, state)
}

/// A text of at most `bytes` bytes, drawn from a sample of `want` words of the
/// vocabulary, with the number of its words and the number of distinct sample
/// words among them.
///
/// A text never stops inside a word.
pub fn synth_recurrence(vocab: &[String], want: usize, bytes: usize, seed: u64) -> (r: (
    String,
    usize,
    usize,
))
    requires
        0 < want <= vocab@.len(),
        ends(contents(vocab@), seed, want as nat, bytes as nat),
    ensures
        is_synth(
            contents(vocab@),
            want as nat,
            bytes as nat,
            seed,
            r.0@,
            r.1 as nat,
            r.2 as nat,
        ),
{
    let ghost v = contents(vocab@);
    let n: usize = vocab.len();
    let (idx, start) = sample(n, want, seed);
    let mut state: u64 = start;
    proof {
        law_sample_without_replacement(n as nat, seed, want as nat);
    }
    let mut used: Vec<bool> = Vec::new();
    let mut i: usize = 0;
    while i < want
        invariant
            i <= want,
            used@.len() == i,
            forall|k: int| 0 <= k < i ==> !used@[k],
        decreases want - i,
    {
        used.push(false);
        i = i + 1;
    }
    let ghost last = choose|k: nat| k <= usize::MAX && #[trigger]
        full(v, seed, want as nat, bytes as nat, k);
    let mut out = String::new();
    let mut size: usize = 0;
    let mut words: usize = 0;
    let mut distinct: usize = 0;
    proof {
        crate::text::lemma_text_bytes(out@);
        assert(picks(seed, want as nat, 0).to_set() =~= Set::empty());
    }
    loop
        invariant
            v == contents(vocab@),
            n == vocab@.len() <= usize::MAX,
            0 < want <= n,
            idx@ == shuffled(n as nat, seed, want as nat),
            idx@.len() == n,
            forall|k: int| 0 <= k < n ==> (#[trigger] idx@[k]) < n,
            state == draw(seed, (want + words) as nat),
            out@ == line(v, seed, want as nat, words as nat),
            size == byte_count(out@),
            used@.len() == want,
            forall|k: usize|
                k < want ==> (used@[k as int] <==> #[trigger] picks(
                    seed,
                    want as nat,
                    words as nat,
                ).contains(k)),
            distinct == picks(seed, want as nat, words as nat).to_set().len(),
            distinct <= words,
            words <= last <= usize::MAX,
            full(v, seed, want as nat, bytes as nat, last),
            forall|i: nat|
                i < words ==> !#[trigger] full(v, seed, want as nat, bytes as nat, i),
        decreases last - words,
    {
        state = next_draw(state);
        proof {
            lemma_pick(seed, want as nat, words as nat);
            crate::text::lemma_text_bytes(out@);
        }
        let i: usize = (state % (want as u64)) as usize;
        let at: usize = idx[i];
        let ghost w = word_at(v, seed, want as nat, words as nat);
        assert(vocab@[at as int]@ == w);
        let len: usize = byte_len(vocab[at].as_str());
        if size > 0 && size as u128 + 1 + len as u128 > bytes as u128 {
            assert(full(v, seed, want as nat, bytes as nat, words as nat));
            return (out, words, distinct);
        }
        assert(!full(v, seed, want as nat, bytes as nat, words as nat));
        proof {
            let now = picks(seed, want as nat, words as nat);
            let then = picks(seed, want as nat, (words + 1) as nat);
            assert(then =~= now.push(i));
            assert(then.to_set() =~= now.to_set().insert(i)) by {
                assert forall|x: usize| then.to_set().contains(x) == now.to_set().insert(i).contains(
                    x,
                ) by {
                    if now.contains(x) {
                        let q = choose|q: int| 0 <= q < now.len() && now[q] == x;
                        assert(then[q] == x);
                    }
                    if x == i {
                        assert(then[now.len() as int] == x);
                    }
                }
            }
            vstd::seq_lib::seq_to_set_is_finite(now);
            assert forall|k: usize| k < want implies (#[trigger] then.contains(k) <==> (
            now.contains(k) || k == i)) by {
                assert(then.to_set().contains(k) == now.to_set().insert(i).contains(k));
            }
            assert(used@[i as int] <==> now.to_set().contains(i));
        }
        if !used[i] {
            used[i] = true;
            distinct = distinct + 1;
        }
        proof {
            lemma_bytes_push(out@, ' ');
            lemma_bytes_concat(out@.push(' '), w);
        }
        if size > 0 {
            out.push(' ');
            size = size + 1;
        } else {
            assert(out@ + w =~= w);
        }
        out.append(vocab[at].as_str());
        size = size + len;
        words = words + 1;
    }
}

/// The vocabulary of a text holds each of its words once, and no other. A word that occurs
/// more often comes first, and of words that occur equally often the smaller does.
pub proof fn law_vocabulary_is_by_frequency(
    text: &str,
    r: Vec<String>,
    w: Seq<char>,
    i: int,
    j: int,
)
    requires
        call_ensures(vocabulary, (text,), r),
        0 <= i < j < r@.len(),
    ensures
        (exists|k: int| 0 <= k < r@.len() && (#[trigger] r@[k])@ == w) <==> words(text@).contains(w),
        r@[i]@ != r@[j]@,
        ({
            let first = words(text@).filter(|x: Seq<char>| x == r@[i]@).len();
            let second = words(text@).filter(|x: Seq<char>| x == r@[j]@).len();
            &&& first >= second
            &&& first == second ==> text_at_most(r@[i]@, r@[j]@)
        }),
{
    let list = words(text@);
    let v = contents(r@);
    assert(v.contains(w) <==> list.contains(w));
    if v.contains(w) {
        let k = choose|k: int| 0 <= k < v.len() && v[k] == w;
        assert(r@[k]@ == w);
    }
    if exists|k: int| 0 <= k < r@.len() && (#[trigger] r@[k])@ == w {
        let k = choose|k: int| 0 <= k < r@.len() && (#[trigger] r@[k])@ == w;
        assert(v[k] == w);
    }
    assert(v[i] == r@[i]@ && v[j] == r@[j]@);
    assert(comes_first(list, v[i], v[j]));
    let (a, b) = (r@[i]@, r@[j]@);
    lemma_counted(list, a);
    lemma_counted(list, b);
    assert((|x: Seq<char>| x == a) =~= (|x: Seq<char>| x == r@[i]@));
    assert((|x: Seq<char>| x == b) =~= (|x: Seq<char>| x == r@[j]@));
}

proof fn lemma_counted(list: Seq<Seq<char>>, w: Seq<char>)
    ensures
        occurrences(list, w) == list.filter(|x: Seq<char>| x == w).len(),
    decreases list.len(),
{
    reveal(Seq::filter);
    if list.len() > 0 {
        let less = list.drop_last();
        lemma_counted(less, w);
        assert(list =~= less.push(list.last()));
        less.to_multiset_ensures();
        assert(list.to_multiset() == less.to_multiset().insert(list.last()));
    } else {
        list.to_multiset_ensures();
        assert(list.to_multiset().len() == 0);
    }
}

/// The generator starts at its seed, or next to it where the seed is even, and every number
/// follows from the one before by three shifts: left by 13, right by 7 and left by 17, each
/// mixed with what it shifts.
pub proof fn law_generator_shifts(seed: u64, n: nat, a: u64, b: u64)
    requires
        a == draw(seed, n) ^ (draw(seed, n) << 13u64),
        b == a ^ (a >> 7u64),
    ensures
        seed % 2 == 1 ==> draw(seed, 0) == seed,
        seed % 2 == 0 ==> draw(seed, 0) == seed + 1,
        draw(seed, n + 1) == b ^ (b << 17u64),
{
    assert(seed % 2 == 1 ==> seed | 1 == seed) by (bit_vector);
    assert(seed % 2 == 0 ==> seed | 1 == seed + 1) by (bit_vector);
}

}
