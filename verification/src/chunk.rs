//! Cutting a text into documents, always between characters.

use crate::scan::contents;
use crate::text::{byte_count, char_width, chars_of, lemma_first_bytes, string_of, width};
use vstd::prelude::*;
use vstd::utf8::encode_utf8;

verus! {

/// How many characters of `s` it takes to reach `n` bytes: the least number
/// whose bytes are `n` or more, or all of them.
pub open spec fn reach(s: Seq<char>, n: nat) -> nat
    decreases s.len(),
{
    if s.len() == 0 || n == 0 {
        0
    } else if n <= width(s[0]) {
        1
    } else {
        1 + reach(s.drop_first(), (n - width(s[0])) as nat)
    }
}

/// How many characters of `s` fit in `n` bytes.
pub open spec fn fitting(s: Seq<char>, n: nat) -> nat
    decreases s.len(),
{
    if s.len() == 0 || n < width(s[0]) {
        0
    } else {
        1 + fitting(s.drop_first(), (n - width(s[0])) as nat)
    }
}

/// `s` in chunks that each reach `n` bytes, `max` of them at most.
pub open spec fn chunks(s: Seq<char>, n: nat, max: nat) -> Seq<Seq<char>>
    decreases max,
{
    if s.len() == 0 || max == 0 {
        Seq::empty()
    } else {
        let k = reach(s, n) as int;
        seq![s.take(k)] + chunks(s.skip(k), n, (max - 1) as nat)
    }
}

/// `s` in documents of at most `n` bytes, `max` of them at most, as far as the
/// next character fits.
pub open spec fn documents(s: Seq<char>, n: nat, max: nat) -> Seq<Seq<char>>
    decreases max,
{
    if s.len() == 0 || max == 0 || fitting(s, n) == 0 {
        Seq::empty()
    } else {
        let k = fitting(s, n) as int;
        seq![s.take(k)] + documents(s.skip(k), n, (max - 1) as nat)
    }
}

/// The texts of a list, one after the other.
pub open spec fn together(list: Seq<Seq<char>>) -> Seq<char>
    decreases list.len(),
{
    if list.len() == 0 {
        Seq::empty()
    } else {
        list[0] + together(list.drop_first())
    }
}

/// One more text comes after the others.
pub proof fn lemma_together_push(list: Seq<Seq<char>>, t: Seq<char>)
    ensures
        together(list.push(t)) == together(list) + t,
    decreases list.len(),
{
    let more = list.push(t);
    if list.len() == 0 {
        assert(more.drop_first() =~= list);
        assert(together(more) =~= together(list) + t);
    } else {
        lemma_together_push(list.drop_first(), t);
        assert(more.drop_first() =~= list.drop_first().push(t));
        assert(together(more) =~= together(list) + t);
    }
}

/// What `reach` says: enough bytes unless the text ends, and no character more
/// than needed.
pub proof fn lemma_reach(s: Seq<char>, n: nat)
    ensures
        reach(s, n) <= s.len(),
        n > 0 && s.len() > 0 ==> reach(s, n) > 0,
        reach(s, n) < s.len() ==> byte_count(s.take(reach(s, n) as int)) >= n,
        reach(s, n) > 0 ==> byte_count(s.take(reach(s, n) - 1)) < n,
    decreases s.len(),
{
    if s.len() > 0 && n > 0 {
        lemma_first_bytes(s.take(1));
        assert(s.take(1).drop_first() =~= Seq::<char>::empty());
        if n > width(s[0]) {
            let rest = s.drop_first();
            let m = (n - width(s[0])) as nat;
            lemma_reach(rest, m);
            let k = reach(s, n) as int;
            if k <= s.len() {
                lemma_first_bytes(s.take(k));
                assert(s.take(k).drop_first() =~= rest.take(k - 1));
                if k > 1 {
                    lemma_first_bytes(s.take(k - 1));
                    assert(s.take(k - 1).drop_first() =~= rest.take(k - 2));
                }
            }
        }
        assert(byte_count(s.take(0)) == 0);
    } else {
        assert(byte_count(s.take(0)) == 0);
    }
}

/// What `fitting` says: no more bytes than allowed, and as many characters as
/// that leaves room for.
pub proof fn lemma_fitting(s: Seq<char>, n: nat)
    ensures
        fitting(s, n) <= s.len(),
        byte_count(s.take(fitting(s, n) as int)) <= n,
        fitting(s, n) < s.len() ==> byte_count(s.take(fitting(s, n) as int + 1)) > n,
    decreases s.len(),
{
    assert(byte_count(s.take(0)) == 0);
    if s.len() > 0 {
        lemma_first_bytes(s.take(1));
        assert(s.take(1).drop_first() =~= Seq::<char>::empty());
        if n >= width(s[0]) {
            let rest = s.drop_first();
            lemma_fitting(rest, (n - width(s[0])) as nat);
            let k = fitting(s, n) as int;
            lemma_first_bytes(s.take(k));
            assert(s.take(k).drop_first() =~= rest.take(k - 1));
            if k < s.len() {
                lemma_first_bytes(s.take(k + 1));
                assert(s.take(k + 1).drop_first() =~= rest.take(k));
            }
        }
    }
}

/// Chunking drops, repeats and reorders nothing: the chunks put together are
/// the text from its start, and the whole text unless the limit stopped them.
pub proof fn law_chunks_lose_nothing(s: Seq<char>, n: nat, max: nat)
    ensures
        together(chunks(s, n, max)).is_prefix_of(s),
        chunks(s, n, max).len() <= max,
        chunks(s, n, max).len() < max ==> together(chunks(s, n, max)) == s,
    decreases max,
{
    if s.len() > 0 && max > 0 {
        let k = reach(s, n) as int;
        lemma_reach(s, n);
        let rest = chunks(s.skip(k), n, (max - 1) as nat);
        law_chunks_lose_nothing(s.skip(k), n, (max - 1) as nat);
        assert(chunks(s, n, max).drop_first() =~= rest);
        assert(s =~= s.take(k) + s.skip(k));
        let t = together(rest);
        assert(t =~= s.skip(k).take(t.len() as int));
        assert(together(chunks(s, n, max)) =~= s.take(k + t.len()));
    } else {
        assert(together(chunks(s, n, max)) =~= s.take(0));
    }
}

/// Every chunk but the last reaches the size asked for, and none goes a whole
/// character past it.
pub proof fn law_chunk_sizes(s: Seq<char>, n: nat, max: nat, i: int)
    requires
        0 <= i < chunks(s, n, max).len(),
    ensures
        i < chunks(s, n, max).len() - 1 ==> byte_count(chunks(s, n, max)[i]) >= n,
        byte_count(chunks(s, n, max)[i]) < n + 4,
    decreases max,
{
    let k = reach(s, n) as int;
    lemma_reach(s, n);
    let rest = chunks(s.skip(k), n, (max - 1) as nat);
    if i > 0 {
        law_chunk_sizes(s.skip(k), n, (max - 1) as nat, i - 1);
    } else {
        if k > 0 {
            let last = s[k - 1];
            assert(s.take(k) =~= s.take(k - 1).push(last));
            crate::text::lemma_bytes_push(s.take(k - 1), last);
        } else {
            assert(s.take(0) =~= Seq::<char>::empty());
        }
        if rest.len() > 0 {
            assert(k < s.len());
        }
    }
}

/// Documents put together are the text from its start, and each is at most the
/// size asked for and not empty.
pub proof fn law_documents(s: Seq<char>, n: nat, max: nat)
    ensures
        together(documents(s, n, max)).is_prefix_of(s),
        documents(s, n, max).len() <= max,
        forall|i: int|
            0 <= i < documents(s, n, max).len() ==> 0 < (#[trigger] documents(s, n, max)[i]).len()
                && byte_count(documents(s, n, max)[i]) <= n,
    decreases max,
{
    if s.len() > 0 && max > 0 && fitting(s, n) > 0 {
        let k = fitting(s, n) as int;
        lemma_fitting(s, n);
        let rest = documents(s.skip(k), n, (max - 1) as nat);
        law_documents(s.skip(k), n, (max - 1) as nat);
        assert(documents(s, n, max).drop_first() =~= rest);
        let t = together(rest);
        assert(s.skip(k).take(t.len() as int) =~= t);
        assert(together(documents(s, n, max)) =~= s.take(k + t.len()));
        assert forall|i: int| 0 <= i < documents(s, n, max).len() implies 0 < (
        #[trigger] documents(s, n, max)[i]).len() && byte_count(documents(s, n, max)[i]) <= n by {
            if i > 0 {
                assert(documents(s, n, max)[i] == rest[i - 1]);
            }
        }
    } else {
        assert(together(documents(s, n, max)) =~= s.take(0));
    }
}

/// Where the chunk that starts at `from` ends.
fn reach_from(v: &Vec<char>, from: usize, n: usize) -> (end: usize)
    requires
        from <= v@.len(),
    ensures
        end == from + reach(v@.skip(from as int), n as nat),
        from <= end <= v@.len(),
{
    let mut end: usize = from;
    let mut left: usize = n;
    while end < v.len() && left > 0
        invariant
            from <= end <= v@.len(),
            from + reach(v@.skip(from as int), n as nat) == end + reach(
                v@.skip(end as int),
                left as nat,
            ),
        decreases v@.len() - end,
    {
        let w: usize = char_width(v[end]);
        assert(v@.skip(end as int).drop_first() =~= v@.skip(end + 1));
        if left <= w {
            left = 0;
        } else {
            left = left - w;
        }
        end = end + 1;
    }
    end
}

/// Where the document that starts at `from` ends.
fn fitting_from(v: &Vec<char>, from: usize, n: usize) -> (end: usize)
    requires
        from <= v@.len(),
    ensures
        end == from + fitting(v@.skip(from as int), n as nat),
        from <= end <= v@.len(),
{
    let mut end: usize = from;
    let mut left: usize = n;
    while end < v.len() && char_width(v[end]) <= left
        invariant
            from <= end <= v@.len(),
            from + fitting(v@.skip(from as int), n as nat) == end + fitting(
                v@.skip(end as int),
                left as nat,
            ),
        decreases v@.len() - end,
    {
        left = left - char_width(v[end]);
        assert(v@.skip(end as int).drop_first() =~= v@.skip(end + 1));
        end = end + 1;
    }
    end
}

/// `chunks` of a text: pieces of `chunk_bytes` bytes, each carried on to the
/// next character boundary.
pub fn chunk(text: &str, chunk_bytes: usize, max_chunks: usize) -> (out: Vec<String>)
    ensures
        contents(out@) == chunks(text@, chunk_bytes as nat, max_chunks as nat),
{
    let v = chars_of(text);
    let mut out: Vec<String> = Vec::new();
    let mut start: usize = 0;
    assert(v@.skip(0) =~= v@);
    while start < v.len() && out.len() < max_chunks
        invariant
            start <= v@.len(),
            v@ == text@,
            out@.len() <= max_chunks,
            chunks(text@, chunk_bytes as nat, max_chunks as nat) =~= contents(out@) + chunks(
                v@.skip(start as int),
                chunk_bytes as nat,
                (max_chunks - out@.len()) as nat,
            ),
        decreases max_chunks - out@.len(),
    {
        let end: usize = reach_from(&v, start, chunk_bytes);
        let piece = string_of(&v, start, end);
        let ghost rest = v@.skip(start as int);
        assert(piece@ =~= rest.take(end - start));
        assert(rest.skip(end - start) =~= v@.skip(end as int));
        let ghost was = contents(out@);
        out.push(piece);
        assert(contents(out@) =~= was.push(piece@));
        start = end;
    }
    assert(contents(out@) =~= chunks(text@, chunk_bytes as nat, max_chunks as nat));
    out
}

/// The documents of the latency measurement: `samples` of them and one to warm
/// up on, as far as the text goes.
pub fn latency_documents(text: &str, max_bytes: usize, samples: usize) -> (out: Vec<String>)
    ensures
        contents(out@) == if max_bytes == 0 || samples == 0 {
            Seq::empty()
        } else {
            documents(text@, max_bytes as nat, samples as nat + 1)
        },
{
    let mut out: Vec<String> = Vec::new();
    if max_bytes == 0 || samples == 0 {
        assert(contents(out@) =~= Seq::empty());
        return out;
    }
    let v = chars_of(text);
    let mut start: usize = 0;
    assert(v@.skip(0) =~= v@);
    while start < v.len() && out.len() <= samples
        invariant
            start <= v@.len(),
            v@ == text@,
            out@.len() <= samples + 1,
            documents(text@, max_bytes as nat, samples as nat + 1) =~= contents(out@) + documents(
                v@.skip(start as int),
                max_bytes as nat,
                (samples + 1 - out@.len()) as nat,
            ),
        decreases samples + 1 - out@.len(),
    {
        let end: usize = fitting_from(&v, start, max_bytes);
        if end == start {
            assert(contents(out@) =~= documents(text@, max_bytes as nat, samples as nat + 1));
            return out;
        }
        let piece = string_of(&v, start, end);
        let ghost rest = v@.skip(start as int);
        assert(piece@ =~= rest.take(end - start));
        assert(rest.skip(end - start) =~= v@.skip(end as int));
        let ghost was = contents(out@);
        out.push(piece);
        assert(contents(out@) =~= was.push(piece@));
        start = end;
    }
    assert(contents(out@) =~= documents(text@, max_bytes as nat, samples as nat + 1));
    out
}

/// Putting texts together is what flattens a list of them.
pub proof fn lemma_together_flat(list: Seq<Seq<char>>)
    ensures
        together(list) == list.flatten(),
    decreases list.len(),
{
    if list.len() > 0 {
        lemma_together_flat(list.drop_first());
    }
}

proof fn lemma_chunk_ends(s: Seq<char>, n: nat, max: nat, i: int)
    requires
        n > 0,
        0 <= i < chunks(s, n, max).len(),
    ensures
        chunks(s, n, max)[i].len() > 0,
        byte_count(chunks(s, n, max)[i].drop_last()) < n,
        byte_count(chunks(s, n, max)[i]) >= n || together(chunks(s, n, max)) == s,
    decreases max,
{
    let k = reach(s, n) as int;
    lemma_reach(s, n);
    let rest = chunks(s.skip(k), n, (max - 1) as nat);
    assert(chunks(s, n, max).drop_first() =~= rest);
    assert(s =~= s.take(k) + s.skip(k));
    if i > 0 {
        lemma_chunk_ends(s.skip(k), n, (max - 1) as nat, i - 1);
    } else {
        assert(s.take(k).drop_last() =~= s.take(k - 1));
        if k == s.len() {
            assert(s.skip(k) =~= Seq::<char>::empty());
            assert(rest =~= Seq::empty());
            assert(together(rest) =~= Seq::<char>::empty());
        }
    }
}

/// The chunks of a text are the text itself, cut between characters: put together
/// they are its start, and all of it unless there were more than were asked for.
/// None is empty, each has the bytes asked for unless the text ends with it, and
/// has them only with its last character.
pub proof fn law_chunk_cuts_the_text(
    text: &str,
    chunk_bytes: usize,
    max_chunks: usize,
    out: Vec<String>,
)
    requires
        call_ensures(chunk, (text, chunk_bytes, max_chunks), out),
        chunk_bytes > 0,
    ensures
        out@.len() <= max_chunks,
        contents(out@).flatten().is_prefix_of(text@),
        out@.len() < max_chunks ==> contents(out@).flatten() == text@,
        forall|i: int|
            0 <= i < out@.len() ==> {
                &&& (#[trigger] out@[i])@.len() > 0
                &&& encode_utf8(out@[i]@.drop_last()).len() < chunk_bytes
                &&& encode_utf8(out@[i]@).len() >= chunk_bytes || (i == out@.len() - 1 && contents(
                    out@,
                ).flatten() == text@)
            },
{
    let list = contents(out@);
    let n = chunk_bytes as nat;
    let max = max_chunks as nat;
    assert(list.len() == out@.len());
    lemma_together_flat(list);
    law_chunks_lose_nothing(text@, n, max);
    assert forall|i: int| 0 <= i < out@.len() implies {
        &&& (#[trigger] out@[i])@.len() > 0
        &&& encode_utf8(out@[i]@.drop_last()).len() < chunk_bytes
        &&& encode_utf8(out@[i]@).len() >= chunk_bytes || (i == out@.len() - 1 && list.flatten()
            == text@)
    } by {
        assert(list[i] == out@[i]@);
        lemma_chunk_ends(text@, n, max, i);
        law_chunk_sizes(text@, n, max, i);
    }
}

proof fn lemma_document_ends(s: Seq<char>, n: nat, max: nat, i: int)
    requires
        0 <= i < documents(s, n, max).len(),
    ensures
        ({
            let end = together(documents(s, n, max).take(i + 1)).len() as int;
            &&& end <= s.len()
            &&& end < s.len() ==> byte_count(documents(s, n, max)[i].push(s[end])) > n
        }),
    decreases max,
{
    let k = fitting(s, n) as int;
    lemma_fitting(s, n);
    let all = documents(s, n, max);
    let tail = s.skip(k);
    let rest = documents(tail, n, (max - 1) as nat);
    assert(all.drop_first() =~= rest);
    let front = all.take(i + 1);
    assert(front.drop_first() =~= rest.take(i));
    if i > 0 {
        lemma_document_ends(tail, n, (max - 1) as nat, i - 1);
        let end = together(front).len() as int;
        assert(end == k + together(rest.take(i)).len());
        if end < s.len() {
            assert(tail[end - k] == s[end]);
        }
    } else {
        assert(together(rest.take(0)) =~= Seq::<char>::empty());
        if k < s.len() {
            assert(s.take(k + 1) =~= s.take(k).push(s[k]));
        }
    }
}

proof fn lemma_documents_stop(s: Seq<char>, n: nat, max: nat)
    ensures
        ({
            let end = together(documents(s, n, max)).len() as int;
            &&& end <= s.len()
            &&& documents(s, n, max).len() < max && end < s.len() ==> byte_count(seq![s[end]]) > n
        }),
    decreases max,
{
    let k = fitting(s, n) as int;
    lemma_fitting(s, n);
    let all = documents(s, n, max);
    if s.len() > 0 && max > 0 && k > 0 {
        let tail = s.skip(k);
        let rest = documents(tail, n, (max - 1) as nat);
        lemma_documents_stop(tail, n, (max - 1) as nat);
        assert(all.drop_first() =~= rest);
        let end = together(all).len() as int;
        assert(end == k + together(rest).len());
        if end < s.len() {
            assert(tail[end - k] == s[end]);
        }
    } else {
        assert(together(all) =~= Seq::<char>::empty());
        if s.len() > 0 && max > 0 {
            assert(s.take(1) =~= seq![s[0]]);
        }
    }
}

/// The documents of a latency measurement are the text itself, cut between
/// characters: put together they are its start. There is one more than the samples
/// asked for at most, none is empty or larger than was asked for, and each is as
/// long as that lets it be: with the character that follows it would be too large.
/// There are fewer only where the text ends, or its next character alone is too
/// large.
pub proof fn law_latency_documents_cut_the_text(
    text: &str,
    max_bytes: usize,
    samples: usize,
    out: Vec<String>,
)
    requires
        call_ensures(latency_documents, (text, max_bytes, samples), out),
    ensures
        max_bytes == 0 || samples == 0 ==> out@.len() == 0,
        out@.len() <= samples + 1,
        contents(out@).flatten().is_prefix_of(text@),
        forall|i: int|
            0 <= i < out@.len() ==> 0 < (#[trigger] out@[i])@.len() && encode_utf8(out@[i]@).len()
                <= max_bytes,
        forall|i: int|
            #![trigger out@[i]]
            0 <= i < out@.len() && contents(out@).take(i + 1).flatten().len() < text@.len()
                ==> encode_utf8(
                out@[i]@.push(text@[contents(out@).take(i + 1).flatten().len() as int]),
            ).len() > max_bytes,
        max_bytes > 0 && samples > 0 && out@.len() <= samples && contents(out@).flatten().len()
            < text@.len() ==> encode_utf8(
            seq![text@[contents(out@).flatten().len() as int]],
        ).len() > max_bytes,
{
    let list = contents(out@);
    assert(list.len() == out@.len());
    lemma_together_flat(list);
    let n = max_bytes as nat;
    let max = samples as nat + 1;
    if max_bytes == 0 || samples == 0 {
        assert(list.flatten() =~= text@.take(0));
    } else {
        law_documents(text@, n, max);
        lemma_documents_stop(text@, n, max);
        assert forall|i: int| 0 <= i < out@.len() implies 0 < (#[trigger] out@[i])@.len()
            && encode_utf8(out@[i]@).len() <= max_bytes by {
            assert(list[i] == out@[i]@);
            assert(0 < documents(text@, n, max)[i].len());
        }
        assert forall|i: int|
            #![trigger out@[i]]
            0 <= i < out@.len() && list.take(i + 1).flatten().len()
                < text@.len() implies encode_utf8(
            out@[i]@.push(text@[list.take(i + 1).flatten().len() as int]),
        ).len() > max_bytes by {
            assert(list[i] == out@[i]@);
            lemma_together_flat(list.take(i + 1));
            lemma_document_ends(text@, n, max, i);
        }
    }
}

/// Chunks of no bytes are empty, and there are as many as were asked for, unless there is no
/// text.
pub proof fn law_chunks_of_no_bytes(text: &str, max_chunks: usize, out: Vec<String>)
    requires
        call_ensures(chunk, (text, 0, max_chunks), out),
    ensures
        text@.len() == 0 ==> out@.len() == 0,
        text@.len() > 0 ==> out@.len() == max_chunks,
        forall|i: int| 0 <= i < out@.len() ==> (#[trigger] out@[i])@.len() == 0,
{
    let list = contents(out@);
    assert(list.len() == out@.len());
    lemma_empty_chunks(text@, max_chunks as nat);
    assert forall|i: int| 0 <= i < out@.len() implies (#[trigger] out@[i])@.len() == 0 by {
        assert(list[i] == out@[i]@);
    }
}

proof fn lemma_empty_chunks(s: Seq<char>, max: nat)
    ensures
        s.len() == 0 ==> chunks(s, 0, max).len() == 0,
        s.len() > 0 ==> chunks(s, 0, max).len() == max,
        forall|i: int| 0 <= i < chunks(s, 0, max).len() ==> (#[trigger] chunks(s, 0, max)[i]).len() == 0,
    decreases max,
{
    if s.len() > 0 && max > 0 {
        lemma_reach(s, 0);
        let k = reach(s, 0) as int;
        assert(k == 0);
        assert(s.skip(0) =~= s);
        let rest = chunks(s, 0, (max - 1) as nat);
        lemma_empty_chunks(s, (max - 1) as nat);
        let all = chunks(s, 0, max);
        assert(all == seq![s.take(0)] + rest);
        assert forall|i: int| 0 <= i < all.len() implies (#[trigger] all[i]).len() == 0 by {
            if i > 0 {
                assert(all[i] == rest[i - 1]);
            }
        }
    }
}

}
