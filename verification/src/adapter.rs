//! What every adapter does around its library's calls: where the ids go, what a
//! failed decode is answered, and which widths are honoured.

use crate::engine::{refused, unsupported, Ids, Unsupported};
use vstd::prelude::*;
use vstd::string::StringExecFns;

verus! {

/// Ids that a library returned for a text, appended to `out`; nothing where the
/// library failed.
pub fn extend_ids(found: Option<Vec<u32>>, out: &mut Ids)
    ensures
        final(out)@ == old(out)@ + (match found {
            Some(ids) => ids@,
            None => Seq::empty(),
        }),
{
    match found {
        Some(ids) => {
            out.extend_from_slice(ids.as_slice());
        },
        None => {
            assert(out@ =~= old(out)@ + Seq::<u32>::empty());
        },
    }
}

/// The ids of a batch, one text after the other.
pub open spec fn flat(batch: Seq<Vec<u32>>) -> Seq<u32>
    decreases batch.len(),
{
    if batch.len() == 0 {
        Seq::empty()
    } else {
        flat(batch.drop_last()) + batch.last()@
    }
}

/// Ids that a library returned for a batch, appended to `out` text by text;
/// nothing where the library failed.
pub fn extend_batch(found: Option<Vec<Vec<u32>>>, out: &mut Ids)
    ensures
        final(out)@ == old(out)@ + (match found {
            Some(batch) => flat(batch@),
            None => Seq::empty(),
        }),
{
    match found {
        Some(batch) => {
            let mut i: usize = 0;
            assert(batch@.take(0) =~= Seq::empty());
            assert(out@ =~= old(out)@ + flat(batch@.take(0)));
            while i < batch.len()
                invariant
                    i <= batch@.len(),
                    out@ == old(out)@ + flat(batch@.take(i as int)),
                decreases batch@.len() - i,
            {
                out.extend_from_slice(batch[i].as_slice());
                assert(batch@.take(i + 1).drop_last() =~= batch@.take(i as int));
                assert(out@ =~= old(out)@ + flat(batch@.take(i + 1)));
                i = i + 1;
            }
            assert(batch@.take(batch@.len() as int) =~= batch@);
        },
        None => {
            assert(out@ =~= old(out)@ + Seq::<u32>::empty());
        },
    }
}

/// What a decode is answered: the text appended to `out`, or a refusal that
/// carries the library's message and leaves `out` as it was.
pub fn settle_decode(found: Result<String, String>, out: &mut String) -> (r: Result<
    (),
    Unsupported,
>)
    ensures
        match found {
            Ok(text) => r is Ok && final(out)@ == old(out)@ + text@,
            Err(e) => refused(r, "decode failed: "@ + e@) && final(out)@ == old(out)@,
        },
{
    match found {
        Ok(text) => {
            out.append(text.as_str());
            Ok(())
        },
        Err(e) => {
            let mut msg = "decode failed: ".to_owned();
            msg.append(e.as_str());
            unsupported(msg.as_str())
        },
    }
}

/// The same for a library that gives no reason.
pub fn settle_optional_decode(found: Option<String>, out: &mut String) -> (r: Result<
    (),
    Unsupported,
>)
    ensures
        match found {
            Some(text) => r is Ok && final(out)@ == old(out)@ + text@,
            None => refused(r, "decode returned None (invalid utf-8)"@) && final(out)@ == old(
                out,
            )@,
        },
{
    match found {
        Some(text) => {
            out.append(text.as_str());
            Ok(())
        },
        None => unsupported("decode returned None (invalid utf-8)"),
    }
}

/// What a request for a width asks of an adapter.
#[derive(Clone, Copy, Debug, PartialEq, Eq, Structural)]
pub enum Width {
    /// No threads at all: refused.
    Refused,
    /// One thread: the caller's own, and no pool.
    Own,
    /// A pool of this many threads.
    Pool(usize),
}

/// What `threads` asks for.
pub fn width_of(threads: usize) -> (w: Width)
    ensures
        threads == 0 ==> w == Width::Refused,
        threads == 1 ==> w == Width::Own,
        threads > 1 ==> w == Width::Pool(threads),
{
    if threads == 0 {
        Width::Refused
    } else if threads == 1 {
        Width::Own
    } else {
        Width::Pool(threads)
    }
}

// ---------------------------------------------------------------------------
// What the answers are
// ---------------------------------------------------------------------------

/// The ids of a text, or of the texts of a batch in their order, go behind what is there
/// already, which stays; a library that failed adds nothing.
pub proof fn law_ids_are_appended(
    found: Option<Vec<u32>>,
    before: Ids,
    after: Ids,
    batch: Option<Vec<Vec<u32>>>,
    later: Ids,
)
    requires
        exists|out: &mut Ids|
            *out == before && *final(out) == after && #[trigger] call_ensures(
                extend_ids,
                (found, out),
                (),
            ),
        exists|out: &mut Ids|
            *out == before && *final(out) == later && #[trigger] call_ensures(
                extend_batch,
                (batch, out),
                (),
            ),
    ensures
        found is Some ==> after@ == before@ + found->0@,
        found is None ==> after@ == before@,
        batch is Some ==> later@ == before@ + batch->0@.map_values(|ids: Vec<u32>| ids@).flatten(),
        batch is None ==> later@ == before@,
{
    assert(before@ + Seq::<u32>::empty() =~= before@);
    if let Some(list) = batch {
        lemma_flat(list@);
    }
}

proof fn lemma_flat(batch: Seq<Vec<u32>>)
    ensures
        flat(batch) == batch.map_values(|ids: Vec<u32>| ids@).flatten(),
    decreases batch.len(),
{
    let all = batch.map_values(|ids: Vec<u32>| ids@);
    all.lemma_flatten_and_flatten_alt_are_equivalent();
    if batch.len() > 0 {
        let less = batch.drop_last().map_values(|ids: Vec<u32>| ids@);
        lemma_flat(batch.drop_last());
        less.lemma_flatten_and_flatten_alt_are_equivalent();
        assert(all.drop_last() =~= less);
        assert(all.last() == batch.last()@);
    }
}

/// A decoded text goes behind what is there already. A decode that failed leaves it as it
/// was and is refused, in the library's words where it has some.
pub proof fn law_decodes_are_settled(
    found: Result<String, String>,
    optional: Option<String>,
    before: String,
    after: String,
    later: String,
    r: Result<(), Unsupported>,
    s: Result<(), Unsupported>,
)
    requires
        exists|out: &mut String|
            *out == before && *final(out) == after && #[trigger] call_ensures(
                settle_decode,
                (found, out),
                r,
            ),
        exists|out: &mut String|
            *out == before && *final(out) == later && #[trigger] call_ensures(
                settle_optional_decode,
                (optional, out),
                s,
            ),
    ensures
        r is Ok <==> found is Ok,
        found is Ok ==> after@ == before@ + found->Ok_0@,
        found is Err ==> after@ == before@ && r->Err_0.0@ == "decode failed: "@ + found->Err_0@,
        s is Ok <==> optional is Some,
        optional is Some ==> later@ == before@ + optional->0@,
        optional is None ==> later@ == before@ && s->Err_0.0@
            == "decode returned None (invalid utf-8)"@,
{
}

/// No thread is refused, one is the caller's own, and more are a pool of as many.
pub proof fn law_widths_are_honoured(threads: usize, w: Width)
    requires
        call_ensures(width_of, (threads,), w),
    ensures
        w is Refused <==> threads == 0,
        w is Own <==> threads == 1,
        w is Pool ==> w->Pool_0 == threads,
{
}

}
