//! What an engine is: the trait every adapter implements, the facts it declares
//! about itself, and the history by which the harness's promises are stated.

use crate::text::{byte_count, lemma_bytes_concat};
use vstd::prelude::*;
use vstd::utf8::encode_utf8;

verus! {

pub type Ids = Vec<u32>;

/// How an engine reaches this process.
#[derive(Clone, Copy, PartialEq, Eq, Structural, Debug)]
pub enum Class {
    Native,
    Cffi,
}

impl Class {
    pub open spec fn label(self) -> Seq<char> {
        match self {
            Class::Native => "native"@,
            Class::Cffi => "cffi"@,
        }
    }

    pub fn as_str(self) -> (r: &'static str)
        ensures
            r@ == self.label(),
    {
        match self {
            Class::Native => "native",
            Class::Cffi => "cffi",
        }
    }
}

/// What an engine declares about itself.
#[derive(Clone, Debug)]
pub struct Info {
    pub name: &'static str,
    pub version: &'static str,
    pub lang: &'static str,
    pub class: Class,
    pub url: &'static str,
    pub also_computes: &'static str,
    pub internally_parallel: bool,
}

/// A model: its name and the directory that holds its files.
#[derive(Clone, Debug)]
pub struct Model {
    pub name: String,
    pub dir: String,
}

/// The path of `file` seen from `dir`: an absolute file stands for itself, and
/// one separator stands between the two otherwise.
pub open spec fn joined(dir: Seq<char>, file: Seq<char>) -> Seq<char> {
    if file.len() > 0 && file[0] == '/' {
        file
    } else if dir.len() == 0 || dir.last() == '/' {
        dir + file
    } else {
        dir.push('/') + file
    }
}

/// `joined`, computed.
pub fn join_path(dir: &str, file: &str) -> (r: String)
    ensures
        r@ == joined(dir@, file@),
{
    let d = crate::text::chars_of(dir);
    let f = crate::text::chars_of(file);
    if f.len() > 0 && f[0] == '/' {
        return file.to_owned();
    }
    let mut r = dir.to_owned();
    if d.len() > 0 && d[d.len() - 1] != '/' {
        r.push('/');
    }
    r.append(file);
    r
}

impl Model {
    pub fn tokenizer_json(&self) -> (r: String)
        ensures
            r@ == joined(self.dir@, "tokenizer.json"@),
    {
        join_path(self.dir.as_str(), "tokenizer.json")
    }

    /// Where `file` stands, if it is there: `exists` says whether the path
    /// `join_path(dir, file)` exists.
    pub fn artifact(&self, file: &str, exists: bool) -> (r: Option<String>)
        ensures
            exists ==> r is Some && r->0@ == joined(self.dir@, file@),
            !exists ==> r is None,
    {
        if exists {
            Some(join_path(self.dir.as_str(), file))
        } else {
            None
        }
    }
}

/// Why an engine does not run here.
#[derive(Debug)]
pub struct Unsupported(pub String);

impl Unsupported {
    /// The reason, as it is shown.
    pub fn message(&self) -> (r: &str)
        ensures
            r@ == self.0@,
    {
        self.0.as_str()
    }
}

/// Whether `r` is a refusal for the given reason.
pub open spec fn refused<T>(r: Result<T, Unsupported>, msg: Seq<char>) -> bool {
    r is Err && r->Err_0.0@ == msg
}

/// A refusal for the given reason.
pub fn unsupported<T>(msg: &str) -> (r: Result<T, Unsupported>)
    ensures
        refused(r, msg@),
{
    Err(Unsupported(msg.to_owned()))
}

/// How a batch is padded.
#[derive(Clone, Copy, Debug, PartialEq, Eq, Structural)]
pub enum Padding {
    Off,
    Longest,
}

impl Padding {
    pub open spec fn label(self) -> Seq<char> {
        match self {
            Padding::Off => "off"@,
            Padding::Longest => "longest"@,
        }
    }

    pub fn as_str(self) -> (r: &'static str)
        ensures
            r@ == self.label(),
    {
        match self {
            Padding::Off => "off",
            Padding::Longest => "longest",
        }
    }
}

// ---------------------------------------------------------------------------
// The engine
// ---------------------------------------------------------------------------

/// One text handed to an engine, what the output buffer held when it was handed
/// over, and what it held when the call returned.
pub ghost struct Run {
    pub text: Seq<char>,
    pub given: Seq<u32>,
    pub ids: Seq<u32>,
}

/// One successful decode: the ids handed in, what the text buffer held when they
/// were, and what it held when the call returned.
pub ghost struct Decoded {
    pub ids: Seq<u32>,
    pub given: Seq<char>,
    pub text: Seq<char>,
}

/// Whether a history went from `before` to `after` by encoding exactly the texts
/// `list`, in that order.
pub open spec fn appended(before: Seq<Run>, after: Seq<Run>, list: Seq<Seq<char>>) -> bool {
    &&& after.len() == before.len() + list.len()
    &&& forall|k: int| 0 <= k < before.len() ==> after[k] == #[trigger] before[k]
    &&& forall|k: int|
        0 <= k < list.len() ==> after[before.len() + k].text == #[trigger] list[k]
}

/// One stretch of work after another is both together.
pub proof fn lemma_appended_both(
    a: Seq<Run>,
    b: Seq<Run>,
    c: Seq<Run>,
    s: Seq<Seq<char>>,
    t: Seq<Seq<char>>,
)
    requires
        appended(a, b, s),
        appended(b, c, t),
    ensures
        appended(a, c, s + t),
{
    assert forall|k: int| 0 <= k < a.len() implies c[k] == #[trigger] a[k] by {
        assert(b[k] == a[k]);
        assert(c[k] == b[k]);
    }
    assert forall|k: int| 0 <= k < (s + t).len() implies c[a.len() + k].text == #[trigger] (s
        + t)[k] by {
        if k < s.len() {
            assert(b[a.len() + k].text == s[k]);
            assert(c[a.len() + k] == b[a.len() + k]);
        } else {
            assert(c[b.len() + (k - s.len())].text == t[k - s.len()]);
        }
    }
}

/// Whether every run from `from` on was given an empty buffer.
pub open spec fn fresh(runs: Seq<Run>, from: nat) -> bool {
    forall|k: int| from <= k < runs.len() ==> (#[trigger] runs[k]).given.len() == 0
}

/// Whether every decode from `from` on was given an empty buffer.
pub open spec fn fresh_decodes(decodes: Seq<Decoded>, from: nat) -> bool {
    forall|k: int| from <= k < decodes.len() ==> (#[trigger] decodes[k]).given.len() == 0
}

/// Two stretches of work into empty buffers are one.
pub proof fn lemma_fresh_both(a: nat, b: Seq<Run>, c: Seq<Run>, list: Seq<Seq<char>>)
    requires
        fresh(b, a),
        appended(b, c, list),
        fresh(c, b.len()),
    ensures
        fresh(c, a),
{
    assert forall|k: int| a <= k < c.len() implies (#[trigger] c[k]).given.len() == 0 by {
        if k < b.len() {
            assert(c[k] == b[k]);
        }
    }
}

/// Whether a history went from `before` to `after` by encoding the texts `list`
/// in that order, each into the buffer as the one before it had left it: the
/// buffer held `given` at first and `ids` at last.
pub open spec fn threaded(
    before: Seq<Run>,
    after: Seq<Run>,
    list: Seq<Seq<char>>,
    given: Seq<u32>,
    ids: Seq<u32>,
) -> bool
    decreases list.len(),
{
    if list.len() == 0 {
        after == before && ids == given
    } else {
        &&& after.len() > 0
        &&& after.last().text == list.last()
        &&& after.last().ids == ids
        &&& threaded(before, after.drop_last(), list.drop_last(), given, after.last().given)
    }
}

/// One batch after another, into the same buffer, gives what the batch of both
/// gives.
pub proof fn law_batches_join(
    before: Seq<Run>,
    mid: Seq<Run>,
    after: Seq<Run>,
    s: Seq<Seq<char>>,
    t: Seq<Seq<char>>,
    given: Seq<u32>,
    held: Seq<u32>,
    ids: Seq<u32>,
)
    requires
        threaded(before, mid, s, given, held),
        threaded(mid, after, t, held, ids),
    ensures
        threaded(before, after, s + t, given, ids),
    decreases t.len(),
{
    if t.len() == 0 {
        assert(s + t =~= s);
    } else {
        assert((s + t).drop_last() =~= s + t.drop_last());
        law_batches_join(
            before,
            mid,
            after.drop_last(),
            s,
            t.drop_last(),
            given,
            held,
            after.last().given,
        );
    }
}

/// What the buffer held before the last `n` runs of a history that ends with it
/// holding `ids`.
pub open spec fn held_before(after: Seq<Run>, n: nat, ids: Seq<u32>) -> Seq<u32> {
    if n == 0 {
        ids
    } else {
        after[after.len() - n].given
    }
}

/// The batch of two lists gives what the one gives and then the other, into the
/// buffer that the first left.
pub proof fn law_batches_part(
    before: Seq<Run>,
    after: Seq<Run>,
    s: Seq<Seq<char>>,
    t: Seq<Seq<char>>,
    given: Seq<u32>,
    ids: Seq<u32>,
)
    requires
        threaded(before, after, s + t, given, ids),
    ensures
        t.len() <= after.len(),
        ({
            let mid = after.take(after.len() - t.len());
            let held = held_before(after, t.len(), ids);
            threaded(before, mid, s, given, held) && threaded(mid, after, t, held, ids)
        }),
    decreases t.len(),
{
    if t.len() == 0 {
        assert(s + t =~= s);
        assert(after.take(after.len() as int) =~= after);
    } else {
        assert((s + t).drop_last() =~= s + t.drop_last());
        let less = after.drop_last();
        law_batches_part(before, less, s, t.drop_last(), given, after.last().given);
        assert(less.take(less.len() - (t.len() - 1)) =~= after.take(after.len() - t.len()));
        assert(held_before(less, (t.len() - 1) as nat, after.last().given) == held_before(
            after,
            t.len(),
            ids,
        ));
    }
}

/// One call of `encode` appends its text.
pub proof fn lemma_appended_one(before: Seq<Run>, run: Run)
    ensures
        appended(before, before.push(run), seq![run.text]),
{
}

/// The ids of a history, one run after the other.
pub open spec fn ids_of(runs: Seq<Run>) -> Seq<u32>
    decreases runs.len(),
{
    if runs.len() == 0 {
        Seq::empty()
    } else {
        ids_of(runs.drop_last()) + runs.last().ids
    }
}

/// The characters of each text of a batch.
pub open spec fn batch_texts(batch: Seq<&str>) -> Seq<Seq<char>> {
    batch.map_values(|t: &str| t@)
}

/// The number of bytes of a list of texts.
pub open spec fn total_bytes(list: Seq<Seq<char>>) -> nat
    decreases list.len(),
{
    if list.len() == 0 {
        0
    } else {
        total_bytes(list.drop_last()) + byte_count(list.last())
    }
}

/// The bytes of two lists are the bytes of each.
pub proof fn lemma_total_bytes_concat(a: Seq<Seq<char>>, b: Seq<Seq<char>>)
    ensures
        total_bytes(a + b) == total_bytes(a) + total_bytes(b),
    decreases b.len(),
{
    if b.len() == 0 {
        assert(a + b =~= a);
    } else {
        lemma_total_bytes_concat(a, b.drop_last());
        assert((a + b).drop_last() =~= a + b.drop_last());
    }
}

/// The bytes of a list of texts are those that UTF-8 writes the texts in, one
/// after the other.
pub proof fn law_bytes_are_utf8(list: Seq<Seq<char>>)
    ensures
        total_bytes(list) == encode_utf8(list.flatten()).len(),
    decreases list.len(),
{
    if list.len() > 0 {
        let rest = list.drop_first();
        law_bytes_are_utf8(rest);
        lemma_bytes_concat(list.first(), rest.flatten());
        lemma_total_bytes_concat(seq![list.first()], rest);
        assert(seq![list.first()] + rest =~= list);
        assert(seq![list.first()].drop_last() =~= Seq::empty());
        assert(total_bytes(Seq::<Seq<char>>::empty()) == 0);
        assert(total_bytes(seq![list.first()]) == byte_count(list.first()));
        assert(list.flatten() == list.first() + rest.flatten());
    } else {
        assert(list.flatten() =~= Seq::empty());
    }
}

/// Texts of one size hold as many times that as there are texts.
pub proof fn law_bytes_of_equal_texts(list: Seq<Seq<char>>, size: nat)
    requires
        forall|i: int| 0 <= i < list.len() ==> encode_utf8(#[trigger] list[i]).len() == size,
    ensures
        total_bytes(list) == list.len() * size,
    decreases list.len(),
{
    if list.len() > 0 {
        law_bytes_of_equal_texts(list.drop_last(), size);
        assert((list.len() - 1) * size + size == list.len() * size) by (nonlinear_arith);
        assert(encode_utf8(list[list.len() - 1]).len() == size);
    } else {
        assert(0 * size == 0) by (nonlinear_arith);
    }
}

/// A stretch of a list holds no more bytes than the list.
pub proof fn lemma_total_bytes_within(list: Seq<Seq<char>>, from: int, to: int)
    requires
        0 <= from <= to <= list.len(),
    ensures
        total_bytes(list.subrange(from, to)) <= total_bytes(list),
{
    let a = list.take(from);
    let b = list.subrange(from, to);
    let c = list.skip(to);
    lemma_total_bytes_concat(a, b);
    lemma_total_bytes_concat(a + b, c);
    assert(a + b + c =~= list);
}

/// A tokenizer under measurement.
///
/// `runs` and `decodes` are its history: every text it was given to encode, and
/// every decode that succeeded. They exist only in contracts, and let a harness
/// function say exactly which text it hands to an engine and how often.
pub trait Engine: Send {
    /// Every text encoded so far.
    open spec fn runs(&self) -> Seq<Run> {
        arbitrary()
    }

    /// Every decode that succeeded so far.
    open spec fn decodes(&self) -> Seq<Decoded> {
        arbitrary()
    }

    fn info(&self) -> (r: Info);

    /// Encodes one text; the ids go to `out`.
    fn encode(&mut self, text: &str, out: &mut Ids)
        ensures
            final(self).runs() == old(self).runs().push(
                Run { text: text@, given: old(out)@, ids: final(out)@ },
            ),
            final(self).decodes() == old(self).decodes(),
    ;

    /// Asks for a width; the answer says whether it is honoured.
    fn set_threads(&mut self, threads: usize) -> (honoured: bool)
        ensures
            final(self).runs() == old(self).runs(),
            final(self).decodes() == old(self).decodes(),
        default_ensures
            !honoured,
    {
        false
    }

    /// Encodes every text of a batch, in any way that hands each over once.
    fn encode_batch(&mut self, batch: &[&str], out: &mut Ids)
        ensures
            appended(old(self).runs(), final(self).runs(), batch_texts(batch@)),
            final(self).decodes() == old(self).decodes(),
        default_ensures
            threaded(
                old(self).runs(),
                final(self).runs(),
                batch_texts(batch@),
                old(out)@,
                final(out)@,
            ),
            forall|k: int|
                old(self).runs().len() <= k < final(self).runs().len() ==> exists|
                    e: &mut Self,
                    text: &str,
                    ids: &mut Ids,
                |
                    text@ == final(self).runs()[k].text && ids@ == (#[trigger] final(self).runs()[k]).given
                        && final(ids)@ == final(self).runs()[k].ids && #[trigger] call_ensures(
                        Self::encode,
                        (e, text, ids),
                        (),
                    ),
    {
        let mut i: usize = 0;
        while i < batch.len()
            invariant
                i <= batch@.len(),
                appended(old(self).runs(), self.runs(), batch_texts(batch@.take(i as int))),
                threaded(
                    old(self).runs(),
                    self.runs(),
                    batch_texts(batch@.take(i as int)),
                    old(out)@,
                    out@,
                ),
                forall|k: int|
                    old(self).runs().len() <= k < self.runs().len() ==> exists|
                        e: &mut Self,
                        text: &str,
                        ids: &mut Ids,
                    |
                        text@ == self.runs()[k].text && ids@ == (#[trigger] self.runs()[k]).given
                            && final(ids)@ == self.runs()[k].ids && #[trigger] call_ensures(
                            Self::encode,
                            (e, text, ids),
                            (),
                        ),
                self.decodes() == old(self).decodes(),
            decreases batch@.len() - i,
        {
            let ghost before = self.runs();
            self.encode(batch[i], out);
            proof {
                let done = batch_texts(batch@.take(i as int));
                lemma_appended_one(before, self.runs().last());
                lemma_appended_both(
                    old(self).runs(),
                    before,
                    self.runs(),
                    done,
                    seq![batch@[i as int]@],
                );
                assert(batch_texts(batch@.take(i + 1)) =~= done + seq![batch@[i as int]@]);
                assert(batch_texts(batch@.take(i + 1)).drop_last() =~= done);
                assert(self.runs().drop_last() =~= before);
            }
            i = i + 1;
        }
        assert(batch@.take(batch@.len() as int) =~= batch@);
    }

    /// Whether batches run through the engine's own fan-out.
    fn has_native_batch(&self) -> (r: bool)
        default_ensures
            !r,
    {
        false
    }

    /// Asks for a padding; the answer says whether it is honoured.
    fn set_padding(&mut self, padding: Padding) -> (honoured: bool)
        ensures
            final(self).runs() == old(self).runs(),
            final(self).decodes() == old(self).decodes(),
        default_ensures
            honoured == (padding == Padding::Off),
    {
        matches!(padding, Padding::Off)
    }

    /// Decodes ids; the text goes to `out`.
    fn decode(&mut self, ids: &[u32], out: &mut String) -> (r: Result<(), Unsupported>)
        ensures
            final(self).runs() == old(self).runs(),
            r is Ok ==> final(self).decodes() == old(self).decodes().push(
                Decoded { ids: ids@, given: old(out)@, text: final(out)@ },
            ),
            r is Err ==> final(self).decodes() == old(self).decodes(),
        default_ensures
            refused(r, "library exposes no decode entry point"@),
            final(out)@ == old(out)@,
    {
        unsupported("library exposes no decode entry point")
    }
}

/// An engine behind a pointer is that engine: what it is asked and what it answers
/// are one call of the engine itself.
impl<E: Engine + ?Sized> Engine for Box<E> {
    open spec fn runs(&self) -> Seq<Run> {
        (**self).runs()
    }

    open spec fn decodes(&self) -> Seq<Decoded> {
        (**self).decodes()
    }

    fn info(&self) -> (r: Info)
        ensures
            call_ensures(E::info, (&**self,), r),
    {
        (**self).info()
    }

    fn encode(&mut self, text: &str, out: &mut Ids)
        ensures
            exists|e: &mut E, ids: &mut Ids|
                &*e == &**old(self) && &*final(e) == &**final(self) && *ids == *old(out)
                    && *final(ids) == *final(out) && #[trigger] call_ensures(
                    E::encode,
                    (e, text, ids),
                    (),
                ),
    {
        let e: &mut E = &mut **self;
        e.encode(text, out)
    }

    fn set_threads(&mut self, threads: usize) -> (honoured: bool)
        ensures
            exists|e: &mut E|
                &*e == &**old(self) && &*final(e) == &**final(self) && #[trigger] call_ensures(
                    E::set_threads,
                    (e, threads),
                    honoured,
                ),
    {
        let e: &mut E = &mut **self;
        e.set_threads(threads)
    }

    fn encode_batch(&mut self, batch: &[&str], out: &mut Ids)
        ensures
            exists|e: &mut E, ids: &mut Ids|
                &*e == &**old(self) && &*final(e) == &**final(self) && *ids == *old(out)
                    && *final(ids) == *final(out) && #[trigger] call_ensures(
                    E::encode_batch,
                    (e, batch, ids),
                    (),
                ),
    {
        let e: &mut E = &mut **self;
        e.encode_batch(batch, out)
    }

    fn has_native_batch(&self) -> (r: bool)
        ensures
            call_ensures(E::has_native_batch, (&**self,), r),
    {
        (**self).has_native_batch()
    }

    fn set_padding(&mut self, padding: Padding) -> (honoured: bool)
        ensures
            exists|e: &mut E|
                &*e == &**old(self) && &*final(e) == &**final(self) && #[trigger] call_ensures(
                    E::set_padding,
                    (e, padding),
                    honoured,
                ),
    {
        let e: &mut E = &mut **self;
        e.set_padding(padding)
    }

    fn decode(&mut self, ids: &[u32], out: &mut String) -> (r: Result<(), Unsupported>)
        ensures
            exists|e: &mut E, text: &mut String|
                &*e == &**old(self) && &*final(e) == &**final(self) && *text == *old(out)
                    && *final(text) == *final(out) && #[trigger] call_ensures(
                    E::decode,
                    (e, ids, text),
                    r,
                ),
    {
        let e: &mut E = &mut **self;
        e.decode(ids, out)
    }
}

// ---------------------------------------------------------------------------
// One call
// ---------------------------------------------------------------------------

/// Encodes one text into a buffer and hands the buffer back.
pub fn encode_into<E: Engine + ?Sized>(engine: &mut E, text: &str, out: Ids) -> (r: Ids)
    ensures
        final(engine).runs() == old(engine).runs().push(
            Run { text: text@, given: out@, ids: r@ },
        ),
        final(engine).decodes() == old(engine).decodes(),
        exists|e: &mut E, ids: &mut Ids|
            &*e == &*old(engine) && &*final(e) == &*final(engine) && *ids == out && *final(ids) == r
                && #[trigger] call_ensures(E::encode, (e, text, ids), ()),
{
    let mut out = out;
    engine.encode(text, &mut out);
    out
}

/// Decodes ids into a text and hands the text back with the answer.
pub fn decode_into<E: Engine + ?Sized>(engine: &mut E, ids: &[u32], out: String) -> (r: (
    String,
    Result<(), Unsupported>,
))
    ensures
        final(engine).runs() == old(engine).runs(),
        r.1 is Ok ==> final(engine).decodes() == old(engine).decodes().push(
            Decoded { ids: ids@, given: out@, text: r.0@ },
        ),
        r.1 is Err ==> final(engine).decodes() == old(engine).decodes(),
        exists|e: &mut E, text: &mut String|
            &*e == &*old(engine) && &*final(e) == &*final(engine) && *text == out && *final(text)
                == r.0 && #[trigger] call_ensures(E::decode, (e, ids, text), r.1),
{
    let mut out = out;
    let answer = engine.decode(ids, &mut out);
    (out, answer)
}

/// Whether a run is one call of `encode`.
pub open spec fn is_call<E: Engine + ?Sized>(run: Run) -> bool {
    exists|e: &mut E, text: &str, given: Ids, ids: Ids| #[trigger]
        call_ensures(encode_into::<E>, (e, text, given), ids) && run == (Run {
            text: text@,
            given: given@,
            ids: ids@,
        })
}

/// Whether every run from `from` on is one call of `encode`.
pub open spec fn are_calls<E: Engine + ?Sized>(runs: Seq<Run>, from: nat) -> bool {
    forall|k: int| from <= k < runs.len() ==> is_call::<E>(#[trigger] runs[k])
}

/// Whether a decode is one call of `decode`.
pub open spec fn is_decode_call<E: Engine + ?Sized>(done: Decoded) -> bool {
    exists|e: &mut E, ids: &[u32], given: String, r: (String, Result<(), Unsupported>)| #[trigger]
        call_ensures(decode_into::<E>, (e, ids, given), r) && r.1 is Ok && done == (Decoded {
            ids: ids@,
            given: given@,
            text: r.0@,
        })
}

/// Whether every decode from `from` on is one call of `decode`.
pub open spec fn are_decode_calls<E: Engine + ?Sized>(decodes: Seq<Decoded>, from: nat) -> bool {
    forall|k: int| from <= k < decodes.len() ==> is_decode_call::<E>(#[trigger] decodes[k])
}

/// Two stretches of calls are one.
pub proof fn lemma_calls_both<E: Engine + ?Sized>(
    a: nat,
    b: Seq<Run>,
    c: Seq<Run>,
    list: Seq<Seq<char>>,
)
    requires
        are_calls::<E>(b, a),
        appended(b, c, list),
        are_calls::<E>(c, b.len()),
    ensures
        are_calls::<E>(c, a),
{
    assert forall|k: int| a <= k < c.len() implies is_call::<E>(#[trigger] c[k]) by {
        if k < b.len() {
            assert(c[k] == b[k]);
        }
    }
}

/// Whether every run from `from` on appended what `enc` says of its text to its
/// buffer.
pub open spec fn appends(
    runs: Seq<Run>,
    from: nat,
    enc: spec_fn(Seq<char>) -> Seq<u32>,
) -> bool {
    forall|k: int|
        from <= k < runs.len() ==> (#[trigger] runs[k]).ids == runs[k].given + enc(runs[k].text)
}

/// Whether every decode from `from` on appended what `dec` says of its ids to its
/// buffer.
pub open spec fn appends_text(
    decodes: Seq<Decoded>,
    from: nat,
    dec: spec_fn(Seq<u32>) -> Seq<char>,
) -> bool {
    forall|k: int|
        from <= k < decodes.len() ==> (#[trigger] decodes[k]).text == decodes[k].given + dec(
            decodes[k].ids,
        )
}

/// Where `encode` appends what `enc` says, so does every run that is a call.
pub proof fn law_calls_append<E: Engine + ?Sized>(
    runs: Seq<Run>,
    from: nat,
    enc: spec_fn(Seq<char>) -> Seq<u32>,
)
    requires
        are_calls::<E>(runs, from),
        forall|e: &mut E, text: &str, out: &mut Ids| #[trigger]
            call_ensures(E::encode, (e, text, out), ()) ==> final(out)@ == out@ + enc(text@),
    ensures
        appends(runs, from, enc),
{
    assert forall|k: int| from <= k < runs.len() implies (#[trigger] runs[k]).ids == runs[k].given
        + enc(runs[k].text) by {
        assert(is_call::<E>(runs[k]));
    }
}

/// Where `decode` appends what `dec` says whenever it succeeds, so does every
/// decode that is a call.
pub proof fn law_decode_calls_append<E: Engine + ?Sized>(
    decodes: Seq<Decoded>,
    from: nat,
    dec: spec_fn(Seq<u32>) -> Seq<char>,
)
    requires
        are_decode_calls::<E>(decodes, from),
        forall|e: &mut E, ids: &[u32], out: &mut String, r: Result<(), Unsupported>| #[trigger]
            call_ensures(E::decode, (e, ids, out), r) && r is Ok ==> final(out)@ == out@ + dec(
                ids@,
            ),
    ensures
        appends_text(decodes, from, dec),
{
    assert forall|k: int| from <= k < decodes.len() implies (#[trigger] decodes[k]).text
        == decodes[k].given + dec(decodes[k].ids) by {
        assert(is_decode_call::<E>(decodes[k]));
    }
}

/// What encoding the documents one by one gives, one after the other: `enc` says
/// what each gives.
pub open spec fn encoded(docs: Seq<Seq<char>>, enc: spec_fn(Seq<char>) -> Seq<u32>) -> Seq<u32>
    decreases docs.len(),
{
    if docs.len() == 0 {
        Seq::empty()
    } else {
        encoded(docs.drop_last(), enc) + enc(docs.last())
    }
}

/// How many ids that is.
pub open spec fn encoded_len(docs: Seq<Seq<char>>, enc: spec_fn(Seq<char>) -> Seq<u32>) -> nat
    decreases docs.len(),
{
    if docs.len() == 0 {
        0
    } else {
        encoded_len(docs.drop_last(), enc) + enc(docs.last()).len()
    }
}

proof fn lemma_threaded(
    before: Seq<Run>,
    after: Seq<Run>,
    list: Seq<Seq<char>>,
    given: Seq<u32>,
    ids: Seq<u32>,
    enc: spec_fn(Seq<char>) -> Seq<u32>,
)
    requires
        threaded(before, after, list, given, ids),
        appends(after, before.len(), enc),
    ensures
        after.len() == before.len() + list.len(),
        ids == given + encoded(list, enc),
    decreases list.len(),
{
    if list.len() == 0 {
        assert(given + encoded(list, enc) =~= given);
    } else {
        let less = after.drop_last();
        let run = after.last();
        assert forall|k: int| before.len() <= k < less.len() implies (#[trigger] less[k]).ids
            == less[k].given + enc(less[k].text) by {
            assert(less[k] == after[k]);
        }
        lemma_threaded(before, less, list.drop_last(), given, run.given, enc);
        assert(after[after.len() - 1] == run);
        assert(run.ids == run.given + enc(run.text));
        assert(given + encoded(list, enc) =~= (given + encoded(list.drop_last(), enc)) + enc(
            list.last(),
        ));
    }
}

/// Where `encode` appends what it makes of each text, the batch that comes with
/// the trait appends what it makes of the texts one after the other.
pub proof fn law_default_batch<E: Engine + ?Sized>(
    before: Seq<Run>,
    after: Seq<Run>,
    list: Seq<Seq<char>>,
    given: Seq<u32>,
    ids: Seq<u32>,
    enc: spec_fn(Seq<char>) -> Seq<u32>,
)
    requires
        forall|e: &mut E, text: &str, out: &mut Ids| #[trigger]
            call_ensures(E::encode, (e, text, out), ()) ==> final(out)@ == out@ + enc(text@),
        threaded(before, after, list, given, ids),
        forall|k: int|
            before.len() <= k < after.len() ==> exists|e: &mut E, text: &str, out: &mut Ids|
                text@ == after[k].text && out@ == (#[trigger] after[k]).given && final(out)@
                    == after[k].ids && #[trigger] call_ensures(E::encode, (e, text, out), ()),
    ensures
        ids == given + encoded(list, enc),
{
    assert(appends(after, before.len(), enc));
    lemma_threaded(before, after, list, given, ids, enc);
}

/// How an engine is made from a model.
pub trait Build {
    fn build(model: &Model) -> (r: Result<Box<dyn Engine>, Unsupported>) where Self: Sized;

    fn build_with_cache_capacity(model: &Model, cache_capacity: Option<usize>) -> (r: Result<
        Box<dyn Engine>,
        Unsupported,
    >) where Self: Sized
        default_ensures
            cache_capacity is None ==> call_ensures(Self::build, (model,), r),
            cache_capacity is Some ==> refused(r, "this library exposes no configurable cache capacity"@),
    {
        match cache_capacity {
            None => Self::build(model),
            Some(_) => unsupported("this library exposes no configurable cache capacity"),
        }
    }

    fn build_without_cache(model: &Model) -> (r: Result<Box<dyn Engine>, Unsupported>) where
        Self: Sized,

        default_ensures
            refused(r, "this library exposes no way to disable its caches"@),
    {
        unsupported("this library exposes no way to disable its caches")
    }

    fn build_without_cache_with_capacity(
        model: &Model,
        cache_capacity: Option<usize>,
    ) -> (r: Result<Box<dyn Engine>, Unsupported>) where Self: Sized
        default_ensures
            cache_capacity is None ==> call_ensures(Self::build_without_cache, (model,), r),
            cache_capacity is Some ==> refused(r, "an explicit cache capacity cannot be applied to a no-cache engine"@),
    {
        match cache_capacity {
            None => Self::build_without_cache(model),
            Some(_) => unsupported(
                "an explicit cache capacity cannot be applied to a no-cache engine",
            ),
        }
    }
}


/// The classes and the padding modes are told apart in words.
pub proof fn law_labels_in_words(
    class: Class,
    padding: Padding,
    class_text: &'static str,
    padding_text: &'static str,
)
    requires
        call_ensures(Class::as_str, (class,), class_text),
        call_ensures(Padding::as_str, (padding,), padding_text),
    ensures
        class is Native ==> class_text@ == "native"@,
        class is Cffi ==> class_text@ == "cffi"@,
        padding is Off ==> padding_text@ == "off"@,
        padding is Longest ==> padding_text@ == "longest"@,
{
}

/// A path that starts at the root stays as it is. Any other stands behind its directory,
/// with one separator between them, and behind nothing where there is no directory.
pub proof fn law_paths_are_joined(dir: &str, file: &str, r: String, rest: Seq<char>)
    requires
        call_ensures(join_path, (dir, file), r),
    ensures
        file@ == seq!['/'] + rest ==> r@ == file@,
        (file@.len() == 0 || file@[0] != '/') && dir@.len() == 0 ==> r@ == file@,
        (file@.len() == 0 || file@[0] != '/') && dir@ == rest.push('/') ==> r@ == dir@ + file@,
        (file@.len() == 0 || file@[0] != '/') && dir@.len() > 0 && dir@.last() != '/' ==> r@ == dir@
            + seq!['/'] + file@,
{
    if dir@.len() == 0 {
        assert(dir@ + file@ =~= file@);
    }
    assert(dir@.push('/') + file@ =~= dir@ + seq!['/'] + file@);
    assert(rest.push('/').last() == '/');
}

/// The files of a model stand in its directory; one that is not there has no path.
pub proof fn law_artifacts_stand_in_the_directory(
    model: Model,
    dir: &str,
    file: &str,
    exists: bool,
    json: &str,
    path: String,
    json_path: String,
    found: Option<String>,
    r: String,
)
    requires
        call_ensures(Model::artifact, (&model, file, exists), found),
        call_ensures(Model::tokenizer_json, (&model,), r),
        dir@ == model.dir@,
        json@ == "tokenizer.json"@,
        call_ensures(join_path, (dir, file), path),
        call_ensures(join_path, (dir, json), json_path),
    ensures
        found is Some <==> exists,
        exists ==> found->0@ == path@,
        r@ == json_path@,
{
}

/// A refusal says what it was given to say.
pub proof fn law_refusals_keep_their_words<T>(msg: &str, r: Result<T, Unsupported>, shown: &str)
    requires
        call_ensures(unsupported::<T>, (msg,), r),
        r is Err ==> call_ensures(Unsupported::message, (&r->Err_0,), shown),
    ensures
        r is Err,
        shown@ == msg@,
{
}

/// A text that is encoded into a buffer is the last that its engine has encoded, with what
/// the buffer held before and after; and nothing else of its history changes.
pub proof fn law_encoding_is_remembered<E: Engine + ?Sized>(
    before: &E,
    after: &E,
    text: &str,
    given: Ids,
    r: Ids,
)
    requires
        exists|e: &mut E|
            &*e == before && &*final(e) == after && #[trigger] call_ensures(
                encode_into::<E>,
                (e, text, given),
                r,
            ),
    ensures
        after.runs().len() == before.runs().len() + 1,
        after.runs().drop_last() == before.runs(),
        after.runs().last().text == text@,
        after.runs().last().given == given@,
        after.runs().last().ids == r@,
        after.decodes() == before.decodes(),
{
    assert(after.runs().drop_last() =~= before.runs());
}

/// Ids that are decoded into a text are the last that their engine has decoded, if it did
/// not refuse; a refusal leaves no trace.
pub proof fn law_decoding_is_remembered<E: Engine + ?Sized>(
    before: &E,
    after: &E,
    ids: &[u32],
    given: String,
    r: (String, Result<(), Unsupported>),
)
    requires
        exists|e: &mut E|
            &*e == before && &*final(e) == after && #[trigger] call_ensures(
                decode_into::<E>,
                (e, ids, given),
                r,
            ),
    ensures
        after.runs() == before.runs(),
        r.1 is Err ==> after.decodes() == before.decodes(),
        r.1 is Ok ==> after.decodes().len() == before.decodes().len() + 1
            && after.decodes().drop_last() == before.decodes() && after.decodes().last().ids == ids@
            && after.decodes().last().given == given@ && after.decodes().last().text == r.0@,
{
    if r.1 is Ok {
        assert(after.decodes().drop_last() =~= before.decodes());
    }
}

/// An engine behind a pointer answers as the engine does.
pub proof fn law_pointers_answer_alike<E: Engine + ?Sized>(
    takes: spec_fn(usize) -> bool,
    pads: spec_fn(Padding) -> bool,
    native_batch: bool,
    threads: usize,
    took: bool,
    padding: Padding,
    padded: bool,
    e: Box<E>,
    fans: bool,
)
    requires
        forall|w: &mut E, n: usize, yes: bool| #[trigger]
            call_ensures(E::set_threads, (w, n), yes) ==> yes == takes(n),
        forall|p: &mut E, q: Padding, yes: bool| #[trigger]
            call_ensures(E::set_padding, (p, q), yes) ==> yes == pads(q),
        forall|b: &E, yes: bool| #[trigger]
            call_ensures(E::has_native_batch, (b,), yes) ==> yes == native_batch,
        exists|w: &mut Box<E>| #[trigger]
            call_ensures(<Box<E> as Engine>::set_threads, (w, threads), took),
        exists|p: &mut Box<E>| #[trigger]
            call_ensures(<Box<E> as Engine>::set_padding, (p, padding), padded),
        call_ensures(<Box<E> as Engine>::has_native_batch, (&e,), fans),
    ensures
        took == takes(threads),
        padded == pads(padding),
        fans == native_batch,
{
}

}
