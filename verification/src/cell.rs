//! One cell of the matrix: the texts an engine is measured on, the tasks it is
//! given and their order, and what is said when one of them fails.

use crate::chunk::{chunk, chunks, documents, latency_documents};
use crate::cli::Args;
use crate::engine::{total_bytes, Padding};
use crate::measure::Measure;
use crate::report::{DatasetMetadata, Identity};
use crate::scan::contents;
use crate::select::{
    sweeps, sweeps_corpus, times, times_corpus, Passes, CHUNK_BYTES, MAX_CHUNKS,
};
use crate::text::{byte_len, chars_of};
use vstd::prelude::*;
use vstd::string::StringExecFns;
use vstd::utf8::encode_utf8;

verus! {

// ---------------------------------------------------------------------------
// Texts
// ---------------------------------------------------------------------------

/// The texts of a cell: the documents that are encoded, those of a sweep where
/// there is one, and those that are timed call by call.
pub struct Texts {
    pub chunks: Vec<String>,
    pub scaling: Option<Vec<String>>,
    pub latency: Vec<String>,
}

/// Whether these are the texts of a corpus. A sweep takes the whole corpus; the
/// other passes stop after a hundred documents, sweep or not.
pub open spec fn are_texts(a: Args, corpus: Seq<char>, text: Seq<char>, t: Texts) -> bool {
    &&& contents(t.chunks@) == chunks(text, CHUNK_BYTES as nat, MAX_CHUNKS as nat)
    &&& t.scaling is Some <==> sweeps(a, corpus)
    &&& t.scaling matches Some(list) ==> contents(list@) == chunks(
        text,
        CHUNK_BYTES as nat,
        usize::MAX as nat,
    )
    &&& contents(t.latency@) == if times(a, corpus) && a.latency_bytes > 0 && a.latency_samples > 0 {
        documents(text, a.latency_bytes as nat, a.latency_samples as nat + 1)
    } else {
        Seq::empty()
    }
}

/// The texts of a corpus.
pub fn texts_of(a: &Args, corpus: &str, text: &str) -> (t: Texts)
    ensures
        are_texts(*a, corpus@, text@, t),
{
    let scaling = if sweeps_corpus(a, corpus) {
        Some(chunk(text, CHUNK_BYTES, usize::MAX))
    } else {
        None
    };
    let latency = if times_corpus(a, corpus) {
        latency_documents(text, a.latency_bytes, a.latency_samples)
    } else {
        let none: Vec<String> = Vec::new();
        assert(contents(none@) =~= Seq::empty());
        none
    };
    Texts { chunks: chunk(text, CHUNK_BYTES, MAX_CHUNKS), scaling, latency }
}

/// The number of characters of a list of texts.
pub open spec fn total_chars(list: Seq<Seq<char>>) -> nat
    decreases list.len(),
{
    if list.len() == 0 {
        0
    } else {
        total_chars(list.drop_last()) + list.last().len()
    }
}

/// Texts hold no more characters than bytes.
pub proof fn law_characters_within_bytes(list: Seq<Seq<char>>)
    ensures
        total_chars(list) <= total_bytes(list),
    decreases list.len(),
{
    if list.len() > 0 {
        law_characters_within_bytes(list.drop_last());
        crate::text::lemma_text_bytes(list.last());
    }
}

/// What a cell was measured on.
pub fn dataset_metadata(a: &Args, model: &str, corpus: &str, chunks: &Vec<String>) -> (m:
    DatasetMetadata)
    requires
        total_bytes(contents(chunks@)) <= usize::MAX,
    ensures
        m.file_size_bytes == total_bytes(contents(chunks@)),
        m.total_characters == total_chars(contents(chunks@)),
        m.corpus@ == corpus@,
        m.model@ == model@,
        m.reps == a.reps,
        m.warmup == !a.no_warmup,
        m.pipeline_cache_capacity == a.cache_capacity,
{
    let ghost docs = contents(chunks@);
    let mut bytes: usize = 0;
    let mut characters: usize = 0;
    let mut i: usize = 0;
    assert(docs.take(0) =~= Seq::empty());
    while i < chunks.len()
        invariant
            i <= chunks@.len(),
            docs == contents(chunks@),
            total_bytes(docs) <= usize::MAX,
            bytes == total_bytes(docs.take(i as int)),
            characters == total_chars(docs.take(i as int)),
            characters <= bytes,
        decreases chunks@.len() - i,
    {
        proof {
            assert(docs.take(i + 1).drop_last() =~= docs.take(i as int));
            assert(docs.take(i + 1).last() == chunks@[i as int]@);
            crate::engine::lemma_total_bytes_within(docs, 0, i + 1);
            assert(docs.subrange(0, i + 1) =~= docs.take(i + 1));
            law_characters_within_bytes(docs.take(i + 1));
        }
        bytes = bytes + byte_len(chunks[i].as_str());
        characters = characters + chars_of(chunks[i].as_str()).len();
        i = i + 1;
    }
    assert(docs.take(docs.len() as int) =~= docs);
    DatasetMetadata {
        file_size_bytes: bytes,
        total_characters: characters,
        corpus: corpus.to_owned(),
        model: model.to_owned(),
        reps: a.reps,
        warmup: !a.no_warmup,
        pipeline_cache_capacity: a.cache_capacity,
    }
}

// ---------------------------------------------------------------------------
// Tasks
// ---------------------------------------------------------------------------

/// Something an engine is put through.
#[derive(Clone, Copy, Debug, PartialEq, Eq, Structural)]
pub enum Task {
    /// The headline: single-thread encode throughput.
    Encode,
    /// Call-level latency.
    Latency,
    /// Decoding the reference's ids.
    Decode,
    /// A scaling sweep in one padding mode.
    Sweep(Padding),
    /// One untimed pass whose ids are checked.
    Check,
}

/// One task, or none.
pub open spec fn task_if(wanted: bool, task: Task) -> Seq<Task> {
    if wanted {
        seq![task]
    } else {
        Seq::empty()
    }
}

/// The tasks of an engine, in order: whatever a run asks for, and for which
/// there is text.
pub open spec fn schedule_of(
    p: Passes,
    timed: bool,
    referenced: bool,
    swept: bool,
    modes: Seq<Padding>,
) -> Seq<Task> {
    task_if(p.encode, Task::Encode) + task_if(timed, Task::Latency) + task_if(
        p.decode && referenced,
        Task::Decode,
    ) + (if swept {
        modes.map_values(|m: Padding| Task::Sweep(m))
    } else {
        Seq::empty()
    }) + task_if(p.scaling, Task::Check)
}

/// `schedule_of`, computed.
pub fn schedule(p: &Passes, timed: bool, referenced: bool, swept: bool, modes: &Vec<Padding>) -> (r:
    Vec<Task>)
    ensures
        r@ == schedule_of(*p, timed, referenced, swept, modes@),
{
    let mut r: Vec<Task> = Vec::new();
    if p.encode {
        r.push(Task::Encode);
    }
    if timed {
        r.push(Task::Latency);
    }
    if p.decode && referenced {
        r.push(Task::Decode);
    }
    let ghost front = r@;
    assert(front =~= task_if(p.encode, Task::Encode) + task_if(timed, Task::Latency) + task_if(
        p.decode && referenced,
        Task::Decode,
    ));
    if swept {
        let mut i: usize = 0;
        let ghost sweeps = modes@.map_values(|m: Padding| Task::Sweep(m));
        while i < modes.len()
            invariant
                i <= modes@.len(),
                sweeps == modes@.map_values(|m: Padding| Task::Sweep(m)),
                r@ =~= front + sweeps.take(i as int),
            decreases modes@.len() - i,
        {
            r.push(Task::Sweep(modes[i]));
            i = i + 1;
        }
        assert(sweeps.take(sweeps.len() as int) =~= sweeps);
    }
    if p.scaling {
        r.push(Task::Check);
    }
    assert(r@ =~= schedule_of(*p, timed, referenced, swept, modes@));
    r
}

/// The headline is never disturbed: no other task of the engine runs before it.
pub proof fn law_headline_first(
    p: Passes,
    timed: bool,
    referenced: bool,
    swept: bool,
    modes: Seq<Padding>,
    i: int,
)
    requires
        0 <= i < schedule_of(p, timed, referenced, swept, modes).len(),
        schedule_of(p, timed, referenced, swept, modes)[i] == Task::Encode,
    ensures
        i == 0,
{
}

/// The check of a sweep's ids comes after everything that is timed.
pub proof fn law_check_last(
    p: Passes,
    timed: bool,
    referenced: bool,
    swept: bool,
    modes: Seq<Padding>,
    i: int,
)
    requires
        0 <= i < schedule_of(p, timed, referenced, swept, modes).len(),
        schedule_of(p, timed, referenced, swept, modes)[i] == Task::Check,
    ensures
        i == schedule_of(p, timed, referenced, swept, modes).len() - 1,
{
}

/// What is said of an engine that panicked in a task, where the panic ends its
/// cell.
pub fn panic_text(task: Task) -> (r: Option<&'static str>)
    ensures
        match task {
            Task::Encode => r is Some && r->0@ == "panicked while encoding this corpus"@,
            Task::Check => r is Some && r->0@ == "panicked while verifying scaling output"@,
            _ => r is None,
        },
{
    match task {
        Task::Encode => Some("panicked while encoding this corpus"),
        Task::Check => Some("panicked while verifying scaling output"),
        _ => None,
    }
}

/// The ids an engine is known by: those of the measurement, else those of the
/// check.
pub fn identity_of(encoded: Option<&Measure>, checked: Option<&Measure>) -> (r: Option<Identity>)
    ensures
        r == (match (encoded, checked) {
            (Some(m), _) => Some(Identity { tokens: m.tokens, ids_hash: m.ids_hash }),
            (None, Some(m)) => Some(Identity { tokens: m.tokens, ids_hash: m.ids_hash }),
            _ => None,
        }),
{
    match (encoded, checked) {
        (Some(m), _) => Some(Identity { tokens: m.tokens, ids_hash: m.ids_hash }),
        (None, Some(m)) => Some(Identity { tokens: m.tokens, ids_hash: m.ids_hash }),
        _ => None,
    }
}

// ---------------------------------------------------------------------------
// What the answers are
// ---------------------------------------------------------------------------

/// The texts of a cell are cuttings of its corpus: ten kilobytes each and a hundred
/// at most for what is encoded; as many as there are for a sweep, where the corpus is
/// swept; and documents of the length and number asked for where it is timed.
pub proof fn law_texts_are_cut_from_the_corpus(
    a: &Args,
    corpus: &str,
    text: &str,
    t: Texts,
    some: Vec<String>,
    all: Vec<String>,
    docs: Vec<String>,
    swept: bool,
    timed: bool,
)
    requires
        call_ensures(texts_of, (a, corpus, text), t),
        call_ensures(chunk, (text, 10240, 100), some),
        call_ensures(chunk, (text, 10240, usize::MAX), all),
        call_ensures(latency_documents, (text, a.latency_bytes, a.latency_samples), docs),
        call_ensures(sweeps_corpus, (a, corpus), swept),
        call_ensures(times_corpus, (a, corpus), timed),
    ensures
        contents(t.chunks@) == contents(some@),
        t.scaling is Some <==> swept,
        swept ==> contents(t.scaling->0@) == contents(all@),
        timed ==> contents(t.latency@) == contents(docs@),
        !timed ==> t.latency@.len() == 0,
{
    assert(contents(t.latency@).len() == t.latency@.len());
}

proof fn lemma_sizes_flat(list: Seq<Seq<char>>)
    ensures
        total_chars(list) == list.flatten().len(),
    decreases list.len(),
{
    list.lemma_flatten_and_flatten_alt_are_equivalent();
    if list.len() > 0 {
        lemma_sizes_flat(list.drop_last());
        list.drop_last().lemma_flatten_and_flatten_alt_are_equivalent();
    }
}

/// A cell says of itself what was measured: all its texts together, in UTF-8 bytes
/// and in characters, and the settings it was measured with.
pub proof fn law_dataset_is_all_the_text(
    a: &Args,
    model: &str,
    corpus: &str,
    chunks: &Vec<String>,
    m: DatasetMetadata,
)
    requires
        total_bytes(contents(chunks@)) <= usize::MAX,
        call_ensures(dataset_metadata, (a, model, corpus, chunks), m),
    ensures
        m.file_size_bytes == encode_utf8(contents(chunks@).flatten()).len(),
        m.total_characters == contents(chunks@).flatten().len(),
        m.corpus@ == corpus@ && m.model@ == model@,
        m.reps == a.reps && (m.warmup <==> !a.no_warmup),
        m.pipeline_cache_capacity == a.cache_capacity,
{
    lemma_sizes_flat(contents(chunks@));
    crate::engine::law_bytes_are_utf8(contents(chunks@));
}

/// Where a task stands among the others.
pub open spec fn turn(task: Task) -> int {
    match task {
        Task::Encode => 0,
        Task::Latency => 1,
        Task::Decode => 2,
        Task::Sweep(_) => 3,
        Task::Check => 4,
    }
}

/// Whether the tasks from `at2`, `at3`, `at4` and `at5` on are those behind the first,
/// the second, the third and the fourth kind.
spec fn parted(
    p: Passes,
    timed: bool,
    referenced: bool,
    swept: bool,
    modes: Seq<Padding>,
    s: Seq<Task>,
    at2: int,
    at3: int,
    at4: int,
    at5: int,
) -> bool {
    &&& at2 == (if p.encode { 1int } else { 0 })
    &&& at3 == at2 + (if timed { 1int } else { 0 })
    &&& at4 == at3 + (if p.decode && referenced { 1int } else { 0 })
    &&& at5 == at4 + (if swept { modes.len() as int } else { 0 })
    &&& s.len() == at5 + (if p.scaling { 1int } else { 0 })
    &&& forall|i: int|
        0 <= i < s.len() ==> (#[trigger] s[i]) == (if i < at2 {
            Task::Encode
        } else if i < at3 {
            Task::Latency
        } else if i < at4 {
            Task::Decode
        } else if i < at5 {
            Task::Sweep(modes[i - at4])
        } else {
            Task::Check
        })
}

proof fn lemma_parted(p: Passes, timed: bool, referenced: bool, swept: bool, modes: Seq<Padding>)
    ensures
        exists|at2: int, at3: int, at4: int, at5: int| #[trigger]
            parted(
                p,
                timed,
                referenced,
                swept,
                modes,
                schedule_of(p, timed, referenced, swept, modes),
                at2,
                at3,
                at4,
                at5,
            ),
{
    let s1 = task_if(p.encode, Task::Encode);
    let s2 = s1 + task_if(timed, Task::Latency);
    let s3 = s2 + task_if(p.decode && referenced, Task::Decode);
    let sweeps = if swept {
        modes.map_values(|m: Padding| Task::Sweep(m))
    } else {
        Seq::empty()
    };
    let s4 = s3 + sweeps;
    let s5 = s4 + task_if(p.scaling, Task::Check);
    let (at2, at3) = (s1.len() as int, s2.len() as int);
    let (at4, at5) = (s3.len() as int, s4.len() as int);
    assert forall|i: int| 0 <= i < s5.len() implies (#[trigger] s5[i]) == (if i < at2 {
        Task::Encode
    } else if i < at3 {
        Task::Latency
    } else if i < at4 {
        Task::Decode
    } else if i < at5 {
        Task::Sweep(modes[i - at4])
    } else {
        Task::Check
    }) by {
        if i < at5 {
            assert(s5[i] == s4[i]);
            if i < at4 {
                assert(s4[i] == s3[i]);
                if i < at3 {
                    assert(s3[i] == s2[i]);
                    if i < at2 {
                        assert(s2[i] == s1[i]);
                    }
                }
            } else {
                assert(s4[i] == sweeps[i - at4]);
            }
        }
    }
    assert(parted(p, timed, referenced, swept, modes, s5, at2, at3, at4, at5));
    assert(s5 =~= schedule_of(p, timed, referenced, swept, modes));
}

proof fn lemma_asked(
    p: Passes,
    timed: bool,
    referenced: bool,
    swept: bool,
    modes: Seq<Padding>,
    s: Seq<Task>,
    at2: int,
    at3: int,
    at4: int,
    at5: int,
    mode: Padding,
)
    requires
        parted(p, timed, referenced, swept, modes, s, at2, at3, at4, at5),
    ensures
        s.contains(Task::Encode) <==> p.encode,
        s.contains(Task::Latency) <==> timed,
        s.contains(Task::Decode) <==> p.decode && referenced,
        s.contains(Task::Check) <==> p.scaling,
        s.contains(Task::Sweep(mode)) <==> swept && modes.contains(mode),
        modes.no_duplicates() ==> s.no_duplicates(),
{
    if p.encode {
        assert(s[0] == Task::Encode);
    }
    if timed {
        assert(s[at2] == Task::Latency);
    }
    if p.decode && referenced {
        assert(s[at3] == Task::Decode);
    }
    if p.scaling {
        assert(s[at5] == Task::Check);
    }
    if swept && modes.contains(mode) {
        let i = choose|i: int| 0 <= i < modes.len() && modes[i] == mode;
        assert(s[at4 + i] == Task::Sweep(mode));
    }
    if s.contains(Task::Sweep(mode)) {
        let j = choose|j: int| 0 <= j < s.len() && s[j] == Task::Sweep(mode);
        assert(modes.contains(modes[j - at4]));
    }
    if modes.no_duplicates() {
        assert forall|i: int, j: int| 0 <= i < j < s.len() implies s[i] != s[j] by {
            if at4 <= i && j < at5 {
                assert(modes[i - at4] != modes[j - at4]);
            }
        }
    }
}

proof fn lemma_turns(
    p: Passes,
    timed: bool,
    referenced: bool,
    swept: bool,
    modes: Seq<Padding>,
    s: Seq<Task>,
    at2: int,
    at3: int,
    at4: int,
    at5: int,
    i: int,
    j: int,
)
    requires
        parted(p, timed, referenced, swept, modes, s, at2, at3, at4, at5),
        0 <= i < j < s.len(),
    ensures
        turn(s[i]) < turn(s[j]) || (turn(s[i]) == 3 && turn(s[j]) == 3),
        s[i] is Sweep && s[j] is Sweep ==> exists|k: int|
            0 <= k && k + (j - i) < modes.len() && s[i] == Task::Sweep(#[trigger] modes[k])
                && s[j] == Task::Sweep(modes[k + (j - i)]),
{
    if s[i] is Sweep && s[j] is Sweep {
        assert(s[i] == Task::Sweep(modes[i - at4]));
        assert(s[j] == Task::Sweep(modes[(i - at4) + (j - i)]));
    }
}

/// An engine is given a task exactly where the run asks for it and there is something
/// to do it on; each once, a sweep once for every padding mode.
pub proof fn law_tasks_are_those_asked_for(
    p: &Passes,
    timed: bool,
    referenced: bool,
    swept: bool,
    modes: &Vec<Padding>,
    r: Vec<Task>,
    mode: Padding,
)
    requires
        call_ensures(schedule, (p, timed, referenced, swept, modes), r),
    ensures
        r@.contains(Task::Encode) <==> p.encode,
        r@.contains(Task::Latency) <==> timed,
        r@.contains(Task::Decode) <==> p.decode && referenced,
        r@.contains(Task::Check) <==> p.scaling,
        r@.contains(Task::Sweep(mode)) <==> swept && modes@.contains(mode),
        modes@.no_duplicates() ==> r@.no_duplicates(),
{
    let s = r@;
    lemma_parted(*p, timed, referenced, swept, modes@);
    let (at2, at3, at4, at5) = choose|at2: int, at3: int, at4: int, at5: int| #[trigger]
        parted(*p, timed, referenced, swept, modes@, s, at2, at3, at4, at5);
    lemma_asked(*p, timed, referenced, swept, modes@, s, at2, at3, at4, at5, mode);
}

/// Tasks are done in one order: encoding before anything else, then latency, decoding
/// and the sweeps, in the order of their modes, and the check of the ids at the end.
pub proof fn law_tasks_have_an_order(
    p: &Passes,
    timed: bool,
    referenced: bool,
    swept: bool,
    modes: &Vec<Padding>,
    r: Vec<Task>,
    i: int,
    j: int,
)
    requires
        call_ensures(schedule, (p, timed, referenced, swept, modes), r),
        0 <= i < j < r@.len(),
    ensures
        turn(r@[i]) < turn(r@[j]) || (turn(r@[i]) == 3 && turn(r@[j]) == 3),
        r@[i] is Sweep && r@[j] is Sweep ==> exists|k: int|
            0 <= k && k + (j - i) < modes@.len() && r@[i] == Task::Sweep(#[trigger] modes@[k])
                && r@[j] == Task::Sweep(modes@[k + (j - i)]),
{
    let s = r@;
    lemma_parted(*p, timed, referenced, swept, modes@);
    let (at2, at3, at4, at5) = choose|at2: int, at3: int, at4: int, at5: int| #[trigger]
        parted(*p, timed, referenced, swept, modes@, s, at2, at3, at4, at5);
    lemma_turns(*p, timed, referenced, swept, modes@, s, at2, at3, at4, at5, i, j);
}

/// A panic ends the cell in the two tasks whose ids the others are compared with, and
/// in no other.
pub proof fn law_panics_end_encoding_and_check(task: Task, r: Option<&'static str>)
    requires
        call_ensures(panic_text, (task,), r),
    ensures
        r is Some <==> task == Task::Encode || task == Task::Check,
        task == Task::Encode ==> r->0@ == "panicked while encoding this corpus"@,
        task == Task::Check ==> r->0@ == "panicked while verifying scaling output"@,
{
}

/// An engine is known by the ids it was measured with; the check's stand in only where
/// there was no measurement.
pub proof fn law_identity_is_that_of_the_ids(
    encoded: Option<&Measure>,
    checked: Option<&Measure>,
    r: Option<Identity>,
)
    requires
        call_ensures(identity_of, (encoded, checked), r),
    ensures
        r is None <==> encoded is None && checked is None,
        encoded is Some ==> r->0.tokens == encoded->0.tokens && r->0.ids_hash
            == encoded->0.ids_hash,
        encoded is None && checked is Some ==> r->0.tokens == checked->0.tokens && r->0.ids_hash
            == checked->0.ids_hash,
{
}

}
