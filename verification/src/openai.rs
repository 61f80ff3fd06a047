//! The engine over `bpe-openai`: three prebuilt encodings, chosen by name.

use crate::engine::{refused, unsupported, Class, Decoded, Engine, Ids, Info, Padding, Run, Unsupported};
use crate::scan::{trim, trimmed};
use crate::text::same;
use vstd::prelude::*;
use vstd::string::StringExecFns;

verus! {

/// An encoding that the crate carries.
#[derive(Clone, Copy, Debug, PartialEq, Eq, Structural)]
pub enum Encoding {
    Cl100kBase,
    O200kBase,
    Voyage3Base,
}

/// The ids of a text under `cl100k_base`.
pub uninterp spec fn cl100k_ids(text: Seq<char>) -> Seq<u32>;

/// The ids of a text under `o200k_base`.
pub uninterp spec fn o200k_ids(text: Seq<char>) -> Seq<u32>;

/// The ids of a text under `voyage3_base`.
pub uninterp spec fn voyage3_ids(text: Seq<char>) -> Seq<u32>;

/// `bpe_openai::cl100k_base().encode(text)`: a fixed table and a fixed pattern,
/// so that the text decides the ids.
#[verifier::external_body]
fn encode_cl100k(text: &str) -> (r: Vec<u32>)
    ensures
        r@ == cl100k_ids(text@),
{
    bpe_openai::cl100k_base().encode(text)
}

/// `bpe_openai::o200k_base().encode(text)`: a fixed table and a fixed pattern,
/// so that the text decides the ids.
#[verifier::external_body]
fn encode_o200k(text: &str) -> (r: Vec<u32>)
    ensures
        r@ == o200k_ids(text@),
{
    bpe_openai::o200k_base().encode(text)
}

/// `bpe_openai::voyage3_base().encode(text)`: a fixed table and a fixed pattern
/// over the normalised text, so that the text decides the ids.
#[verifier::external_body]
fn encode_voyage3(text: &str) -> (r: Vec<u32>)
    ensures
        r@ == voyage3_ids(text@),
{
    bpe_openai::voyage3_base().encode(text)
}

impl Encoding {
    pub open spec fn label(self) -> Seq<char> {
        match self {
            Encoding::Cl100kBase => "cl100k_base"@,
            Encoding::O200kBase => "o200k_base"@,
            Encoding::Voyage3Base => "voyage3_base"@,
        }
    }

    /// The ids of a text.
    pub open spec fn ids(self, text: Seq<char>) -> Seq<u32> {
        match self {
            Encoding::Cl100kBase => cl100k_ids(text),
            Encoding::O200kBase => o200k_ids(text),
            Encoding::Voyage3Base => voyage3_ids(text),
        }
    }

    /// `ids`, computed.
    pub fn encode(self, text: &str) -> (r: Vec<u32>)
        ensures
            r@ == self.ids(text@),
    {
        match self {
            Encoding::Cl100kBase => encode_cl100k(text),
            Encoding::O200kBase => encode_o200k(text),
            Encoding::Voyage3Base => encode_voyage3(text),
        }
    }
}

/// A text between quotes, with what cannot be shown escaped.
pub uninterp spec fn debug_text(text: Seq<char>) -> Seq<char>;

/// `Debug` of `str`: the text in quotes, with escapes.
#[verifier::external_body]
fn debug(text: &str) -> (r: String)
    ensures
        r@ == debug_text(text@),
{
    format!("{text:?}")
}

/// The encoding that a marker file names: its text, trimmed.
pub open spec fn encoding_of(marker: Seq<char>) -> Option<Encoding> {
    if trimmed(marker) == "cl100k_base"@ {
        Some(Encoding::Cl100kBase)
    } else if trimmed(marker) == "o200k_base"@ {
        Some(Encoding::O200kBase)
    } else if trimmed(marker) == "voyage3_base"@ {
        Some(Encoding::Voyage3Base)
    } else {
        None
    }
}

/// `encoding_of`, computed; a name without an encoding is refused by name.
pub fn choose_encoding(marker: &str) -> (r: Result<Encoding, Unsupported>)
    ensures
        match encoding_of(marker@) {
            Some(e) => r is Ok && r->Ok_0 == e,
            None => refused(
                r,
                "bpe-openai has no prebuilt encoding "@ + debug_text(trimmed(marker@)),
            ),
        },
{
    let name = trim(marker);
    if same(name.as_str(), "cl100k_base") {
        Ok(Encoding::Cl100kBase)
    } else if same(name.as_str(), "o200k_base") {
        Ok(Encoding::O200kBase)
    } else if same(name.as_str(), "voyage3_base") {
        Ok(Encoding::Voyage3Base)
    } else {
        let mut msg = "bpe-openai has no prebuilt encoding ".to_owned();
        let shown = debug(name.as_str());
        msg.append(shown.as_str());
        unsupported(msg.as_str())
    }
}

/// The engine: one encoding, and the history of what it encoded.
pub struct Adapter {
    encoding: Encoding,
    runs: Ghost<Seq<Run>>,
}

impl Adapter {
    /// The encoding it runs.
    pub closed spec fn encoding(&self) -> Encoding {
        self.encoding
    }

    /// The engine for the encoding that a marker file names.
    pub fn open(marker: &str) -> (r: Result<Adapter, Unsupported>)
        ensures
            match encoding_of(marker@) {
                Some(e) => r is Ok && r->Ok_0.encoding() == e && r->Ok_0.runs().len() == 0,
                None => refused(
                    r,
                    "bpe-openai has no prebuilt encoding "@ + debug_text(trimmed(marker@)),
                ),
            },
    {
        match choose_encoding(marker) {
            Ok(encoding) => Ok(Adapter { encoding, runs: Ghost(Seq::empty()) }),
            Err(e) => Err(e),
        }
    }
}

impl Engine for Adapter {
    closed spec fn runs(&self) -> Seq<Run> {
        self.runs@
    }

    closed spec fn decodes(&self) -> Seq<Decoded> {
        Seq::empty()
    }

    fn info(&self) -> (r: Info)
        ensures
            r.name@ == "rust-gems-bpe"@,
            r.version@ == "bpe 0.2.1 / bpe-openai 0.3.0"@,
            r.lang@ == "rust"@,
            r.class == Class::Native,
            r.url@ == "https://github.com/github/rust-gems"@,
            r.also_computes@ == ""@,
            !r.internally_parallel,
    {
        Info {
            name: "rust-gems-bpe",
            version: "bpe 0.2.1 / bpe-openai 0.3.0",
            lang: "rust",
            class: Class::Native,
            url: "https://github.com/github/rust-gems",
            also_computes: "",
            internally_parallel: false,
        }
    }

    fn encode(&mut self, text: &str, out: &mut Ids)
        ensures
            final(out)@ == old(out)@ + old(self).encoding().ids(text@),
            final(self).encoding() == old(self).encoding(),
    {
        let ids = self.encoding.encode(text);
        out.extend_from_slice(ids.as_slice());
        proof {
            self.runs@ = self.runs@.push(Run { text: text@, given: old(out)@, ids: out@ });
        }
    }
}

// ---------------------------------------------------------------------------
// What the answers are
// ---------------------------------------------------------------------------

/// An encoding is chosen by its name, whatever whitespace stands round it. A name that is
/// none of the three is refused, and shown.
pub proof fn law_encodings_are_chosen_by_name(
    marker: &str,
    name: String,
    r: Result<Encoding, Unsupported>,
    opened: Result<Adapter, Unsupported>,
)
    requires
        call_ensures(choose_encoding, (marker,), r),
        call_ensures(Adapter::open, (marker,), opened),
        call_ensures(trim, (marker,), name),
    ensures
        name@ == "cl100k_base"@ <==> r is Ok && r->Ok_0 == Encoding::Cl100kBase,
        name@ == "o200k_base"@ <==> r is Ok && r->Ok_0 == Encoding::O200kBase,
        name@ == "voyage3_base"@ <==> r is Ok && r->Ok_0 == Encoding::Voyage3Base,
        r is Err ==> r->Err_0.0@ == "bpe-openai has no prebuilt encoding "@ + debug_text(name@),
        opened is Ok <==> r is Ok,
        opened is Ok ==> opened->Ok_0.encoding() == r->Ok_0 && opened->Ok_0.runs().len() == 0,
        opened is Err ==> opened->Err_0.0@ == r->Err_0.0@,
{
    reveal_strlit("cl100k_base");
    reveal_strlit("o200k_base");
    reveal_strlit("voyage3_base");
    assert("cl100k_base"@.len() != "o200k_base"@.len());
    assert("cl100k_base"@.len() != "voyage3_base"@.len());
    assert("o200k_base"@.len() != "voyage3_base"@.len());
}

/// The ids of a text are those of the encoding that was chosen, behind what is there
/// already; and encoding one text does not change which it is.
pub proof fn law_encodings_give_their_own_ids(
    before: Adapter,
    after: Adapter,
    text: &str,
    given: Ids,
    got: Ids,
)
    requires
        exists|a: &mut Adapter, out: &mut Ids|
            *a == before && *final(a) == after && *out == given && *final(out) == got
                && #[trigger] call_ensures(<Adapter as Engine>::encode, (a, text, out), ()),
    ensures
        after.encoding() == before.encoding(),
        before.encoding() == Encoding::Cl100kBase ==> got@ == given@ + cl100k_ids(text@),
        before.encoding() == Encoding::O200kBase ==> got@ == given@ + o200k_ids(text@),
        before.encoding() == Encoding::Voyage3Base ==> got@ == given@ + voyage3_ids(text@),
{
}

/// The engine has no threads, no batches and no padding of its own, and cannot decode: asked
/// for a width or for padding it says no, and asked to decode it says so and leaves the text
/// as it was.
pub proof fn law_engine_has_nothing_of_its_own(
    threads: usize,
    takes: bool,
    native_batch: bool,
    a: Adapter,
    padding: Padding,
    pads: bool,
    ids: &[u32],
    given: String,
    got: String,
    r: Result<(), Unsupported>,
)
    requires
        exists|e: &mut Adapter| #[trigger]
            call_ensures(<Adapter as Engine>::set_threads, (e, threads), takes),
        call_ensures(<Adapter as Engine>::has_native_batch, (&a,), native_batch),
        exists|e: &mut Adapter| #[trigger]
            call_ensures(<Adapter as Engine>::set_padding, (e, padding), pads),
        exists|e: &mut Adapter, out: &mut String|
            *out == given && *final(out) == got && #[trigger] call_ensures(
                <Adapter as Engine>::decode,
                (e, ids, out),
                r,
            ),
    ensures
        !takes,
        !native_batch,
        pads <==> padding == Padding::Off,
        r is Err && r->Err_0.0@ == "library exposes no decode entry point"@,
        got@ == given@,
{
}

/// The engine says what it is.
pub proof fn law_engine_describes_itself(a: Adapter, r: Info)
    requires
        call_ensures(<Adapter as Engine>::info, (&a,), r),
    ensures
        r.name@ == "rust-gems-bpe"@ && r.lang@ == "rust"@,
        r.version@ == "bpe 0.2.1 / bpe-openai 0.3.0"@,
        r.class == Class::Native && !r.internally_parallel,
        r.url@ == "https://github.com/github/rust-gems"@,
        r.also_computes@.len() == 0,
{
    reveal_strlit("");
}

}
