//! Which engines there are, by name.

use crate::engine::batch_texts;
use crate::scan::contents;
use vstd::prelude::*;
use vstd::string::StringExecFns;

verus! {

/// The correctness oracle: every other engine's ids are compared with its.
pub const REFERENCE: &'static str = "hf-tokenizers";

/// Engines that exist behind an interpreter only, with the script that runs
/// them.
pub fn scripted() -> (r: Vec<(&'static str, &'static str)>)
    ensures
        r@.len() == 3,
        r@[0].0@ == "minbpe"@ && r@[0].1@ == "engines/minbpe/run.py"@,
        r@[1].0@ == "mistral-common"@ && r@[1].1@ == "engines/mistral-common/run.py"@,
        r@[2].0@ == "ai-tokenizer"@ && r@[2].1@ == "engines/ai-tokenizer/run.mjs"@,
{
    let mut r: Vec<(&'static str, &'static str)> = Vec::new();
    r.push(("minbpe", "engines/minbpe/run.py"));
    r.push(("mistral-common", "engines/mistral-common/run.py"));
    r.push(("ai-tokenizer", "engines/ai-tokenizer/run.mjs"));
    r
}

/// The engines that run in this process, by name.
pub open spec fn engine_names() -> Seq<Seq<char>> {
    seq![
        "hf-tokenizers"@,
        "pipeline"@,
        "kitoken"@,
        "fastokens"@,
        "tokie"@,
        "tiktoken"@,
        "rust-gems-bpe"@,
        "wordchipper"@,
        "sentencepiece"@,
        "blingfire"@,
        "gigatoken"@,
        "llamacpp"@,
        "iree"@,
        "executorch"@,
    ]
}

/// `engine_names`, computed.
pub fn engines() -> (r: Vec<&'static str>)
    ensures
        batch_texts(r@) == engine_names(),
{
    let mut r: Vec<&'static str> = Vec::new();
    r.push("hf-tokenizers");
    r.push("pipeline");
    r.push("kitoken");
    r.push("fastokens");
    r.push("tokie");
    r.push("tiktoken");
    r.push("rust-gems-bpe");
    r.push("wordchipper");
    r.push("sentencepiece");
    r.push("blingfire");
    r.push("gigatoken");
    r.push("llamacpp");
    r.push("iree");
    r.push("executorch");
    assert(batch_texts(r@) =~= engine_names());
    r
}

/// The name of an engine's cache-free twin.
pub open spec fn twin(name: Seq<char>) -> Seq<char> {
    name + "-no-cache"@
}

/// The names a list of engines is registered under: each as itself and, right
/// after it, as its cache-free twin.
pub open spec fn registered(names: Seq<Seq<char>>) -> Seq<Seq<char>>
    decreases names.len(),
{
    if names.len() == 0 {
        Seq::empty()
    } else {
        registered(names.drop_last()).push(names.last()).push(twin(names.last()))
    }
}

/// The names of the engines that run in this process: each as itself and, right
/// after it, as its cache-free twin.
pub fn native() -> (r: Vec<String>)
    ensures
        contents(r@) == registered(engine_names()),
{
    let names = engines();
    let ghost all = engine_names();
    let mut r: Vec<String> = Vec::new();
    let mut i: usize = 0;
    assert(all.take(0) =~= Seq::empty());
    while i < names.len()
        invariant
            i <= names@.len(),
            all == batch_texts(names@),
            contents(r@) =~= registered(all.take(i as int)),
        decreases names@.len() - i,
    {
        let name = names[i].to_owned();
        let mut other = names[i].to_owned();
        other.append("-no-cache");
        r.push(name);
        r.push(other);
        assert(all.take(i + 1).drop_last() =~= all.take(i as int));
        i = i + 1;
    }
    assert(all.take(all.len() as int) =~= all);
    r
}

proof fn lemma_registered(names: Seq<Seq<char>>, i: int)
    requires
        0 <= i < 2 * names.len(),
    ensures
        registered(names).len() == 2 * names.len(),
        registered(names)[i] == if i % 2 == 0 {
            names[i / 2]
        } else {
            twin(names[i / 2])
        },
    decreases names.len(),
{
    let less = names.drop_last();
    if less.len() > 0 {
        lemma_registered(less, if i < 2 * less.len() { i } else { 0 });
    } else {
        assert(registered(less).len() == 0);
    }
}

proof fn lemma_letters()
    ensures
        forall|i: int|
            #![trigger engine_names()[i]]
            0 <= i < engine_names().len() ==> {
                let s = engine_names()[i];
                &&& s.len() >= 2
                &&& s[0] != 'm' && s[0] != 'a'
                &&& !(s[s.len() - 2] == 'h' && s[s.len() - 1] == 'e')
            },
        forall|i: int, j: int|
            #![trigger engine_names()[i], engine_names()[j]]
            0 <= i < j < engine_names().len() ==> engine_names()[i][0] != engine_names()[j][0]
                || engine_names()[i][1] != engine_names()[j][1],
{
    reveal_strlit("hf-tokenizers");
    reveal_strlit("pipeline");
    reveal_strlit("kitoken");
    reveal_strlit("fastokens");
    reveal_strlit("tokie");
    reveal_strlit("tiktoken");
    reveal_strlit("rust-gems-bpe");
    reveal_strlit("wordchipper");
    reveal_strlit("sentencepiece");
    reveal_strlit("blingfire");
    reveal_strlit("gigatoken");
    reveal_strlit("llamacpp");
    reveal_strlit("iree");
    reveal_strlit("executorch");
}

/// Every name is registered once: the engines and their twins are all apart, no
/// engine is named like a twin, and none is named like an engine behind an
/// interpreter.
pub proof fn law_names_are_apart(i: int, j: int)
    requires
        0 <= i < j < registered(engine_names()).len(),
    ensures
        registered(engine_names())[i] != registered(engine_names())[j],
        registered(engine_names())[i] != "minbpe"@ && registered(engine_names())[i]
            != "mistral-common"@ && registered(engine_names())[i] != "ai-tokenizer"@,
        registered(engine_names())[j] != "minbpe"@ && registered(engine_names())[j]
            != "mistral-common"@ && registered(engine_names())[j] != "ai-tokenizer"@,
        forall|k: int, stem: Seq<char>|
            0 <= k < engine_names().len() ==> #[trigger] engine_names()[k] != #[trigger] twin(stem),
{
    let names = engine_names();
    lemma_letters();
    reveal_strlit("minbpe");
    reveal_strlit("mistral-common");
    reveal_strlit("ai-tokenizer");
    reveal_strlit("-no-cache");
    assert forall|k: int, stem: Seq<char>| 0 <= k < names.len() implies #[trigger] names[k]
        != #[trigger] twin(stem) by {
        let t = twin(stem);
        assert(t[t.len() - 2] == 'h' && t[t.len() - 1] == 'e');
        assert(engine_names()[k] == names[k]);
    }
    lemma_registered(names, 0);
    lemma_registered(names, i);
    lemma_registered(names, j);
    let a = names[i / 2];
    let b = names[j / 2];
    assert(engine_names()[i / 2] == a && engine_names()[j / 2] == b);
    assert(twin(a)[0] == a[0] && twin(a)[1] == a[1]);
    assert(twin(b)[0] == b[0] && twin(b)[1] == b[1]);
}

// ---------------------------------------------------------------------------
// What the answers are
// ---------------------------------------------------------------------------

/// Every engine is registered twice, side by side: as itself, and as its cache-free twin,
/// which has the engine's name with an ending.
pub proof fn law_every_engine_has_a_twin(names: Vec<&'static str>, r: Vec<String>, i: int)
    requires
        call_ensures(engines, (), names),
        call_ensures(native, (), r),
        0 <= i < names@.len(),
    ensures
        r@.len() == 2 * names@.len(),
        r@[2 * i]@ == names@[i]@,
        r@[2 * i + 1]@ == names@[i]@ + "-no-cache"@,
{
    let all = batch_texts(names@);
    assert(all.len() == names@.len());
    assert(all[i] == names@[i]@);
    lemma_registered(engine_names(), 2 * i);
    lemma_registered(engine_names(), 2 * i + 1);
    let c = contents(r@);
    assert(c.len() == r@.len());
    assert(c[2 * i] == r@[2 * i]@);
    assert(c[2 * i + 1] == r@[2 * i + 1]@);
}

/// The engines are the fourteen that there are, the oracle first, and the scripted ones
/// the three others.
pub proof fn law_engines_are_all_there(
    names: Vec<&'static str>,
    others: Vec<(&'static str, &'static str)>,
)
    requires
        call_ensures(engines, (), names),
        call_ensures(scripted, (), others),
    ensures
        names@.len() == 14,
        names@[0]@ == "hf-tokenizers"@ && names@[1]@ == "pipeline"@ && names@[2]@ == "kitoken"@,
        names@[3]@ == "fastokens"@ && names@[4]@ == "tokie"@ && names@[5]@ == "tiktoken"@,
        names@[6]@ == "rust-gems-bpe"@ && names@[7]@ == "wordchipper"@,
        names@[8]@ == "sentencepiece"@ && names@[9]@ == "blingfire"@,
        names@[10]@ == "gigatoken"@ && names@[11]@ == "llamacpp"@,
        names@[12]@ == "iree"@ && names@[13]@ == "executorch"@,
        others@.len() == 3,
        others@[0].0@ == "minbpe"@ && others@[0].1@ == "engines/minbpe/run.py"@,
        others@[1].0@ == "mistral-common"@ && others@[1].1@ == "engines/mistral-common/run.py"@,
        others@[2].0@ == "ai-tokenizer"@ && others@[2].1@ == "engines/ai-tokenizer/run.mjs"@,
{
    let all = batch_texts(names@);
    assert(all.len() == names@.len());
    assert forall|i: int| 0 <= i < names@.len() implies (#[trigger] names@[i])@
        == engine_names()[i] by {
        assert(all[i] == names@[i]@);
    }
    assert(names@[0]@ == engine_names()[0] && names@[1]@ == engine_names()[1]);
    assert(names@[2]@ == engine_names()[2] && names@[3]@ == engine_names()[3]);
    assert(names@[4]@ == engine_names()[4] && names@[5]@ == engine_names()[5]);
    assert(names@[6]@ == engine_names()[6] && names@[7]@ == engine_names()[7]);
    assert(names@[8]@ == engine_names()[8] && names@[9]@ == engine_names()[9]);
    assert(names@[10]@ == engine_names()[10] && names@[11]@ == engine_names()[11]);
    assert(names@[12]@ == engine_names()[12] && names@[13]@ == engine_names()[13]);
}

}
