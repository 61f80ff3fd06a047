//! A cache capacity written into a tokenizer's canonical config.

use crate::engine::{refused, unsupported, Unsupported};
use crate::json::{
    find_member, member, members, members_of, object_text, pairs, set_member, string_in,
    string_value, with_member, write_object,
};
use crate::report::text_of;
use crate::text::{count_text, decimal, same};
use vstd::prelude::*;
use vstd::string::StringExecFns;

verus! {

/// What is said of a config without a model.
pub const NO_MODEL: &'static str = "canonical config has no model object";

/// What is said of a model that takes no capacity.
pub const NOT_BPE: &'static str =
    "cache capacity is configurable only for the pipeline BPE model";

/// The members of a model with the capacity set, given the name of its type;
/// only a BPE model takes one.
pub open spec fn capped(
    model: Seq<(Seq<char>, Seq<char>)>,
    kind: Option<Seq<char>>,
    capacity: nat,
) -> Option<Seq<(Seq<char>, Seq<char>)>> {
    if kind == Some("BPE"@) {
        Some(with_member(model, "cache_capacity"@, decimal(capacity)))
    } else {
        None
    }
}

/// `capped`, computed.
pub fn cap_model(model: Vec<(String, String)>, kind: Option<String>, capacity: usize) -> (r: Result<
    Vec<(String, String)>,
    Unsupported,
>)
    ensures
        match capped(pairs(model@), text_of(kind), capacity as nat) {
            Some(list) => r is Ok && pairs(r->Ok_0@) == list,
            None => refused(r, NOT_BPE@),
        },
{
    let is_bpe: bool = match &kind {
        Some(k) => same(k.as_str(), "BPE"),
        None => false,
    };
    if !is_bpe {
        return unsupported(NOT_BPE);
    }
    let value = count_text(capacity);
    Ok(set_member(model, "cache_capacity", value.as_str()))
}

/// The type that the members of a model name.
pub open spec fn kind_of(model: Seq<(Seq<char>, Seq<char>)>) -> Option<Seq<char>> {
    match member(model, "type"@) {
        Some(json) => string_in(json),
        None => None,
    }
}

/// A config with the capacity set, from what the config and its model read as.
pub open spec fn capped_config(
    config: Result<Option<Seq<(Seq<char>, Seq<char>)>>, Seq<char>>,
    model: Result<Option<Seq<(Seq<char>, Seq<char>)>>, Seq<char>>,
    kind: Option<Seq<char>>,
    capacity: nat,
) -> Result<Seq<char>, Seq<char>> {
    match config {
        Err(e) => Err("cannot parse canonical config: "@ + e),
        Ok(None) => Err(NO_MODEL@),
        Ok(Some(list)) => match model {
            Ok(Some(inner)) => match capped(inner, kind, capacity) {
                Some(set) => Ok(object_text(with_member(list, "model"@, object_text(set)))),
                None => Err(NOT_BPE@),
            },
            _ => Err(NO_MODEL@),
        },
    }
}

/// What the model of a config reads as.
pub open spec fn model_of(config: Seq<char>) -> Result<
    Option<Seq<(Seq<char>, Seq<char>)>>,
    Seq<char>,
> {
    members_of(config, "/model"@)
}

/// The type of a config's model.
pub open spec fn model_kind(config: Seq<char>) -> Option<Seq<char>> {
    match model_of(config) {
        Ok(Some(inner)) => kind_of(inner),
        _ => None,
    }
}

/// Sets the cache capacity of a canonical config's BPE model. A config that is
/// no JSON, has no model, or whose model is of another type is refused.
pub fn with_cache_capacity(config: &str, capacity: usize) -> (r: Result<String, Unsupported>)
    ensures
        match capped_config(
            members_of(config@, ""@),
            model_of(config@),
            model_kind(config@),
            capacity as nat,
        ) {
            Ok(text) => r is Ok && r->Ok_0@ == text,
            Err(msg) => refused(r, msg),
        },
{
    let list = match members(config, "") {
        Err(e) => {
            let mut msg = "cannot parse canonical config: ".to_owned();
            msg.append(e.as_str());
            return unsupported(msg.as_str());
        },
        Ok(None) => return unsupported(NO_MODEL),
        Ok(Some(list)) => list,
    };
    let inner = match members(config, "/model") {
        Ok(Some(inner)) => inner,
        _ => return unsupported(NO_MODEL),
    };
    let kind = match find_member(&inner, "type") {
        Some(json) => string_value(json),
        None => None,
    };
    match cap_model(inner, kind, capacity) {
        Err(e) => Err(e),
        Ok(set) => {
            let text = write_object(&set);
            let whole = set_member(list, "model", text.as_str());
            Ok(write_object(&whole))
        },
    }
}

// ---------------------------------------------------------------------------
// What the answers are
// ---------------------------------------------------------------------------

/// A model takes a capacity exactly where it is of the type `BPE`, and then has it as a
/// member, in digits, beside the members it had.
pub proof fn law_capacity_is_set_in_bpe_models(
    model: Vec<(String, String)>,
    kind: Option<String>,
    capacity: usize,
    r: Result<Vec<(String, String)>, Unsupported>,
    name: &str,
    digits: &str,
    set: Vec<(String, String)>,
)
    requires
        call_ensures(cap_model, (model, kind, capacity), r),
        name@ == "cache_capacity"@,
        digits@ == decimal(capacity as nat),
        call_ensures(set_member, (model, name, digits), set),
    ensures
        r is Ok <==> kind is Some && kind->0@ == "BPE"@,
        r is Ok ==> pairs(r->Ok_0@) == pairs(set@),
        r is Err ==> r->Err_0.0@
            == "cache capacity is configurable only for the pipeline BPE model"@,
{
}

/// A config takes a capacity exactly where it reads as an object, has a model that does,
/// and the model's type is the string `BPE`; otherwise it is said which of these fails.
pub proof fn law_capacity_needs_a_bpe_model(
    config: &str,
    capacity: usize,
    r: Result<String, Unsupported>,
    list: &Vec<(String, String)>,
    inner: &Vec<(String, String)>,
    key: &str,
    kind: Option<&str>,
)
    requires
        call_ensures(with_cache_capacity, (config, capacity), r),
        members_of(config@, ""@) matches Ok(Some(all)) ==> pairs(list@) == all,
        members_of(config@, "/model"@) matches Ok(Some(all)) ==> pairs(inner@) == all,
        key@ == "type"@,
        call_ensures(find_member, (inner, key), kind),
    ensures
        ({
            let whole = members_of(config@, ""@);
            let model = members_of(config@, "/model"@);
            let readable = whole is Ok && whole->Ok_0 is Some;
            let has_model = readable && model is Ok && model->Ok_0 is Some;
            let is_bpe = kind is Some && string_in(kind->0@) == Some("BPE"@);
            &&& r is Ok <==> has_model && is_bpe
            &&& whole is Err ==> r->Err_0.0@ == "cannot parse canonical config: "@ + whole->Err_0
            &&& whole is Ok && !has_model ==> r->Err_0.0@ == "canonical config has no model object"@
            &&& has_model && !is_bpe ==> r->Err_0.0@
                == "cache capacity is configurable only for the pipeline BPE model"@
        }),
{
}

/// A config with a capacity is the config with its model set to the model with the
/// capacity set.
pub proof fn law_capacity_changes_the_model_alone(
    config: &str,
    capacity: usize,
    r: Result<String, Unsupported>,
    list: Vec<(String, String)>,
    inner: Vec<(String, String)>,
    kind: Option<String>,
    model: Result<Vec<(String, String)>, Unsupported>,
    model_text: String,
    key: &str,
    value: &str,
    whole: Vec<(String, String)>,
    text: String,
)
    requires
        call_ensures(with_cache_capacity, (config, capacity), r),
        r is Ok,
        members_of(config@, ""@) == Ok::<_, Seq<char>>(Some(pairs(list@))),
        members_of(config@, "/model"@) == Ok::<_, Seq<char>>(Some(pairs(inner@))),
        kind is Some && kind->0@ == "BPE"@,
        call_ensures(cap_model, (inner, kind, capacity), model),
        call_ensures(write_object, (&model->Ok_0,), model_text),
        key@ == "model"@ && value@ == model_text@,
        call_ensures(set_member, (list, key, value), whole),
        call_ensures(write_object, (&whole,), text),
    ensures
        r->Ok_0@ == text@,
{
}

}
