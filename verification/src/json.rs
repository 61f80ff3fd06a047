//! JSON values, as far as the library looks into them: through `serde_json`.

use crate::layout::{join, spliced};
use crate::order::{at_most_text, text_at_most};
use crate::scan::contents;
use crate::text::same;
use vstd::prelude::*;
use vstd::string::StringExecFns;

verus! {

/// What `serde_json` reads at a place of a text: the members of the object that
/// stands there, each with the text of its value; `None` where no object does; or
/// the message of the error where the text is no JSON.
pub uninterp spec fn members_of(text: Seq<char>, at: Seq<char>) -> Result<
    Option<Seq<(Seq<char>, Seq<char>)>>,
    Seq<char>,
>;

/// Names and values as values of the contracts.
pub open spec fn pairs(list: Seq<(String, String)>) -> Seq<(Seq<char>, Seq<char>)> {
    list.map_values(|p: (String, String)| (p.0@, p.1@))
}

/// `serde_json::from_str` into a `Value`, and `Value::pointer`: the members of the
/// object at a place, each value written back as text. The text is read once, so
/// that a number in a value is written as it was read.
#[verifier::external_body]
pub(crate) fn members(text: &str, at: &str) -> (r: Result<Option<Vec<(String, String)>>, String>)
    ensures
        match r {
            Ok(Some(list)) => members_of(text@, at@) == Ok::<_, Seq<char>>(Some(pairs(list@))),
            Ok(None) => members_of(text@, at@) == Ok::<_, Seq<char>>(
                None::<Seq<(Seq<char>, Seq<char>)>>,
            ),
            Err(e) => members_of(text@, at@) == Err::<Option<Seq<(Seq<char>, Seq<char>)>>, _>(e@),
        },
{
    let value = serde_json::from_str::<serde_json::Value>(text).map_err(|e| e.to_string())?;
    let object = value.pointer(at).and_then(|v| v.as_object());
    Ok(object.map(|map| map.iter().map(|(k, v)| (k.clone(), v.to_string())).collect()))
}

/// The string that a JSON text stands for, if it stands for one.
pub uninterp spec fn string_in(json: Seq<char>) -> Option<Seq<char>>;

/// `serde_json::from_str` into a `String`.
#[verifier::external_body]
pub(crate) fn string_value(json: &str) -> (r: Option<String>)
    ensures
        crate::report::text_of(r) == string_in(json@),
{
    serde_json::from_str::<String>(json).ok()
}

/// The whole number that a JSON text stands for, if it is one of 64 bits
/// without a sign.
pub uninterp spec fn whole_in(json: Seq<char>) -> Option<u64>;

/// `serde_json::from_str` into a `u64`.
#[verifier::external_body]
pub(crate) fn whole_value(json: &str) -> (r: Option<u64>)
    ensures
        r == whole_in(json@),
{
    serde_json::from_str::<u64>(json).ok()
}

/// The bits of the number at a place of a JSON text, if a number stands there.
pub uninterp spec fn number_at(text: Seq<char>, at: Seq<char>) -> Option<u64>;

/// `serde_json::Value::pointer` and `Value::as_f64`: the number at a place, by its
/// bits.
#[verifier::external_body]
pub(crate) fn number_value(text: &str, at: &str) -> (r: Option<u64>)
    ensures
        r == number_at(text@, at@),
{
    let value = serde_json::from_str::<serde_json::Value>(text).ok()?;
    value.pointer(at)?.as_f64().map(|x| x.to_bits())
}

/// A text as a JSON string.
pub uninterp spec fn quoted_text(text: Seq<char>) -> Seq<char>;

/// `serde_json::Value` of a string, written out. What it writes, it reads back.
#[verifier::external_body]
pub(crate) fn quoted(text: &str) -> (r: String)
    ensures
        r@ == quoted_text(text@),
        string_in(r@) == Some(text@),
{
    serde_json::Value::from(text).to_string()
}

// ---------------------------------------------------------------------------
// Members
// ---------------------------------------------------------------------------

/// The text of a member's value.
pub open spec fn member(list: Seq<(Seq<char>, Seq<char>)>, key: Seq<char>) -> Option<Seq<char>>
    decreases list.len(),
{
    if list.len() == 0 {
        None
    } else if list[0].0 == key {
        Some(list[0].1)
    } else {
        member(list.drop_first(), key)
    }
}

/// `member`, computed.
pub fn find_member<'a>(list: &'a Vec<(String, String)>, key: &str) -> (r: Option<&'a str>)
    ensures
        r is Some <==> member(pairs(list@), key@) is Some,
        r is Some ==> r->0@ == member(pairs(list@), key@)->0,
{
    let ghost all = pairs(list@);
    let mut i: usize = 0;
    assert(all.skip(0) =~= all);
    while i < list.len()
        invariant
            i <= list@.len(),
            all == pairs(list@),
            member(all, key@) == member(all.skip(i as int), key@),
        decreases list@.len() - i,
    {
        assert(all.skip(i as int)[0] == (list@[i as int].0@, list@[i as int].1@));
        if same(list[i].0.as_str(), key) {
            return Some(list[i].1.as_str());
        }
        assert(all.skip(i as int).drop_first() =~= all.skip(i + 1));
        i = i + 1;
    }
    None
}

/// The members with one set: in its place where it is there, and else before the
/// first name beyond it.
pub open spec fn with_member(
    list: Seq<(Seq<char>, Seq<char>)>,
    key: Seq<char>,
    value: Seq<char>,
) -> Seq<(Seq<char>, Seq<char>)>
    decreases list.len(),
{
    if list.len() == 0 {
        seq![(key, value)]
    } else if list[0].0 == key {
        seq![(key, value)] + list.drop_first()
    } else if !text_at_most(list[0].0, key) {
        seq![(key, value)] + list
    } else {
        seq![list[0]] + with_member(list.drop_first(), key, value)
    }
}

/// Whether no name comes after a greater one, and none twice.
pub open spec fn names_rise(list: Seq<(Seq<char>, Seq<char>)>) -> bool {
    forall|i: int, j: int|
        0 <= i < j < list.len() ==> text_at_most((#[trigger] list[i]).0, (#[trigger] list[j]).0)
            && list[i].0 != list[j].0
}

/// A member that was set reads back as it was set, and every other member of an
/// object reads as before.
pub proof fn law_member_set(
    list: Seq<(Seq<char>, Seq<char>)>,
    key: Seq<char>,
    value: Seq<char>,
    other: Seq<char>,
)
    ensures
        member(with_member(list, key, value), key) == Some(value),
        other != key ==> member(with_member(list, key, value), other) == member(list, other),
    decreases list.len(),
{
    let set = with_member(list, key, value);
    if list.len() == 0 {
        assert(set.drop_first() =~= list);
    } else if list[0].0 == key {
        assert(set.drop_first() =~= list.drop_first());
    } else if !text_at_most(list[0].0, key) {
        assert(set.drop_first() =~= list);
    } else {
        law_member_set(list.drop_first(), key, value, other);
        assert(set.drop_first() =~= with_member(list.drop_first(), key, value));
    }
}

/// Members in order stay in order.
pub proof fn law_member_set_keeps_order(
    list: Seq<(Seq<char>, Seq<char>)>,
    key: Seq<char>,
    value: Seq<char>,
)
    requires
        names_rise(list),
    ensures
        names_rise(with_member(list, key, value)),
    decreases list.len(),
{
    let set = with_member(list, key, value);
    if list.len() == 0 {
    } else if list[0].0 == key {
        assert forall|i: int, j: int| 0 <= i < j < set.len() implies text_at_most(
            (#[trigger] set[i]).0,
            (#[trigger] set[j]).0,
        ) && set[i].0 != set[j].0 by {
            assert(set[i].0 == list[i].0 && set[j].0 == list[j].0);
        }
    } else if !text_at_most(list[0].0, key) {
        assert forall|i: int, j: int| 0 <= i < j < set.len() implies text_at_most(
            (#[trigger] set[i]).0,
            (#[trigger] set[j]).0,
        ) && set[i].0 != set[j].0 by {
            crate::order::lemma_text_total(list[0].0, key);
            if i == 0 && j > 1 {
                assert(text_at_most(list[0].0, list[j - 1].0));
                crate::order::lemma_text_transitive(key, list[0].0, list[j - 1].0);
                if list[j - 1].0 == key {
                    crate::order::lemma_text_antisymmetric(list[0].0, key);
                }
            }
            if i > 0 {
                assert(set[i] == list[i - 1] && set[j] == list[j - 1]);
            }
        }
    } else {
        let rest = list.drop_first();
        let tail = with_member(rest, key, value);
        assert forall|i: int, j: int| 0 <= i < j < rest.len() implies text_at_most(
            (#[trigger] rest[i]).0,
            (#[trigger] rest[j]).0,
        ) && rest[i].0 != rest[j].0 by {
            assert(rest[i] == list[i + 1] && rest[j] == list[j + 1]);
        }
        law_member_set_keeps_order(rest, key, value);
        assert forall|i: int, j: int| 0 <= i < j < set.len() implies text_at_most(
            (#[trigger] set[i]).0,
            (#[trigger] set[j]).0,
        ) && set[i].0 != set[j].0 by {
            if i > 0 {
                assert(set[i] == tail[i - 1] && set[j] == tail[j - 1]);
            } else {
                assert(set[j] == tail[j - 1]);
                lemma_names_of_set(rest, key, value, j - 1);
                if tail[j - 1].0 != key {
                    let k = choose|k: int| 0 <= k < rest.len() && (#[trigger] rest[k]).0 == tail[j - 1].0;
                    assert(rest[k] == list[k + 1]);
                }
            }
        }
    }
}

proof fn lemma_names_of_set(
    list: Seq<(Seq<char>, Seq<char>)>,
    key: Seq<char>,
    value: Seq<char>,
    i: int,
)
    requires
        0 <= i < with_member(list, key, value).len(),
    ensures
        with_member(list, key, value)[i].0 == key || exists|k: int|
            0 <= k < list.len() && (#[trigger] list[k]).0 == with_member(list, key, value)[i].0,
    decreases list.len(),
{
    let set = with_member(list, key, value);
    if list.len() > 0 {
        if list[0].0 == key {
            if i > 0 {
                assert(set[i] == list[i]);
            }
        } else if !text_at_most(list[0].0, key) {
            if i > 0 {
                assert(set[i] == list[i - 1]);
            }
        } else if i == 0 {
            assert(set[0] == list[0]);
        } else {
            let rest = list.drop_first();
            lemma_names_of_set(rest, key, value, i - 1);
            assert(set[i] == with_member(rest, key, value)[i - 1]);
            if set[i].0 != key {
                let k = choose|k: int| 0 <= k < rest.len() && (#[trigger] rest[k]).0 == set[i].0;
                assert(list[k + 1].0 == set[i].0);
            }
        }
    }
}

/// `with_member`, computed.
pub fn set_member(list: Vec<(String, String)>, key: &str, value: &str) -> (r: Vec<
    (String, String),
>)
    ensures
        pairs(r@) == with_member(pairs(list@), key@, value@),
{
    let ghost all = pairs(list@);
    let mut r: Vec<(String, String)> = Vec::new();
    let mut i: usize = 0;
    let mut found: bool = false;
    assert(all.skip(0) =~= all);
    assert(pairs(r@) + with_member(all, key@, value@) =~= with_member(all, key@, value@));
    while i < list.len()
        invariant
            i <= list@.len(),
            all == pairs(list@),
            !found ==> pairs(r@) + with_member(all.skip(i as int), key@, value@) == with_member(
                all,
                key@,
                value@,
            ),
            found ==> pairs(r@) + all.skip(i as int) == with_member(all, key@, value@),
        decreases list@.len() - i,
    {
        let ghost before = pairs(r@);
        let ghost head = all.skip(i as int);
        assert(head[0] == (list@[i as int].0@, list@[i as int].1@));
        assert(head.drop_first() =~= all.skip(i + 1));
        let name = &list[i].0;
        if !found && same(name.as_str(), key) {
            r.push((key.to_owned(), value.to_owned()));
            found = true;
            assert(pairs(r@) =~= before.push((key@, value@)));
            assert(pairs(r@) + all.skip(i + 1) =~= before + with_member(head, key@, value@));
        } else {
            if !found && !at_most_text(name.as_str(), key) {
                r.push((key.to_owned(), value.to_owned()));
                found = true;
                assert(pairs(r@) =~= before.push((key@, value@)));
                assert(pairs(r@) + head =~= before + with_member(head, key@, value@));
            }
            let ghost middle = pairs(r@);
            r.push((list[i].0.clone(), list[i].1.clone()));
            assert(pairs(r@) =~= middle.push(head[0]));
            if found {
                assert(pairs(r@) + all.skip(i + 1) =~= middle + head);
            } else {
                assert(pairs(r@) + with_member(all.skip(i + 1), key@, value@) =~= before
                    + with_member(head, key@, value@));
            }
        }
        i = i + 1;
    }
    assert(all.skip(all.len() as int) =~= Seq::empty());
    if !found {
        let ghost before = pairs(r@);
        r.push((key.to_owned(), value.to_owned()));
        assert(pairs(r@) =~= before.push((key@, value@)));
        assert(pairs(r@) =~= before + with_member(all.skip(all.len() as int), key@, value@));
    } else {
        assert(pairs(r@) =~= pairs(r@) + all.skip(all.len() as int));
    }
    r
}

/// Members written as they stand between the braces.
pub open spec fn written(list: Seq<(Seq<char>, Seq<char>)>) -> Seq<Seq<char>> {
    list.map_values(|p: (Seq<char>, Seq<char>)| quoted_text(p.0) + ":"@ + p.1)
}

/// Members as the text of an object.
pub open spec fn object_text(list: Seq<(Seq<char>, Seq<char>)>) -> Seq<char> {
    "{"@ + spliced(written(list), ","@) + "}"@
}

/// `object_text`, computed.
pub fn write_object(list: &Vec<(String, String)>) -> (s: String)
    ensures
        s@ == object_text(pairs(list@)),
{
    let mut parts: Vec<String> = Vec::new();
    let mut i: usize = 0;
    while i < list.len()
        invariant
            i <= list@.len(),
            contents(parts@) =~= written(pairs(list@)).take(i as int),
        decreases list@.len() - i,
    {
        assert(pairs(list@)[i as int] == (list@[i as int].0@, list@[i as int].1@));
        let mut part = quoted(list[i].0.as_str());
        part.append(":");
        part.append(list[i].1.as_str());
        let ghost before = contents(parts@);
        parts.push(part);
        assert(contents(parts@) =~= before.push(written(pairs(list@))[i as int]));
        i = i + 1;
    }
    assert(contents(parts@) =~= written(pairs(list@)));
    let inner = join(&parts, ",");
    let mut s = "{".to_owned();
    s.append(inner.as_str());
    s.append("}");
    s
}

// ---------------------------------------------------------------------------
// What the answers are
// ---------------------------------------------------------------------------

/// A member's value is that of the first member with its name, and none only where no
/// member has the name.
pub proof fn law_members_are_found_by_name(
    list: &Vec<(String, String)>,
    key: &str,
    r: Option<&str>,
    k: int,
)
    requires
        call_ensures(find_member, (list, key), r),
        0 <= k <= list@.len(),
        forall|i: int| 0 <= i < k ==> (#[trigger] list@[i]).0@ != key@,
        k < list@.len() ==> list@[k].0@ == key@,
    ensures
        k < list@.len() ==> r is Some && r->0@ == list@[k].1@,
        k == list@.len() ==> r is None,
{
    let all = pairs(list@);
    assert forall|i: int| 0 <= i < k implies (#[trigger] all[i]).0 != key@ by {
        assert(list@[i].0@ == all[i].0);
    }
    lemma_first_member(all, key@, k);
}

proof fn lemma_first_member(list: Seq<(Seq<char>, Seq<char>)>, key: Seq<char>, k: int)
    requires
        0 <= k <= list.len(),
        forall|i: int| 0 <= i < k ==> (#[trigger] list[i]).0 != key,
        k < list.len() ==> list[k].0 == key,
    ensures
        k < list.len() ==> member(list, key) == Some(list[k].1),
        k == list.len() ==> member(list, key) is None,
    decreases list.len(),
{
    if k > 0 {
        let rest = list.drop_first();
        assert(list[0].0 != key);
        assert forall|i: int| 0 <= i < k - 1 implies (#[trigger] rest[i]).0 != key by {
            assert(rest[i] == list[i + 1]);
        }
        lemma_first_member(rest, key, k - 1);
    }
}

proof fn lemma_set_at(list: Seq<(Seq<char>, Seq<char>)>, key: Seq<char>, value: Seq<char>, p: int)
    requires
        0 <= p <= list.len(),
        forall|i: int|
            0 <= i < p ==> (#[trigger] list[i]).0 != key && text_at_most(list[i].0, key),
        p < list.len() ==> list[p].0 == key || !text_at_most(list[p].0, key),
    ensures
        with_member(list, key, value) == list.take(p).push((key, value)) + (if p < list.len()
            && list[p].0 == key {
            list.skip(p + 1)
        } else {
            list.skip(p)
        }),
    decreases list.len(),
{
    let want = list.take(p).push((key, value)) + (if p < list.len() && list[p].0 == key {
        list.skip(p + 1)
    } else {
        list.skip(p)
    });
    if p > 0 {
        let rest = list.drop_first();
        assert(list[0].0 != key && text_at_most(list[0].0, key));
        assert forall|i: int| 0 <= i < p - 1 implies (#[trigger] rest[i]).0 != key
            && text_at_most(rest[i].0, key) by {
            assert(rest[i] == list[i + 1]);
        }
        lemma_set_at(rest, key, value, p - 1);
        assert(rest.take(p - 1) =~= list.take(p).drop_first());
        assert(rest.skip(p - 1) =~= list.skip(p));
        if p < list.len() {
            assert(rest.skip(p) =~= list.skip(p + 1));
        }
        assert(with_member(list, key, value) =~= want);
    } else {
        assert(with_member(list, key, value) =~= want);
    }
}

/// Setting a member leaves the others as they were and where they were. It takes the
/// place of the member of its name, and else stands before the first with a name
/// beyond its own.
pub proof fn law_setting_a_member_leaves_the_others(
    list: Vec<(String, String)>,
    key: &str,
    value: &str,
    r: Vec<(String, String)>,
    p: int,
)
    requires
        call_ensures(set_member, (list, key, value), r),
        0 <= p <= list@.len(),
        forall|i: int|
            0 <= i < p ==> (#[trigger] list@[i]).0@ != key@ && text_at_most(list@[i].0@, key@),
        p < list@.len() ==> list@[p].0@ == key@ || !text_at_most(list@[p].0@, key@),
    ensures
        ({
            let replaced = p < list@.len() && list@[p].0@ == key@;
            let rest = if replaced {
                p + 1
            } else {
                p
            };
            &&& r@.len() == p + 1 + (list@.len() - rest)
            &&& forall|i: int|
                0 <= i < p ==> (#[trigger] r@[i]).0@ == list@[i].0@ && r@[i].1@ == list@[i].1@
            &&& r@[p].0@ == key@ && r@[p].1@ == value@
            &&& forall|i: int|
                p < i < r@.len() ==> (#[trigger] r@[i]).0@ == list@[i - p - 1 + rest].0@ && r@[i].1@
                    == list@[i - p - 1 + rest].1@
        }),
{
    let all = pairs(list@);
    assert forall|i: int| 0 <= i < p implies (#[trigger] all[i]).0 != key@ && text_at_most(
        all[i].0,
        key@,
    ) by {
        assert(list@[i].0@ == all[i].0);
    }
    lemma_set_at(all, key@, value@, p);
    let set = pairs(r@);
    let replaced = p < list@.len() && list@[p].0@ == key@;
    let rest = if replaced {
        p + 1
    } else {
        p
    };
    let back = all.skip(rest);
    assert(set == all.take(p).push((key@, value@)) + back);
    assert(set.len() == r@.len());
    assert forall|i: int| 0 <= i < p implies (#[trigger] r@[i]).0@ == list@[i].0@ && r@[i].1@
        == list@[i].1@ by {
        assert(set[i] == all[i]);
        assert(set[i] == (r@[i].0@, r@[i].1@));
    }
    assert(set[p] == (key@, value@));
    assert(set[p] == (r@[p].0@, r@[p].1@));
    assert forall|i: int| p < i < r@.len() implies (#[trigger] r@[i]).0@ == list@[i - p - 1
        + rest].0@ && r@[i].1@ == list@[i - p - 1 + rest].1@ by {
        assert(set[i] == back[i - p - 1]);
        assert(back[i - p - 1] == all[i - p - 1 + rest]);
        assert(set[i] == (r@[i].0@, r@[i].1@));
    }
}

/// An object is written as its members between braces, with commas between them: each
/// a name in quotes, a colon and the value.
pub proof fn law_objects_are_written_member_by_member(
    list: &Vec<(String, String)>,
    s: String,
    parts: &Vec<String>,
    comma: &str,
    inner: String,
)
    requires
        call_ensures(write_object, (list,), s),
        parts@.len() == list@.len(),
        forall|i: int|
            0 <= i < parts@.len() ==> (#[trigger] parts@[i])@ == quoted_text(list@[i].0@) + ":"@
                + list@[i].1@,
        comma@ == ","@,
        call_ensures(join, (parts, comma), inner),
    ensures
        s@ == "{"@ + inner@ + "}"@,
{
    let all = written(pairs(list@));
    assert forall|i: int| 0 <= i < all.len() implies all[i] == #[trigger] contents(parts@)[i] by {
        assert(parts@[i]@ == quoted_text(list@[i].0@) + ":"@ + list@[i].1@);
    }
    assert(contents(parts@) =~= all);
}

}
