//! Resident set size, from what the system prints of a process.

use crate::scan::{begins, contents, lines, split_lines, split_words, stands_at, trim, trimmed,
    words};
use crate::text::{chars_of, number, parse_u64, string_of};
use vstd::prelude::*;

verus! {

/// The number of the field `key` in a line: the first word behind the key.
pub open spec fn field(line: Seq<char>, key: Seq<char>) -> Option<nat> {
    if stands_at(line, key, 0) && words(line.skip(key.len() as int)).len() > 0 {
        match number(words(line.skip(key.len() as int))[0]) {
            Some(n) => if n <= u64::MAX {
                Some(n)
            } else {
                None
            },
            None => None,
        }
    } else {
        None
    }
}

/// The number of the field `key` in the first line that has one.
pub open spec fn first_field(list: Seq<Seq<char>>, key: Seq<char>) -> Option<nat>
    decreases list.len(),
{
    if list.len() == 0 {
        None
    } else if field(list[0], key) is Some {
        field(list[0], key)
    } else {
        first_field(list.drop_first(), key)
    }
}

/// Kilobytes in bytes, where 64 bits hold them.
pub open spec fn in_bytes(kb: Option<nat>) -> Option<nat> {
    match kb {
        Some(n) => if n * 1024 <= u64::MAX {
            Some(n * 1024)
        } else {
            None
        },
        None => None,
    }
}

/// The number a text holds, where 64 bits hold it.
pub open spec fn whole_text(text: Seq<char>) -> Option<nat> {
    match number(trimmed(text)) {
        Some(n) => if n <= u64::MAX {
            Some(n)
        } else {
            None
        },
        None => None,
    }
}

/// The current resident set size, given the status text of the process where
/// the system has one, and what `ps` printed where it has not.
pub open spec fn resident(status: Option<Seq<char>>, ps: Option<Seq<char>>) -> Option<nat> {
    let kb = match status {
        Some(text) => first_field(lines(text), "VmRSS:"@),
        None => None,
    };
    if kb is Some {
        in_bytes(kb)
    } else {
        match ps {
            Some(text) => in_bytes(whole_text(text)),
            None => None,
        }
    }
}

/// The peak resident set size, given the status text of the process.
pub open spec fn high_water(status: Option<Seq<char>>) -> Option<nat> {
    match status {
        Some(text) => in_bytes(first_field(lines(text), "VmHWM:"@)),
        None => None,
    }
}

/// The growth from one reading to the next; a shrinking is none, and without
/// both readings there is nothing to say.
pub open spec fn growth(before: Option<u64>, after: Option<u64>) -> Option<u64> {
    match (before, after) {
        (Some(b), Some(a)) => Some(
            if a >= b {
                (a - b) as u64
            } else {
                0
            },
        ),
        _ => None,
    }
}

fn read_field(line: &str, key: &str) -> (r: Option<u64>)
    ensures
        r matches Some(n) ==> field(line@, key@) == Some(n as nat),
        r is None ==> field(line@, key@) is None,
{
    if !begins(line, key) {
        return None;
    }
    let v = chars_of(line);
    let k = chars_of(key);
    let rest = string_of(&v, k.len(), v.len());
    assert(rest@ =~= line@.skip(key@.len() as int));
    let list = split_words(rest.as_str());
    if list.len() == 0 {
        assert(contents(list@).len() == 0);
        return None;
    }
    assert(contents(list@)[0] == list@[0]@);
    parse_u64(list[0].as_str())
}

/// The kilobytes of a field in a status text.
pub fn status_kb(status: &str, key: &str) -> (r: Option<u64>)
    ensures
        r matches Some(n) ==> first_field(lines(status@), key@) == Some(n as nat),
        r is None ==> first_field(lines(status@), key@) is None,
{
    let list = split_lines(status);
    let ghost all = contents(list@);
    let mut i: usize = 0;
    assert(all.skip(0) =~= all);
    while i < list.len()
        invariant
            i <= list@.len(),
            all == contents(list@),
            all == lines(status@),
            first_field(all, key@) == first_field(all.skip(i as int), key@),
        decreases list@.len() - i,
    {
        assert(all.skip(i as int)[0] == list@[i as int]@);
        if let Some(n) = read_field(list[i].as_str(), key) {
            return Some(n);
        }
        assert(all.skip(i as int).drop_first() =~= all.skip(i + 1));
        i = i + 1;
    }
    None
}

fn bytes_of(kb: Option<u64>) -> (r: Option<u64>)
    ensures
        r matches Some(n) ==> kb is Some && in_bytes(Some(kb->0 as nat)) == Some(n as nat),
        r is None ==> kb is None || in_bytes(Some(kb->0 as nat)) is None,
{
    match kb {
        Some(n) => if n <= 0x003f_ffff_ffff_ffff {
            Some(n * 1024)
        } else {
            None
        },
        None => None,
    }
}

/// A text, if there is one.
pub open spec fn said(text: Option<&str>) -> Option<Seq<char>> {
    match text {
        Some(t) => Some(t@),
        None => None,
    }
}

/// Current resident set size in bytes, or `None` if it cannot be determined.
/// `status` is the status text of the process where the system has one; `ps`
/// is what `ps -o rss=` printed.
pub fn current(status: Option<&str>, ps: Option<&str>) -> (r: Option<u64>)
    ensures
        r matches Some(n) ==> resident(said(status), said(ps)) == Some(n as nat),
        r is None ==> resident(said(status), said(ps)) is None,
{
    if let Some(text) = status {
        let kb = status_kb(text, "VmRSS:");
        if kb.is_some() {
            return bytes_of(kb);
        }
    }
    match ps {
        Some(text) => {
            let t = trim(text);
            bytes_of(parse_u64(t.as_str()))
        },
        None => None,
    }
}

/// Peak resident set size in bytes; `None` where the system does not say.
pub fn peak(status: Option<&str>) -> (r: Option<u64>)
    ensures
        r matches Some(n) ==> high_water(said(status)) == Some(n as nat),
        r is None ==> high_water(said(status)) is None,
{
    match status {
        Some(text) => bytes_of(status_kb(text, "VmHWM:")),
        None => None,
    }
}

/// `growth`, computed.
pub fn delta(before: Option<u64>, after: Option<u64>) -> (r: Option<u64>)
    ensures
        r == growth(before, after),
{
    match (before, after) {
        (Some(b), Some(a)) => Some(a.saturating_sub(b)),
        _ => None,
    }
}

/// Runs `f` between two readings of the resident set, and reads the peak behind
/// it: the value of `f`, the growth, and the peak.
pub fn around<T, F: FnOnce() -> T, C: Fn() -> Option<u64>, P: Fn() -> Option<u64>>(
    f: F,
    read: &C,
    read_peak: &P,
) -> (r: (T, Option<u64>, Option<u64>))
    requires
        call_requires(f, ()),
        call_requires(*read, ()),
        call_requires(*read_peak, ()),
    ensures
        call_ensures(f, (), r.0),
        exists|before: Option<u64>, after: Option<u64>| #[trigger]
            call_ensures(*read, (), before) && #[trigger] call_ensures(*read, (), after) && r.1
                == growth(before, after),
        call_ensures(*read_peak, (), r.2),
{
    let before = read();
    let value = f();
    let after = read();
    (value, delta(before, after), read_peak())
}

/// Whether a line holds a number under a key: the key stands at its start, and the first word
/// behind it writes the number, which 64 bits hold.
pub open spec fn tells(line: Seq<char>, key: Seq<char>, kb: nat) -> bool {
    let rest = words(line.skip(key.len() as int));
    &&& key.len() <= line.len() && line.take(key.len() as int) == key
    &&& rest.len() > 0 && number(rest[0]) == Some(kb) && kb <= u64::MAX
}

proof fn lemma_tells(line: Seq<char>, key: Seq<char>, kb: nat)
    ensures
        tells(line, key, kb) <==> field(line, key) == Some(kb),
{
    if key.len() <= line.len() {
        assert(line.take(key.len() as int) == line.subrange(0, key.len() as int));
    }
}

/// Whether line `k` of a status text is the first that holds a number under a key, and the
/// number is this; where `k` is behind the last line, none holds one.
pub open spec fn first_says(status: Seq<char>, key: Seq<char>, k: int, kb: nat) -> bool {
    let list = lines(status);
    &&& 0 <= k <= list.len()
    &&& forall|i: int, other: nat| 0 <= i < k ==> !#[trigger] tells(list[i], key, other)
    &&& k < list.len() ==> tells(list[k], key, kb)
}

proof fn lemma_first_field(list: Seq<Seq<char>>, key: Seq<char>, k: int, kb: nat)
    requires
        0 <= k <= list.len(),
        forall|i: int, other: nat| 0 <= i < k ==> !#[trigger] tells(list[i], key, other),
        k < list.len() ==> tells(list[k], key, kb),
    ensures
        k < list.len() ==> first_field(list, key) == Some(kb),
        k == list.len() ==> first_field(list, key) is None,
    decreases list.len(),
{
    if k > 0 {
        if field(list[0], key) is Some {
            lemma_tells(list[0], key, field(list[0], key)->0);
            assert(tells(list[0], key, field(list[0], key)->0));
        }
        let rest = list.drop_first();
        assert forall|i: int, other: nat| 0 <= i < k - 1 implies !#[trigger] tells(
            rest[i],
            key,
            other,
        ) by {
            assert(rest[i] == list[i + 1]);
            assert(!tells(list[i + 1], key, other));
        }
        lemma_first_field(rest, key, k - 1, kb);
    } else if list.len() > 0 {
        lemma_tells(list[0], key, kb);
    }
}

/// Whether a number of bytes is that of so many kilobytes of 1024, and is missing where 64
/// bits do not hold it.
pub open spec fn is_of_kilobytes(r: Option<u64>, kb: nat) -> bool {
    if kb * 1024 <= u64::MAX {
        r is Some && r->0 == kb * 1024
    } else {
        r is None
    }
}

/// The resident set is what the status text says of it, in kilobytes. Where the text does
/// not say it, or there is none, it is what `ps` printed, if that is a number.
pub proof fn law_resident_set_is_read(
    status: Option<&str>,
    ps: Option<&str>,
    r: Option<u64>,
    k: int,
    kb: nat,
)
    requires
        call_ensures(current, (status, ps), r),
        status is Some ==> first_says(status->0@, "VmRSS:"@, k, kb),
    ensures
        ({
            let told = status is Some && k < lines(status->0@).len();
            let printed = if ps is Some {
                number(trimmed(ps->0@))
            } else {
                None
            };
            &&& told ==> is_of_kilobytes(r, kb)
            &&& !told && printed is Some ==> is_of_kilobytes(r, printed->0)
            &&& !told && printed is None ==> r is None
        }),
{
    if let Some(text) = status {
        lemma_first_field(lines(text@), "VmRSS:"@, k, kb);
    }
}

/// The peak is what the status text says of it, in kilobytes, and is not known where it does
/// not.
pub proof fn law_peak_is_read(status: Option<&str>, r: Option<u64>, k: int, kb: nat)
    requires
        call_ensures(peak, (status,), r),
        status is Some ==> first_says(status->0@, "VmHWM:"@, k, kb),
    ensures
        status is Some && k < lines(status->0@).len() ==> is_of_kilobytes(r, kb),
        status is None || k == lines(status->0@).len() ==> r is None,
{
    if let Some(text) = status {
        lemma_first_field(lines(text@), "VmHWM:"@, k, kb);
    }
}

/// A growth and the reading before it make the reading after it, unless the set
/// shrank; and it is known exactly where both readings are.
pub proof fn law_growth_makes_up_the_difference(
    before: Option<u64>,
    after: Option<u64>,
    r: Option<u64>,
)
    requires
        call_ensures(delta, (before, after), r),
    ensures
        r is Some <==> before is Some && after is Some,
        r is Some && before->0 <= after->0 ==> before->0 + r->0 == after->0,
        r is Some && before->0 > after->0 ==> r->0 == 0,
{
}

/// A field of a status text is what the first line with its key says.
pub proof fn law_fields_are_read_from_their_line(
    status: &str,
    key: &str,
    r: Option<u64>,
    k: int,
    kb: nat,
)
    requires
        call_ensures(status_kb, (status, key), r),
        first_says(status@, key@, k, kb),
    ensures
        k < lines(status@).len() ==> r is Some && r->0 == kb,
        k == lines(status@).len() ==> r is None,
{
    lemma_first_field(lines(status@), key@, k, kb);
}

/// Whatever is run between two readings, the growth that comes back is that from one
/// reading to another, and the value is that of what was run.
pub proof fn law_growth_is_between_readings<
    T,
    F: FnOnce() -> T,
    C: Fn() -> Option<u64>,
    P: Fn() -> Option<u64>,
>(f: F, read: &C, read_peak: &P, r: (T, Option<u64>, Option<u64>))
    requires
        call_ensures(around::<T, F, C, P>, (f, read, read_peak), r),
    ensures
        call_ensures(f, (), r.0),
        call_ensures(*read_peak, (), r.2),
        exists|before: Option<u64>, after: Option<u64>|
            {
                &&& #[trigger] call_ensures(*read, (), before)
                &&& #[trigger] call_ensures(*read, (), after)
                &&& r.1 is Some <==> before is Some && after is Some
                &&& r.1 is Some && before->0 <= after->0 ==> before->0 + r.1->0 == after->0
                &&& r.1 is Some && before->0 > after->0 ==> r.1->0 == 0
            },
{
    let (before, after) = choose|before: Option<u64>, after: Option<u64>| #[trigger]
        call_ensures(*read, (), before) && #[trigger] call_ensures(*read, (), after) && r.1
            == growth(before, after);
    assert(call_ensures(*read, (), before) && call_ensures(*read, (), after));
}

}
