//! Reading text: whitespace, words, lines and substrings.

use crate::text::{chars_of, string_of};
use vstd::prelude::*;

verus! {

/// The characters of each string of a list.
pub open spec fn contents(list: Seq<String>) -> Seq<Seq<char>> {
    list.map_values(|s: String| s@)
}

/// Whether `c` has the Unicode property White_Space.
pub open spec fn white(c: char) -> bool {
    ||| '\u{9}' <= c <= '\u{d}'
    ||| c == ' '
    ||| c == '\u{85}'
    ||| c == '\u{a0}'
    ||| c == '\u{1680}'
    ||| '\u{2000}' <= c <= '\u{200a}'
    ||| c == '\u{2028}'
    ||| c == '\u{2029}'
    ||| c == '\u{202f}'
    ||| c == '\u{205f}'
    ||| c == '\u{3000}'
}

/// `white`, computed.
pub fn is_white(c: char) -> (r: bool)
    ensures
        r == white(c),
{
    ('\u{9}' <= c && c <= '\u{d}') || c == ' ' || c == '\u{85}' || c == '\u{a0}' || c == '\u{1680}'
        || ('\u{2000}' <= c && c <= '\u{200a}') || c == '\u{2028}' || c == '\u{2029}'
        || c == '\u{202f}' || c == '\u{205f}' || c == '\u{3000}'
}

// ---------------------------------------------------------------------------
// Words
// ---------------------------------------------------------------------------

/// The words that end inside `s`, and the characters of a word still open at
/// its end.
pub open spec fn word_scan(s: Seq<char>) -> (Seq<Seq<char>>, Seq<char>)
    decreases s.len(),
{
    if s.len() == 0 {
        (Seq::empty(), Seq::empty())
    } else {
        let (done, open) = word_scan(s.drop_last());
        if !white(s.last()) {
            (done, open.push(s.last()))
        } else if open.len() > 0 {
            (done.push(open), Seq::empty())
        } else {
            (done, open)
        }
    }
}

/// The maximal runs of characters that are not whitespace, in order.
pub open spec fn words(s: Seq<char>) -> Seq<Seq<char>> {
    let (done, open) = word_scan(s);
    if open.len() > 0 {
        done.push(open)
    } else {
        done
    }
}

/// No word is empty, and none holds whitespace.
pub proof fn law_words_are_solid(s: Seq<char>)
    ensures
        forall|i: int| 0 <= i < words(s).len() ==> (#[trigger] words(s)[i]).len() > 0,
        forall|i: int, j: int|
            0 <= i < words(s).len() && 0 <= j < words(s)[i].len() ==> !white(
                #[trigger] words(s)[i][j],
            ),
{
    lemma_word_scan_solid(s);
}

proof fn lemma_word_scan_solid(s: Seq<char>)
    ensures
        forall|i: int| 0 <= i < word_scan(s).0.len() ==> (#[trigger] word_scan(s).0[i]).len() > 0,
        forall|i: int, j: int|
            0 <= i < word_scan(s).0.len() && 0 <= j < word_scan(s).0[i].len() ==> !white(
                #[trigger] word_scan(s).0[i][j],
            ),
        forall|j: int| 0 <= j < word_scan(s).1.len() ==> !white(#[trigger] word_scan(s).1[j]),
    decreases s.len(),
{
    if s.len() > 0 {
        lemma_word_scan_solid(s.drop_last());
        let (done, open) = word_scan(s.drop_last());
        if white(s.last()) && open.len() > 0 {
            assert(word_scan(s).0 == done.push(open));
            assert forall|i: int| 0 <= i < word_scan(s).0.len() implies (
            #[trigger] word_scan(s).0[i]).len() > 0 by {
                if i < done.len() {
                    assert(word_scan(s).0[i] == done[i]);
                }
            }
            assert forall|i: int, j: int|
                0 <= i < word_scan(s).0.len() && 0 <= j < word_scan(s).0[i].len() implies !white(
                #[trigger] word_scan(s).0[i][j],
            ) by {
                if i < done.len() {
                    assert(word_scan(s).0[i] == done[i]);
                }
            }
        }
    }
}

/// `words`, computed.
pub fn split_words(s: &str) -> (r: Vec<String>)
    ensures
        contents(r@) == words(s@),
{
    let v = chars_of(s);
    let mut done: Vec<String> = Vec::new();
    let mut start: usize = 0;
    let mut i: usize = 0;
    assert(v@.take(0) =~= Seq::<char>::empty());
    while i < v.len()
        invariant
            start <= i <= v@.len(),
            v@ == s@,
            word_scan(v@.take(i as int)).0 =~= contents(done@),
            word_scan(v@.take(i as int)).1 =~= v@.subrange(start as int, i as int),
        decreases v@.len() - i,
    {
        assert(v@.take(i + 1).drop_last() =~= v@.take(i as int));
        if is_white(v[i]) {
            if start < i {
                let w = string_of(&v, start, i);
                done.push(w);
            }
            start = i + 1;
        }
        i = i + 1;
    }
    assert(v@.take(v@.len() as int) =~= v@);
    if start < i {
        let w = string_of(&v, start, i);
        done.push(w);
    }
    assert(contents(done@) =~= words(s@));
    done
}

// ---------------------------------------------------------------------------
// Lines
// ---------------------------------------------------------------------------

/// A line as it stands before its line feed, less one carriage return.
pub open spec fn without_return(line: Seq<char>) -> Seq<char> {
    if line.len() > 0 && line.last() == '\r' {
        line.drop_last()
    } else {
        line
    }
}

/// The lines that end inside `s`, and what follows the last line feed.
pub open spec fn line_scan(s: Seq<char>) -> (Seq<Seq<char>>, Seq<char>)
    decreases s.len(),
{
    if s.len() == 0 {
        (Seq::empty(), Seq::empty())
    } else {
        let (done, open) = line_scan(s.drop_last());
        if s.last() == '\n' {
            (done.push(without_return(open)), Seq::empty())
        } else {
            (done, open.push(s.last()))
        }
    }
}

/// The lines of `s`: a line ends at a line feed, with or without a carriage
/// return before it, and the last one may end with the text.
pub open spec fn lines(s: Seq<char>) -> Seq<Seq<char>> {
    let (done, open) = line_scan(s);
    if open.len() > 0 {
        done.push(open)
    } else {
        done
    }
}

/// `lines`, computed.
pub fn split_lines(s: &str) -> (r: Vec<String>)
    ensures
        contents(r@) == lines(s@),
{
    let v = chars_of(s);
    let mut done: Vec<String> = Vec::new();
    let mut start: usize = 0;
    let mut i: usize = 0;
    assert(v@.take(0) =~= Seq::<char>::empty());
    while i < v.len()
        invariant
            start <= i <= v@.len(),
            v@ == s@,
            line_scan(v@.take(i as int)).0 =~= contents(done@),
            line_scan(v@.take(i as int)).1 =~= v@.subrange(start as int, i as int),
        decreases v@.len() - i,
    {
        assert(v@.take(i + 1).drop_last() =~= v@.take(i as int));
        if v[i] == '\n' {
            let end: usize = if start < i && v[i - 1] == '\r' { i - 1 } else { i };
            assert(without_return(v@.subrange(start as int, i as int)) =~= v@.subrange(
                start as int,
                end as int,
            ));
            let line = string_of(&v, start, end);
            done.push(line);
            start = i + 1;
        }
        i = i + 1;
    }
    assert(v@.take(v@.len() as int) =~= v@);
    if start < i {
        let line = string_of(&v, start, i);
        done.push(line);
    }
    assert(contents(done@) =~= lines(s@));
    done
}

// ---------------------------------------------------------------------------
// Trimming and searching
// ---------------------------------------------------------------------------

/// `s` without its leading whitespace.
pub open spec fn trim_start(s: Seq<char>) -> Seq<char>
    decreases s.len(),
{
    if s.len() > 0 && white(s[0]) {
        trim_start(s.drop_first())
    } else {
        s
    }
}

/// `s` without its trailing whitespace.
pub open spec fn trim_end(s: Seq<char>) -> Seq<char>
    decreases s.len(),
{
    if s.len() > 0 && white(s.last()) {
        trim_end(s.drop_last())
    } else {
        s
    }
}

/// `s` without the whitespace at both ends.
pub open spec fn trimmed(s: Seq<char>) -> Seq<char> {
    trim_end(trim_start(s))
}

/// `trimmed`, computed.
pub fn trim(s: &str) -> (r: String)
    ensures
        r@ == trimmed(s@),
{
    let v = chars_of(s);
    let mut a: usize = 0;
    assert(v@.skip(0) =~= v@);
    while a < v.len() && is_white(v[a])
        invariant
            a <= v@.len(),
            trim_start(v@) == trim_start(v@.skip(a as int)),
        decreases v@.len() - a,
    {
        assert(v@.skip(a as int).drop_first() =~= v@.skip(a + 1));
        a = a + 1;
    }
    let mut b: usize = v.len();
    assert(v@.skip(a as int) =~= v@.subrange(a as int, b as int));
    while a < b && is_white(v[b - 1])
        invariant
            a <= b <= v@.len(),
            trim_end(trim_start(v@)) == trim_end(v@.subrange(a as int, b as int)),
        decreases b,
    {
        assert(v@.subrange(a as int, b as int).drop_last() =~= v@.subrange(a as int, b - 1));
        b = b - 1;
    }
    string_of(&v, a, b)
}

/// Whether `pattern` stands in `s` at position `k`.
pub open spec fn stands_at(s: Seq<char>, pattern: Seq<char>, k: int) -> bool {
    0 <= k <= s.len() - pattern.len() && s.subrange(k, k + pattern.len()) == pattern
}

/// Whether `pattern` occurs in `s`.
pub open spec fn occurs(s: Seq<char>, pattern: Seq<char>) -> bool {
    exists|k: int| stands_at(s, pattern, k)
}

/// `stands_at`, computed.
fn found_at(v: &Vec<char>, p: &Vec<char>, k: usize) -> (r: bool)
    requires
        k <= v@.len(),
    ensures
        r == stands_at(v@, p@, k as int),
{
    if v.len() - k < p.len() {
        return false;
    }
    let mut j: usize = 0;
    let n: usize = v.len();
    while j < p.len()
        invariant
            j <= p@.len(),
            k + p@.len() <= v@.len() == n,
            forall|m: int| 0 <= m < j ==> v@[k + m] == p@[m],
        decreases p@.len() - j,
    {
        if v[k + j] != p[j] {
            assert(v@.subrange(k as int, k + p@.len())[j as int] != p@[j as int]);
            return false;
        }
        j = j + 1;
    }
    assert(v@.subrange(k as int, k + p@.len()) =~= p@);
    true
}

/// Whether `s` begins with `prefix`.
pub fn begins(s: &str, prefix: &str) -> (r: bool)
    ensures
        r == stands_at(s@, prefix@, 0),
{
    let v = chars_of(s);
    let p = chars_of(prefix);
    found_at(&v, &p, 0)
}

/// `occurs`, computed.
pub fn contains(s: &str, pattern: &str) -> (r: bool)
    ensures
        r == occurs(s@, pattern@),
{
    let v = chars_of(s);
    let p = chars_of(pattern);
    let mut k: usize = 0;
    while k <= v.len()
        invariant
            k <= v@.len() + 1,
            v@ == s@,
            p@ == pattern@,
            forall|m: int| 0 <= m < k ==> !stands_at(s@, pattern@, m),
        decreases v@.len() + 1 - k,
    {
        if found_at(&v, &p, k) {
            return true;
        }
        if k == v.len() {
            assert(forall|m: int| stands_at(s@, pattern@, m) ==> m <= s@.len());
            return false;
        }
        k = k + 1;
    }
    false
}

// ---------------------------------------------------------------------------
// What reading says
// ---------------------------------------------------------------------------

proof fn lemma_scan_goes_on(t: Seq<char>, b: Seq<char>)
    requires
        word_scan(t).1.len() == 0,
    ensures
        word_scan(t + b).0 == word_scan(t).0 + word_scan(b).0,
        word_scan(t + b).1 == word_scan(b).1,
    decreases b.len(),
{
    if b.len() == 0 {
        assert(t + b =~= t);
        assert(word_scan(t).0 + word_scan(b).0 =~= word_scan(t).0);
        assert(word_scan(t).1 =~= word_scan(b).1);
    } else {
        lemma_scan_goes_on(t, b.drop_last());
        assert((t + b).drop_last() =~= t + b.drop_last());
        let (done, open) = word_scan(b.drop_last());
        assert((word_scan(t).0 + done).push(open) =~= word_scan(t).0 + done.push(open));
    }
}

/// Whitespace parts words: the words of a text on both sides of it are the words of
/// the one side and then those of the other, and whitespace itself has none.
pub proof fn law_whitespace_parts_words(a: Seq<char>, c: char, b: Seq<char>)
    requires
        white(c),
    ensures
        words(a.push(c) + b) == words(a) + words(b),
        words(Seq::<char>::empty()).len() == 0,
{
    let t = a.push(c);
    assert(t.drop_last() =~= a);
    lemma_scan_goes_on(t, b);
    assert(word_scan(t).0 =~= words(a));
    assert(words(t + b) =~= words(a) + words(b));
}

/// A text without whitespace is one word.
pub proof fn law_solid_text_is_one_word(w: Seq<char>)
    requires
        w.len() > 0,
        forall|i: int| 0 <= i < w.len() ==> !white(#[trigger] w[i]),
    ensures
        words(w) == seq![w],
{
    lemma_solid_scan(w);
    assert(words(w) =~= seq![w]);
}

proof fn lemma_solid_scan(w: Seq<char>)
    requires
        forall|i: int| 0 <= i < w.len() ==> !white(#[trigger] w[i]),
    ensures
        word_scan(w).0.len() == 0,
        word_scan(w).1 == w,
    decreases w.len(),
{
    if w.len() > 0 {
        lemma_solid_scan(w.drop_last());
        assert(!white(w[w.len() - 1]));
        assert(w.drop_last().push(w.last()) =~= w);
    } else {
        assert(word_scan(w).1 =~= w);
    }
}

proof fn lemma_lines_go_on(t: Seq<char>, b: Seq<char>)
    requires
        line_scan(t).1.len() == 0,
    ensures
        line_scan(t + b).0 == line_scan(t).0 + line_scan(b).0,
        line_scan(t + b).1 == line_scan(b).1,
    decreases b.len(),
{
    if b.len() == 0 {
        assert(t + b =~= t);
        assert(line_scan(t).0 + line_scan(b).0 =~= line_scan(t).0);
        assert(line_scan(t).1 =~= line_scan(b).1);
    } else {
        lemma_lines_go_on(t, b.drop_last());
        assert((t + b).drop_last() =~= t + b.drop_last());
        let (done, open) = line_scan(b.drop_last());
        let line = without_return(open);
        assert((line_scan(t).0 + done).push(line) =~= line_scan(t).0 + done.push(line));
    }
}

proof fn lemma_open_line(a: Seq<char>)
    requires
        forall|i: int| 0 <= i < a.len() ==> #[trigger] a[i] != '\n',
    ensures
        line_scan(a).0.len() == 0,
        line_scan(a).1 == a,
    decreases a.len(),
{
    if a.len() > 0 {
        lemma_open_line(a.drop_last());
        assert(a[a.len() - 1] != '\n');
        assert(a.drop_last().push(a.last()) =~= a);
    } else {
        assert(line_scan(a).1 =~= a);
    }
}

/// A line feed ends a line, and takes one carriage return before it with it: the
/// lines of a text are the one up to its first line feed and then those of what
/// follows. What no line feed ends is a line of its own, as it stands, unless it is
/// empty.
pub proof fn law_line_feeds_end_lines(a: Seq<char>, b: Seq<char>)
    requires
        forall|i: int| 0 <= i < a.len() ==> #[trigger] a[i] != '\n',
    ensures
        a.len() > 0 ==> lines(a) == seq![a],
        a.len() == 0 ==> lines(a).len() == 0,
        (a.len() == 0 || a.last() != '\r') ==> lines(a.push('\n') + b) == seq![a] + lines(b),
        a.len() > 0 && a.last() == '\r' ==> lines(a.push('\n') + b) == seq![a.drop_last()]
            + lines(b),
{
    lemma_open_line(a);
    let t = a.push('\n');
    assert(t.drop_last() =~= a);
    assert(line_scan(t).0 =~= seq![without_return(a)]);
    lemma_lines_go_on(t, b);
    assert(lines(t + b) =~= seq![without_return(a)] + lines(b));
    assert(a.len() > 0 ==> lines(a) =~= seq![a]);
}

/// Trimming takes whitespace off both ends and nothing else, and leaves none there.
pub proof fn law_trimming_takes_whitespace(s: &str, r: String, front: nat)
    requires
        call_ensures(trim, (s,), r),
        front <= s@.len(),
        forall|i: int| 0 <= i < front ==> white(#[trigger] s@[i]),
        front < s@.len() ==> !white(s@[front as int]),
    ensures
        front + r@.len() <= s@.len(),
        r@ == s@.subrange(front as int, (front + r@.len()) as int),
        forall|i: int| front + r@.len() <= i < s@.len() ==> white(#[trigger] s@[i]),
        r@.len() > 0 ==> !white(r@[0]) && !white(r@.last()),
        r@.len() == 0 ==> front == s@.len(),
{
    lemma_trim_start(s@, front);
    let rest = s@.skip(front as int);
    lemma_trim_end(rest);
    let n = trim_end(rest).len();
    assert(r@ =~= s@.subrange(front as int, (front + n) as int));
    assert forall|i: int| front + n <= i < s@.len() implies white(#[trigger] s@[i]) by {
        assert(rest[i - front] == s@[i]);
    }
    if front < s@.len() {
        assert(rest[0] == s@[front as int]);
    }
}

proof fn lemma_trim_start(s: Seq<char>, front: nat)
    requires
        front <= s.len(),
        forall|i: int| 0 <= i < front ==> white(#[trigger] s[i]),
        front < s.len() ==> !white(s[front as int]),
    ensures
        trim_start(s) == s.skip(front as int),
    decreases front,
{
    if front > 0 {
        assert(white(s[0]));
        let rest = s.drop_first();
        assert forall|i: int| 0 <= i < front - 1 implies white(#[trigger] rest[i]) by {
            assert(rest[i] == s[i + 1]);
        }
        lemma_trim_start(rest, (front - 1) as nat);
        assert(rest.skip(front - 1) =~= s.skip(front as int));
    } else {
        assert(s.skip(0) =~= s);
    }
}

proof fn lemma_trim_end(s: Seq<char>)
    ensures
        trim_end(s).len() <= s.len(),
        trim_end(s) == s.take(trim_end(s).len() as int),
        trim_end(s).len() > 0 ==> !white(trim_end(s).last()),
        forall|i: int| trim_end(s).len() <= i < s.len() ==> white(#[trigger] s[i]),
    decreases s.len(),
{
    if s.len() > 0 && white(s.last()) {
        let less = s.drop_last();
        lemma_trim_end(less);
        assert(less.take(trim_end(less).len() as int) =~= s.take(trim_end(less).len() as int));
        assert forall|i: int| trim_end(s).len() <= i < s.len() implies white(#[trigger] s[i]) by {
            if i < less.len() {
                assert(less[i] == s[i]);
            }
        }
    } else {
        assert(s.take(s.len() as int) =~= s);
    }
}

/// Whitespace is what Unicode calls so.
pub proof fn law_whitespace(c: char, r: bool)
    requires
        call_ensures(is_white, (c,), r),
    ensures
        ({
            let u = c as u32;
            r <==> (9 <= u <= 13) || u == 0x20 || u == 0x85 || u == 0xa0 || u == 0x1680 || (0x2000
                <= u <= 0x200a) || u == 0x2028 || u == 0x2029 || u == 0x202f || u == 0x205f || u
                == 0x3000
        }),
{
}

/// A character that is no whitespace goes on with the last word of a text, and starts a new
/// one behind whitespace; whitespace changes nothing.
pub proof fn law_words_grow_by_characters(
    s: &str,
    t: &str,
    c: char,
    is_space: bool,
    a: Vec<String>,
    b: Vec<String>,
)
    requires
        call_ensures(split_words, (s,), a),
        call_ensures(split_words, (t,), b),
        call_ensures(is_white, (c,), is_space),
        t@ == s@.push(c),
    ensures
        s@.len() == 0 ==> a@.len() == 0,
        is_space ==> contents(b@) == contents(a@),
        !is_space && (s@.len() == 0 || white(s@.last())) ==> contents(b@) == contents(a@).push(
            seq![c],
        ),
        !is_space && s@.len() > 0 && !white(s@.last()) ==> a@.len() > 0 && contents(b@) == contents(
            a@,
        ).drop_last().push(contents(a@).last().push(c)),
{
    assert(t@.drop_last() =~= s@);
    assert(contents(a@).len() == a@.len());
    lemma_pending_word(s@);
    lemma_pending_word(t@);
    let (done, open) = word_scan(s@);
    if is_space {
        assert(words(t@) =~= words(s@));
    } else if s@.len() == 0 || white(s@.last()) {
        assert(open.len() == 0);
        assert(open.push(c) =~= seq![c]);
        assert(words(t@) =~= words(s@).push(seq![c]));
    } else {
        assert(words(s@) =~= done.push(open));
        assert(words(s@).drop_last() =~= done);
        assert(words(s@).last() == open);
        assert(words(t@) =~= done.push(open.push(c)));
    }
}

proof fn lemma_pending_word(s: Seq<char>)
    ensures
        word_scan(s).1.len() == 0 <==> s.len() == 0 || white(s.last()),
{
}

/// The lines of a text are those of the part before its first line feed and of the rest.
pub proof fn law_lines_are_split(s: &str, t: &str, a: Vec<String>, b: Vec<String>, first: Seq<char>)
    requires
        call_ensures(split_lines, (s,), a),
        call_ensures(split_lines, (t,), b),
        forall|i: int| 0 <= i < first.len() ==> #[trigger] first[i] != '\n',
        first.len() > 0 ==> first.last() != '\r',
    ensures
        t@ == first.push('\n') + s@ ==> contents(b@) == seq![first] + contents(a@),
        t@ == first.push('\r').push('\n') + s@ ==> contents(b@) == seq![first] + contents(a@),
        t@ == first && first.len() > 0 ==> contents(b@) == seq![first],
        t@.len() == 0 ==> b@.len() == 0,
{
    law_line_feeds_end_lines(first, s@);
    let with_return = first.push('\r');
    law_line_feeds_end_lines(with_return, s@);
    assert(with_return.drop_last() =~= first);
    if t@.len() == 0 {
        law_line_feeds_end_lines(t@, s@);
        assert(contents(b@).len() == b@.len());
    }
}

/// A text begins with another where it is the other and something behind it, and contains
/// it where something may stand before it too.
pub proof fn law_parts_of_a_text(
    s: &str,
    part: &str,
    front: Seq<char>,
    back: Seq<char>,
    starts: bool,
    holds: bool,
)
    requires
        call_ensures(begins, (s, part), starts),
        call_ensures(contains, (s, part), holds),
    ensures
        s@ == part@ + back ==> starts,
        starts ==> s@ == part@ + s@.skip(part@.len() as int),
        s@ == front + part@ + back ==> holds,
        holds ==> exists|k: int|
            #![trigger s@.take(k)]
            0 <= k && k + part@.len() <= s@.len() && s@ == s@.take(k) + part@ + s@.skip(
                k + part@.len(),
            ),
{
    if s@ == part@ + back {
        assert(s@.subrange(0, part@.len() as int) =~= part@);
    }
    if starts {
        assert(part@ + s@.skip(part@.len() as int) =~= s@);
    }
    if s@ == front + part@ + back {
        let k = front.len() as int;
        assert(s@.subrange(k, k + part@.len()) =~= part@);
        assert(stands_at(s@, part@, k));
    }
    if holds {
        let k = choose|k: int| stands_at(s@, part@, k);
        assert(s@.take(k) + part@ + s@.skip(k + part@.len()) =~= s@);
    }
}

}
