//! Laying text out: joining, padding, durations, progress and tables.

use crate::order::{
    along, before, in_order, lemma_text_antisymmetric, lemma_text_total, lemma_text_transitive, ranked, text_at_most,
};
use crate::scan::{begins, contains, contents, occurs, stands_at};
use crate::text::{byte_count, byte_len, chars_of, count_text, decimal, decimal_text, same,
    two_digit_text, two_digits};
use vstd::prelude::*;
use vstd::string::StringExecFns;
use vstd::utf8::encode_utf8;

verus! {

// ---------------------------------------------------------------------------
// Pieces
// ---------------------------------------------------------------------------

/// `n` times the character `c`.
pub open spec fn repeated(c: char, n: nat) -> Seq<char> {
    Seq::new(n, |i: int| c)
}

/// `repeated`, computed.
pub fn repeat(c: char, n: usize) -> (s: String)
    ensures
        s@ == repeated(c, n as nat),
{
    let mut s = String::new();
    let mut i: usize = 0;
    while i < n
        invariant
            i <= n,
            s@ =~= repeated(c, i as nat),
        decreases n - i,
    {
        s.push(c);
        i = i + 1;
    }
    s
}

/// Texts with a separator between.
pub open spec fn spliced(parts: Seq<Seq<char>>, sep: Seq<char>) -> Seq<char>
    decreases parts.len(),
{
    if parts.len() == 0 {
        Seq::empty()
    } else if parts.len() == 1 {
        parts[0]
    } else {
        spliced(parts.drop_last(), sep) + sep + parts.last()
    }
}

/// `spliced`, computed.
pub fn join(parts: &Vec<String>, sep: &str) -> (s: String)
    ensures
        s@ == spliced(contents(parts@), sep@),
{
    let ghost all = contents(parts@);
    let mut s = String::new();
    let mut i: usize = 0;
    assert(all.take(0) =~= Seq::empty());
    while i < parts.len()
        invariant
            i <= parts@.len(),
            all == contents(parts@),
            s@ == spliced(all.take(i as int), sep@),
        decreases parts@.len() - i,
    {
        assert(all.take(i + 1).drop_last() =~= all.take(i as int));
        if i > 0 {
            s.append(sep);
        } else {
            assert(s@ + all[0] =~= all[0]);
        }
        s.append(parts[i].as_str());
        i = i + 1;
    }
    assert(all.take(all.len() as int) =~= all);
    s
}

/// The spaces that bring a text to `width` characters.
pub open spec fn gap(s: Seq<char>, width: nat) -> Seq<char> {
    repeated(
        ' ',
        if s.len() < width {
            (width - s.len()) as nat
        } else {
            0
        },
    )
}

fn gap_text(s: &str, width: usize) -> (r: String)
    ensures
        r@ == gap(s@, width as nat),
{
    let v = chars_of(s);
    let n: usize = v.len();
    repeat(
        ' ',
        if n < width {
            width - n
        } else {
            0
        },
    )
}

// ---------------------------------------------------------------------------
// Durations and progress
// ---------------------------------------------------------------------------

/// Nanoseconds in whole seconds, to the nearest.
pub open spec fn rounded_seconds(nanos: nat) -> nat {
    (nanos + 500_000_000) / 1_000_000_000
}

/// A number of seconds as the report prints it, at most what 64 bits hold.
pub open spec fn capped_seconds(nanos: nat) -> nat {
    if rounded_seconds(nanos) <= u64::MAX {
        rounded_seconds(nanos)
    } else {
        u64::MAX as nat
    }
}

/// A number of seconds in its two largest units.
pub open spec fn duration_text(seconds: nat) -> Seq<char> {
    if seconds >= 3600 {
        decimal(seconds / 3600) + "h"@ + two_digits(seconds % 3600 / 60) + "m"@
    } else if seconds >= 60 {
        decimal(seconds / 60) + "m"@ + two_digits(seconds % 60) + "s"@
    } else {
        decimal(seconds) + "s"@
    }
}

fn seconds_of(nanos: u128) -> (s: u64)
    ensures
        s == capped_seconds(nanos as nat),
{
    let whole: u128 = nanos / 1_000_000_000;
    let rest: u128 = nanos % 1_000_000_000;
    let s: u128 = if rest >= 500_000_000 {
        whole + 1
    } else {
        whole
    };
    if s <= 0xffff_ffff_ffff_ffff {
        s as u64
    } else {
        0xffff_ffff_ffff_ffff
    }
}

/// A duration in nanoseconds, shown to the second.
pub fn compact_duration(nanos: u128) -> (s: String)
    ensures
        s@ == duration_text(capped_seconds(nanos as nat)),
{
    let seconds: u64 = seconds_of(nanos);
    if seconds >= 3600 {
        let mut s = decimal_text(seconds / 3600);
        s.append("h");
        let minutes = two_digit_text(seconds % 3600 / 60);
        s.append(minutes.as_str());
        s.append("m");
        s
    } else if seconds >= 60 {
        let mut s = decimal_text(seconds / 60);
        s.append("m");
        let rest = two_digit_text(seconds % 60);
        s.append(rest.as_str());
        s.append("s");
        s
    } else {
        let mut s = decimal_text(seconds);
        s.append("s");
        s
    }
}

/// How many of the 28 places of the progress bar are filled.
pub open spec fn bar_filled(done: nat, total: nat) -> nat {
    if total == 0 {
        0
    } else {
        28 * (if done <= total {
            done
        } else {
            total
        }) / total
    }
}

/// The time the remaining cells take at the pace of those done, in nanoseconds.
pub open spec fn remaining_nanos(done: nat, total: nat, elapsed: nat) -> nat {
    if done < total {
        elapsed * ((total - done) as nat) / done
    } else {
        0
    }
}

/// The progress of a measurement, on one line.
pub open spec fn progress_text(done: nat, total: nat, elapsed: nat) -> Seq<char> {
    "["@ + repeated('#', bar_filled(done, total)) + repeated(
        '-',
        (28 - bar_filled(done, total)) as nat,
    ) + "] "@ + decimal(done) + "/"@ + decimal(total) + " cells  elapsed "@ + duration_text(
        capped_seconds(elapsed),
    ) + "  eta "@ + if done == 0 {
        "calculating"@
    } else {
        duration_text(capped_seconds(remaining_nanos(done, total, elapsed)))
    }
}

/// `progress_text`, computed.
pub fn progress_line(done: usize, total: usize, elapsed_nanos: u64) -> (s: String)
    ensures
        s@ == progress_text(done as nat, total as nat, elapsed_nanos as nat),
{
    let reached: usize = if done <= total {
        done
    } else {
        total
    };
    let filled: usize = if total == 0 {
        0
    } else {
        proof {
            assert(28 * reached / total as int <= 28) by (nonlinear_arith)
                requires
                    0 <= reached <= total,
                    total > 0,
            ;
        }
        (28 * reached as u128 / total as u128) as usize
    };
    let mut s = String::new();
    s.append("[");
    assert(s@ =~= "["@);
    let full = repeat('#', filled);
    s.append(full.as_str());
    let left = repeat('-', 28 - filled);
    s.append(left.as_str());
    s.append("] ");
    let d = count_text(done);
    s.append(d.as_str());
    s.append("/");
    let t = count_text(total);
    s.append(t.as_str());
    s.append(" cells  elapsed ");
    let e = compact_duration(elapsed_nanos as u128);
    s.append(e.as_str());
    s.append("  eta ");
    if done == 0 {
        s.append("calculating");
    } else {
        let nanos: u128 = if done < total {
            let left: usize = total - done;
            assert(elapsed_nanos * left <= 0xffff_ffff_ffff_ffff * 0xffff_ffff_ffff_ffff)
                by (nonlinear_arith)
                requires
                    elapsed_nanos <= 0xffff_ffff_ffff_ffff,
                    left <= 0xffff_ffff_ffff_ffff,
            ;
            elapsed_nanos as u128 * left as u128 / done as u128
        } else {
            0
        };
        let eta = compact_duration(nanos);
        s.append(eta.as_str());
    }
    s
}

/// A scaling efficiency in whole percent, as it is shown.
pub fn format_scaling_efficiency(percent: u64) -> (s: String)
    ensures
        s@ == decimal(percent as nat) + "% observed"@,
{
    let mut s = decimal_text(percent);
    s.append("% observed");
    s
}

/// The coverage of a comparison: the value shown and how many of the cells it
/// stands on, or that none could be compared.
pub fn coverage_text(value: Option<&str>, comparable: usize, expected: usize) -> (s: String)
    ensures
        s@ == match value {
            Some(v) => "\u{d7}"@ + v@ + " on "@ + decimal(comparable as nat) + "/"@ + decimal(
                expected as nat,
            ) + " comparable"@,
            None => "0/"@ + decimal(expected as nat) + " comparable"@,
        },
{
    let mut s = String::new();
    match value {
        Some(v) => {
            s.append("\u{d7}");
            assert(s@ =~= "\u{d7}"@);
            s.append(v);
            s.append(" on ");
            let c = count_text(comparable);
            s.append(c.as_str());
            s.append("/");
        },
        None => {
            s.append("0/");
            assert(s@ =~= "0/"@);
        },
    }
    let e = count_text(expected);
    s.append(e.as_str());
    s.append(" comparable");
    s
}

// ---------------------------------------------------------------------------
// Tables
// ---------------------------------------------------------------------------

/// The cells of each row.
pub open spec fn grid(rows: Seq<Vec<String>>) -> Seq<Seq<Seq<char>>> {
    rows.map_values(|r: Vec<String>| contents(r@))
}

/// The width of column `i`: the bytes of its widest cell.
pub open spec fn column_width(
    headers: Seq<Seq<char>>,
    rows: Seq<Seq<Seq<char>>>,
    i: int,
) -> nat
    decreases rows.len(),
{
    if rows.len() == 0 {
        byte_count(headers[i])
    } else {
        let w = column_width(headers, rows.drop_last(), i);
        if i < rows.last().len() && byte_count(rows.last()[i]) > w {
            byte_count(rows.last()[i])
        } else {
            w
        }
    }
}

/// The width of every column.
pub open spec fn column_widths(headers: Seq<Seq<char>>, rows: Seq<Seq<Seq<char>>>) -> Seq<nat> {
    Seq::new(headers.len(), |i: int| column_width(headers, rows, i))
}

/// Cell `i` of a row, brought to the width of its column: values to the right,
/// labels to the left, and the last cell as it is unless it is aligned too.
pub open spec fn aligned(
    row: Seq<Seq<char>>,
    widths: Seq<nat>,
    labels: nat,
    align_last: bool,
    i: int,
) -> Seq<char> {
    if i >= labels && (i + 1 < row.len() || align_last) {
        gap(row[i], widths[i]) + row[i]
    } else if i + 1 == row.len() {
        row[i]
    } else {
        row[i] + gap(row[i], widths[i])
    }
}

/// One line of a table.
pub open spec fn table_line(
    row: Seq<Seq<char>>,
    widths: Seq<nat>,
    labels: nat,
    align_last: bool,
) -> Seq<char> {
    spliced(
        Seq::new(
            if row.len() <= widths.len() {
                row.len()
            } else {
                widths.len()
            },
            |i: int| aligned(row, widths, labels, align_last, i),
        ),
        "  "@,
    )
}

/// The line under the header.
pub open spec fn rule_line(widths: Seq<nat>) -> Seq<char> {
    spliced(widths.map_values(|w: nat| repeated('-', w)), "  "@)
}

/// The lines of a table: header, rule and rows.
pub open spec fn table(
    headers: Seq<Seq<char>>,
    rows: Seq<Seq<Seq<char>>>,
    labels: nat,
    align_last: bool,
) -> Seq<Seq<char>> {
    let widths = column_widths(headers, rows);
    seq![table_line(headers, widths, labels, align_last), rule_line(widths)] + rows.map_values(
        |row: Seq<Seq<char>>| table_line(row, widths, labels, align_last),
    )
}

fn widths_of(headers: &Vec<String>, rows: &Vec<Vec<String>>) -> (widths: Vec<usize>)
    ensures
        widths@.map_values(|w: usize| w as nat) == column_widths(
            contents(headers@),
            grid(rows@),
        ),
{
    let ghost h = contents(headers@);
    let ghost g = grid(rows@);
    let mut widths: Vec<usize> = Vec::new();
    let mut i: usize = 0;
    while i < headers.len()
        invariant
            i <= headers@.len(),
            h == contents(headers@),
            g == grid(rows@),
            widths@.len() == i,
            forall|k: int| 0 <= k < i ==> #[trigger] widths@[k] == column_width(h, g, k),
        decreases headers@.len() - i,
    {
        let mut w: usize = byte_len(headers[i].as_str());
        let mut r: usize = 0;
        assert(g.take(0) =~= Seq::empty());
        while r < rows.len()
            invariant
                r <= rows@.len(),
                i < headers@.len(),
                h == contents(headers@),
                g == grid(rows@),
                w == column_width(h, g.take(r as int), i as int),
            decreases rows@.len() - r,
        {
            assert(g.take(r + 1).drop_last() =~= g.take(r as int));
            assert(g.take(r + 1).last() == contents(rows@[r as int]@));
            if i < rows[r].len() {
                let b: usize = byte_len(rows[r][i].as_str());
                if b > w {
                    w = b;
                }
            }
            r = r + 1;
        }
        assert(g.take(g.len() as int) =~= g);
        widths.push(w);
        i = i + 1;
    }
    assert(widths@.map_values(|w: usize| w as nat) =~= column_widths(h, g));
    widths
}

fn render(row: &Vec<String>, widths: &Vec<usize>, labels: usize, align_last: bool) -> (s: String)
    ensures
        s@ == table_line(
            contents(row@),
            widths@.map_values(|w: usize| w as nat),
            labels as nat,
            align_last,
        ),
{
    let ghost c = contents(row@);
    let ghost ws = widths@.map_values(|w: usize| w as nat);
    let n: usize = if row.len() <= widths.len() {
        row.len()
    } else {
        widths.len()
    };
    let mut parts: Vec<String> = Vec::new();
    let mut i: usize = 0;
    while i < n
        invariant
            i <= n <= row@.len(),
            n <= widths@.len(),
            c == contents(row@),
            ws == widths@.map_values(|w: usize| w as nat),
            parts@.len() == i,
            forall|k: int|
                0 <= k < i ==> (#[trigger] parts@[k])@ == aligned(
                    c,
                    ws,
                    labels as nat,
                    align_last,
                    k,
                ),
        decreases n - i,
    {
        let last: bool = i == row.len() - 1;
        let value = row[i].as_str();
        let cell = if i >= labels && (!last || align_last) {
            let mut s = gap_text(value, widths[i]);
            s.append(value);
            s
        } else if last {
            row[i].clone()
        } else {
            let mut s = row[i].clone();
            let space = gap_text(value, widths[i]);
            s.append(space.as_str());
            s
        };
        parts.push(cell);
        i = i + 1;
    }
    assert(contents(parts@) =~= Seq::new(
        n as nat,
        |i: int| aligned(c, ws, labels as nat, align_last, i),
    ));
    join(&parts, "  ")
}

/// The lines of a table with `labels` label columns.
pub fn table_lines(
    headers: &Vec<String>,
    rows: &Vec<Vec<String>>,
    labels: usize,
    align_last: bool,
) -> (out: Vec<String>)
    ensures
        contents(out@) == table(contents(headers@), grid(rows@), labels as nat, align_last),
{
    let widths = widths_of(headers, rows);
    let ghost ws = column_widths(contents(headers@), grid(rows@));
    let mut out: Vec<String> = Vec::new();
    out.push(render(headers, &widths, labels, align_last));
    let mut rules: Vec<String> = Vec::new();
    let mut i: usize = 0;
    while i < widths.len()
        invariant
            i <= widths@.len(),
            ws == widths@.map_values(|w: usize| w as nat),
            rules@.len() == i,
            forall|k: int| 0 <= k < i ==> (#[trigger] rules@[k])@ == repeated('-', ws[k]),
        decreases widths@.len() - i,
    {
        rules.push(repeat('-', widths[i]));
        i = i + 1;
    }
    assert(contents(rules@) =~= ws.map_values(|w: nat| repeated('-', w)));
    out.push(join(&rules, "  "));
    let mut r: usize = 0;
    while r < rows.len()
        invariant
            r <= rows@.len(),
            ws == widths@.map_values(|w: usize| w as nat),
            out@.len() == r + 2,
            out@[0]@ == table_line(contents(headers@), ws, labels as nat, align_last),
            out@[1]@ == rule_line(ws),
            forall|k: int|
                0 <= k < r ==> (#[trigger] out@[k + 2])@ == table_line(
                    grid(rows@)[k],
                    ws,
                    labels as nat,
                    align_last,
                ),
        decreases rows@.len() - r,
    {
        out.push(render(&rows[r], &widths, labels, align_last));
        r = r + 1;
    }
    proof {
        let want = table(contents(headers@), grid(rows@), labels as nat, align_last);
        assert forall|k: int| 0 <= k < want.len() implies contents(out@)[k] == want[k] by {
            if k >= 2 {
                assert(out@[(k - 2) + 2]@ == table_line(
                    grid(rows@)[k - 2],
                    ws,
                    labels as nat,
                    align_last,
                ));
            }
        }
        assert(contents(out@) =~= want);
    }
    out
}

// ---------------------------------------------------------------------------
// Engines as columns
// ---------------------------------------------------------------------------

/// Whether `r` holds the texts of `list`, each once, in order.
pub open spec fn is_sorted_set(list: Seq<Seq<char>>, r: Seq<Seq<char>>) -> bool {
    &&& forall|x: Seq<char>| #[trigger] r.contains(x) <==> list.contains(x)
    &&& forall|i: int, j: int|
        0 <= i < j < r.len() ==> text_at_most(#[trigger] r[i], #[trigger] r[j]) && r[i] != r[j]
}

/// A list has one sorted set.
pub proof fn law_one_sorted_set(list: Seq<Seq<char>>, a: Seq<Seq<char>>, b: Seq<Seq<char>>)
    requires
        is_sorted_set(list, a),
        is_sorted_set(list, b),
    ensures
        a == b,
{
    lemma_sorted_prefix(list, a, b, if a.len() <= b.len() { a.len() as int } else { b.len() as int });
    if a.len() < b.len() {
        let x = b[a.len() as int];
        assert(b.contains(x));
        assert(list.contains(x));
        assert(a.contains(x));
        let k = choose|k: int| 0 <= k < a.len() && a[k] == x;
        assert(a.take(a.len() as int)[k] == b.take(a.len() as int)[k]);
        assert(b[k] != b[a.len() as int]);
    }
    if b.len() < a.len() {
        let x = a[b.len() as int];
        assert(a.contains(x));
        assert(list.contains(x));
        assert(b.contains(x));
        let k = choose|k: int| 0 <= k < b.len() && b[k] == x;
        assert(a.take(b.len() as int)[k] == b.take(b.len() as int)[k]);
        assert(a[k] != a[b.len() as int]);
    }
    assert(a.take(a.len() as int) =~= a);
    assert(b.take(a.len() as int) =~= b);
}

proof fn lemma_sorted_prefix(
    list: Seq<Seq<char>>,
    a: Seq<Seq<char>>,
    b: Seq<Seq<char>>,
    n: int,
)
    requires
        is_sorted_set(list, a),
        is_sorted_set(list, b),
        0 <= n <= a.len(),
        n <= b.len(),
    ensures
        a.take(n) == b.take(n),
    decreases n,
{
    if n > 0 {
        let i = n - 1;
        lemma_sorted_prefix(list, a, b, i);
        assert forall|k: int| 0 <= k < i implies a[k] == b[k] by {
            assert(a.take(i)[k] == b.take(i)[k]);
        }
        assert(a.contains(a[i]) && list.contains(a[i]) && b.contains(a[i]));
        assert(b.contains(b[i]) && list.contains(b[i]) && a.contains(b[i]));
        let p = choose|p: int| 0 <= p < b.len() && b[p] == a[i];
        let q = choose|q: int| 0 <= q < a.len() && a[q] == b[i];
        if p < i {
            assert(a[p] != a[i]);
        }
        if q < i {
            assert(b[q] != b[i]);
        }
        if p > i && q > i {
            assert(text_at_most(b[i], b[p]));
            assert(text_at_most(a[i], a[q]));
            lemma_text_antisymmetric(a[i], b[i]);
        }
        assert(a.take(n) =~= b.take(n));
    }
}

/// The sorted set of a list, as a value of the contracts.
pub open spec fn the_sorted_set(list: Seq<Seq<char>>) -> Seq<Seq<char>> {
    choose|r: Seq<Seq<char>>| is_sorted_set(list, r)
}

/// A sorted set is the sorted set.
pub proof fn lemma_the_sorted_set(list: Seq<Seq<char>>, r: Seq<Seq<char>>)
    requires
        is_sorted_set(list, r),
    ensures
        r == the_sorted_set(list),
{
    law_one_sorted_set(list, r, the_sorted_set(list));
}

/// Whether texts stand in rising order, none twice.
spec fn stands_sorted(r: Seq<Seq<char>>) -> bool {
    forall|i: int, j: int|
        0 <= i < j < r.len() ==> text_at_most(#[trigger] r[i], #[trigger] r[j]) && r[i] != r[j]
}

/// A sorted list with one more text in its place.
spec fn inserted(r: Seq<Seq<char>>, x: Seq<char>) -> Seq<Seq<char>>
    decreases r.len(),
{
    if r.len() == 0 || (r[0] != x && text_at_most(x, r[0])) {
        seq![x] + r
    } else if r[0] == x {
        r
    } else {
        seq![r[0]] + inserted(r.drop_first(), x)
    }
}

proof fn lemma_inserted(r: Seq<Seq<char>>, x: Seq<char>)
    requires
        stands_sorted(r),
    ensures
        stands_sorted(inserted(r, x)),
        forall|y: Seq<char>| #[trigger] inserted(r, x).contains(y) <==> r.contains(y) || y == x,
    decreases r.len(),
{
    let all = inserted(r, x);
    if r.len() == 0 || (r[0] != x && text_at_most(x, r[0])) {
        assert forall|i: int, j: int| 0 <= i < j < all.len() implies text_at_most(
            #[trigger] all[i],
            #[trigger] all[j],
        ) && all[i] != all[j] by {
            if i == 0 {
                if j > 1 {
                    assert(text_at_most(r[0], r[j - 1]) && r[0] != r[j - 1]);
                    lemma_text_transitive(x, r[0], r[j - 1]);
                    if x == r[j - 1] {
                        lemma_text_antisymmetric(x, r[0]);
                    }
                }
            } else {
                assert(text_at_most(r[i - 1], r[j - 1]));
            }
        }
        assert forall|y: Seq<char>| #[trigger] all.contains(y) <==> r.contains(y) || y == x by {
            if r.contains(y) {
                let k = choose|k: int| 0 <= k < r.len() && r[k] == y;
                assert(all[k + 1] == y);
            }
            if y == x {
                assert(all[0] == y);
            }
            if all.contains(y) {
                let k = choose|k: int| 0 <= k < all.len() && all[k] == y;
                if k > 0 {
                    assert(r[k - 1] == y);
                }
            }
        }
    } else if r[0] == x {
        assert(r.contains(r[0]));
    } else {
        let rest = r.drop_first();
        assert forall|i: int, j: int| 0 <= i < j < rest.len() implies text_at_most(
            #[trigger] rest[i],
            #[trigger] rest[j],
        ) && rest[i] != rest[j] by {
            assert(text_at_most(r[i + 1], r[j + 1]));
        }
        lemma_inserted(rest, x);
        let more = inserted(rest, x);
        lemma_text_total(x, r[0]);
        assert forall|i: int, j: int| 0 <= i < j < all.len() implies text_at_most(
            #[trigger] all[i],
            #[trigger] all[j],
        ) && all[i] != all[j] by {
            if i == 0 {
                let y = more[j - 1];
                assert(more.contains(y));
                if y != x {
                    let k = choose|k: int| 0 <= k < rest.len() && rest[k] == y;
                    assert(text_at_most(r[0], r[k + 1]) && r[0] != r[k + 1]);
                }
            } else {
                assert(text_at_most(more[i - 1], more[j - 1]));
            }
        }
        assert forall|y: Seq<char>| #[trigger] all.contains(y) <==> r.contains(y) || y == x by {
            if all.contains(y) {
                let k = choose|k: int| 0 <= k < all.len() && all[k] == y;
                if k > 0 {
                    assert(more[k - 1] == y);
                    assert(more.contains(y));
                    if y != x {
                        let q = choose|q: int| 0 <= q < rest.len() && rest[q] == y;
                        assert(r[q + 1] == y);
                    }
                } else {
                    assert(r[0] == y);
                }
            }
            if r.contains(y) {
                let k = choose|k: int| 0 <= k < r.len() && r[k] == y;
                if k == 0 {
                    assert(all[0] == y);
                } else {
                    assert(rest[k - 1] == y);
                    assert(more.contains(y));
                    let q = choose|q: int| 0 <= q < more.len() && more[q] == y;
                    assert(all[q + 1] == y);
                }
            }
            if y == x {
                assert(more.contains(x));
                let q = choose|q: int| 0 <= q < more.len() && more[q] == x;
                assert(all[q + 1] == y);
            }
        }
    }
}

/// Every list of texts has a sorted set.
pub proof fn lemma_some_sorted_set(list: Seq<Seq<char>>)
    ensures
        is_sorted_set(list, the_sorted_set(list)),
    decreases list.len(),
{
    if list.len() == 0 {
        let r = Seq::<Seq<char>>::empty();
        assert(is_sorted_set(list, r));
    } else {
        let less = list.drop_last();
        let x = list.last();
        lemma_some_sorted_set(less);
        let was = the_sorted_set(less);
        lemma_inserted(was, x);
        let r = inserted(was, x);
        assert forall|y: Seq<char>| #[trigger] r.contains(y) <==> list.contains(y) by {
            assert(was.contains(y) <==> less.contains(y));
            if less.contains(y) {
                let k = choose|k: int| 0 <= k < less.len() && less[k] == y;
                assert(list[k] == y);
            }
            if y == x {
                assert(list[list.len() - 1] == y);
            }
            if list.contains(y) {
                let k = choose|k: int| 0 <= k < list.len() && list[k] == y;
                if k < less.len() {
                    assert(less[k] == y);
                }
            }
        }
        assert(is_sorted_set(list, r));
    }
}

/// The sorted set of a list of texts.
pub fn sorted_set(list: &Vec<String>) -> (r: Vec<String>)
    ensures
        is_sorted_set(contents(list@), contents(r@)),
        contents(r@) == the_sorted_set(contents(list@)),
{
    let order = ranked(list.as_slice());
    let n: usize = order.len();
    let ghost all = contents(list@);
    let ghost sorted = contents(along(list@, order@));
    let mut r: Vec<String> = Vec::new();
    let mut i: usize = 0;
    assert(contents(r@) =~= Seq::empty());
    while i < n
        invariant
            i <= n,
            n == order@.len() == list@.len(),
            in_order(list@, order@),
            all == contents(list@),
            sorted == contents(along(list@, order@)),
            forall|k: int|
                0 <= k < i ==> contents(r@).contains(#[trigger] sorted[k]),
            forall|k: int| 0 <= k < r@.len() ==> all.contains(#[trigger] contents(r@)[k]),
            forall|a: int, b: int|
                0 <= a < b < r@.len() ==> text_at_most(
                    #[trigger] contents(r@)[a],
                    #[trigger] contents(r@)[b],
                ) && contents(r@)[a] != contents(r@)[b],
            i > 0 ==> r@.len() > 0 && contents(r@).last() == sorted[i - 1],
            i == 0 ==> r@.len() == 0,
        decreases n - i,
    {
        let at: usize = order[i];
        let ghost w = list@[at as int]@;
        assert(sorted[i as int] == w);
        assert(all[at as int] == w);
        let m: usize = r.len();
        let ghost c = contents(r@);
        if m > 0 && same(r[m - 1].as_str(), list[at].as_str()) {
            assert(c[m - 1] == w);
        } else {
            proof {
                if i > 0 {
                    assert(before(list@, order@[i - 1], at));
                    assert(sorted[i - 1] == list@[order@[i - 1] as int]@);
                    assert(c[m - 1] == sorted[i - 1]);
                    assert(c[m - 1] == r@[m - 1]@);
                    assert forall|k: int| 0 <= k < m implies text_at_most(#[trigger] c[k], w)
                        && c[k] != w by {
                        if k < m - 1 {
                            assert(text_at_most(c[k], c[m - 1]));
                            lemma_text_transitive(c[k], c[m - 1], w);
                            if c[k] == w {
                                lemma_text_antisymmetric(c[m - 1], w);
                            }
                        }
                    }
                }
            }
            r.push(list[at].clone());
            proof {
                let d = contents(r@);
                assert(d =~= c.push(w));
                assert forall|k: int| 0 <= k < i implies d.contains(#[trigger] sorted[k]) by {
                    assert(c.contains(sorted[k]));
                    let q = choose|q: int| 0 <= q < c.len() && c[q] == sorted[k];
                    assert(d[q] == sorted[k]);
                }
                assert(d[m as int] == w);
            }
        }
        i = i + 1;
    }
    proof {
        let c = contents(r@);
        assert forall|x: Seq<char>| #[trigger] c.contains(x) <==> all.contains(x) by {
            if c.contains(x) {
                let k = choose|k: int| 0 <= k < c.len() && c[k] == x;
                assert(all.contains(c[k]));
            }
            if all.contains(x) {
                let p = choose|p: int| 0 <= p < all.len() && all[p] == x;
                assert(order@.contains(p as usize));
                let k = choose|k: int| 0 <= k < order@.len() && order@[k] == p as usize;
                assert(sorted[k] == x);
            }
        }
        lemma_the_sorted_set(all, c);
    }
    r
}

/// A value with the unit its header names.
pub open spec fn labelled(header: Seq<char>, value: Seq<char>) -> Seq<char> {
    if header == "corpora"@ || header == "status"@ || stands_at(header, "vs "@, 0) {
        value
    } else if occurs(header, "1T MB/s"@) {
        "1T "@ + value + " MB/s"@
    } else if occurs(header, "max MB/s"@) {
        "max "@ + value + " MB/s"@
    } else if occurs(header, "MB/s"@) {
        value + " MB/s"@
    } else if occurs(header, "ns/token"@) {
        value + " ns/token"@
    } else if occurs(header, "ns/B"@) {
        value + " ns/B"@
    } else if occurs(header, "p50"@) && !occurs(header, " vs "@) {
        "p50 "@ + value + " us"@
    } else if occurs(header, "p99"@) && !occurs(header, " vs "@) {
        "p99 "@ + value + " us"@
    } else if occurs(header, "samples"@) {
        value + " samples"@
    } else if occurs(header, "efficiency"@) {
        if occurs(value, "%"@) {
            value + " efficiency"@
        } else {
            value + "% efficiency"@
        }
    } else if header == "tokens"@ {
        value + " tokens"@
    } else {
        value
    }
}

fn around(front: &str, value: &str, back: &str) -> (s: String)
    ensures
        s@ == front@ + value@ + back@,
{
    let mut s = front.to_owned();
    s.append(value);
    s.append(back);
    s
}

fn after(value: &str, back: &str) -> (s: String)
    ensures
        s@ == value@ + back@,
{
    let mut s = value.to_owned();
    s.append(back);
    s
}

/// `labelled`, computed.
pub fn label_value(header: &str, value: &str) -> (s: String)
    ensures
        s@ == labelled(header@, value@),
{
    if same(header, "corpora") || same(header, "status") || begins(header, "vs ") {
        value.to_owned()
    } else if contains(header, "1T MB/s") {
        around("1T ", value, " MB/s")
    } else if contains(header, "max MB/s") {
        around("max ", value, " MB/s")
    } else if contains(header, "MB/s") {
        after(value, " MB/s")
    } else if contains(header, "ns/token") {
        after(value, " ns/token")
    } else if contains(header, "ns/B") {
        after(value, " ns/B")
    } else if contains(header, "p50") && !contains(header, " vs ") {
        around("p50 ", value, " us")
    } else if contains(header, "p99") && !contains(header, " vs ") {
        around("p99 ", value, " us")
    } else if contains(header, "samples") {
        after(value, " samples")
    } else if contains(header, "efficiency") {
        if contains(value, "%") {
            after(value, " efficiency")
        } else {
            after(value, "% efficiency")
        }
    } else if same(header, "tokens") {
        after(value, " tokens")
    } else {
        value.to_owned()
    }
}

/// The last row of a model and an engine.
pub open spec fn row_of(
    rows: Seq<Seq<Seq<char>>>,
    model: Seq<char>,
    engine: Seq<char>,
) -> Option<int>
    decreases rows.len(),
{
    if rows.len() == 0 {
        None
    } else if rows.last()[0] == model && rows.last()[1] == engine {
        Some(rows.len() - 1)
    } else {
        row_of(rows.drop_last(), model, engine)
    }
}

/// The values of a row, each with its unit, in one cell.
pub open spec fn packed(headers: Seq<Seq<char>>, row: Seq<Seq<char>>) -> Seq<char> {
    spliced(
        Seq::new(
            (if row.len() <= headers.len() {
                row.len() - 2
            } else {
                headers.len() - 2
            }) as nat,
            |i: int| labelled(headers[i + 2], row[i + 2]),
        ),
        " \u{b7} "@,
    )
}

/// The cell of a model and an engine.
pub open spec fn pivot_cell(
    headers: Seq<Seq<char>>,
    rows: Seq<Seq<Seq<char>>>,
    model: Seq<char>,
    engine: Seq<char>,
) -> Seq<char> {
    match row_of(rows, model, engine) {
        Some(i) => packed(headers, rows[i]),
        None => "-"@,
    }
}

/// The first (or second) cell of every row.
pub open spec fn column(rows: Seq<Seq<Seq<char>>>, i: int) -> Seq<Seq<char>> {
    rows.map_values(|row: Seq<Seq<char>>| row[i])
}

/// Whether a table is `headers` and `rows` turned so that every engine is a
/// column and every model a row.
pub open spec fn is_pivot(
    headers: Seq<Seq<char>>,
    rows: Seq<Seq<Seq<char>>>,
    new_headers: Seq<Seq<char>>,
    new_rows: Seq<Seq<Seq<char>>>,
) -> bool {
    exists|models: Seq<Seq<char>>, engines: Seq<Seq<char>>|
        #![trigger is_sorted_set(column(rows, 0), models), is_sorted_set(column(rows, 1), engines)]
        is_sorted_set(column(rows, 0), models) && is_sorted_set(column(rows, 1), engines)
            && new_headers == seq![headers[0]] + engines && new_rows == Seq::new(
            models.len(),
            |m: int|
                seq![models[m]] + Seq::new(
                    engines.len(),
                    |e: int| pivot_cell(headers, rows, models[m], engines[e]),
                ),
        )
}

/// Whether a row is the one of a model and an engine.
pub open spec fn is_row_of(row: Seq<Seq<char>>, model: Seq<char>, engine: Seq<char>) -> bool {
    row[0] == model && row[1] == engine
}

proof fn lemma_row_of(rows: Seq<Seq<Seq<char>>>, model: Seq<char>, engine: Seq<char>)
    ensures
        match row_of(rows, model, engine) {
            Some(i) => 0 <= i < rows.len() && is_row_of(rows[i], model, engine),
            None => forall|i: int|
                0 <= i < rows.len() ==> !is_row_of(#[trigger] rows[i], model, engine),
        },
    decreases rows.len(),
{
    if rows.len() > 0 {
        lemma_row_of(rows.drop_last(), model, engine);
        if row_of(rows, model, engine) is None {
            assert forall|i: int| 0 <= i < rows.len() implies !is_row_of(
                #[trigger] rows[i],
                model,
                engine,
            ) by {
                if i < rows.len() - 1 {
                    assert(rows.drop_last()[i] == rows[i]);
                }
            }
        }
    }
}

/// Whether no two rows have both the model and the engine in common.
pub open spec fn keys_are_apart(rows: Seq<Seq<Seq<char>>>) -> bool {
    forall|i: int, j: int|
        0 <= i < j < rows.len() ==> !(rows[i][0] == rows[j][0] && (#[trigger] rows[i])[1] == (
        #[trigger] rows[j])[1])
}

proof fn lemma_same_column(a: Seq<Seq<Seq<char>>>, b: Seq<Seq<Seq<char>>>, at: int, x: Seq<char>)
    requires
        forall|row: Seq<Seq<char>>| a.contains(row) ==> #[trigger] b.contains(row),
        column(a, at).contains(x),
    ensures
        column(b, at).contains(x),
{
    let i = choose|i: int| 0 <= i < column(a, at).len() && column(a, at)[i] == x;
    assert(a.contains(a[i]));
    assert(b.contains(a[i]));
    let j = choose|j: int| 0 <= j < b.len() && b[j] == a[i];
    assert(column(b, at)[j] == x);
}

proof fn lemma_same_cell(
    headers: Seq<Seq<char>>,
    a: Seq<Seq<Seq<char>>>,
    b: Seq<Seq<Seq<char>>>,
    model: Seq<char>,
    engine: Seq<char>,
)
    requires
        keys_are_apart(b),
        forall|row: Seq<Seq<char>>| a.contains(row) <==> #[trigger] b.contains(row),
    ensures
        pivot_cell(headers, a, model, engine) == pivot_cell(headers, b, model, engine),
{
    lemma_row_of(a, model, engine);
    lemma_row_of(b, model, engine);
    match (row_of(a, model, engine), row_of(b, model, engine)) {
        (Some(i), Some(j)) => {
            assert(a.contains(a[i]));
            assert(b.contains(a[i]));
            let k = choose|k: int| 0 <= k < b.len() && b[k] == a[i];
            if k < j {
                assert(!(b[k][0] == b[j][0] && b[k][1] == b[j][1]));
            }
            if j < k {
                assert(!(b[j][0] == b[k][0] && b[j][1] == b[k][1]));
            }
        },
        (Some(i), None) => {
            assert(a.contains(a[i]));
            assert(b.contains(a[i]));
            let k = choose|k: int| 0 <= k < b.len() && b[k] == a[i];
            assert(!is_row_of(b[k], model, engine));
        },
        (None, Some(j)) => {
            assert(b.contains(b[j]));
            assert(a.contains(b[j]));
            let k = choose|k: int| 0 <= k < a.len() && a[k] == b[j];
            assert(!is_row_of(a[k], model, engine));
        },
        (None, None) => {},
    }
}

/// The turned table does not depend on the order of its rows, where no two have
/// both the model and the engine in common.
pub proof fn law_pivot_ignores_the_order(
    headers: Seq<Seq<char>>,
    rows: Seq<Seq<Seq<char>>>,
    others: Seq<Seq<Seq<char>>>,
    new_headers: Seq<Seq<char>>,
    new_rows: Seq<Seq<Seq<char>>>,
    other_headers: Seq<Seq<char>>,
    other_rows: Seq<Seq<Seq<char>>>,
)
    requires
        keys_are_apart(rows),
        others.to_multiset() == rows.to_multiset(),
        is_pivot(headers, rows, new_headers, new_rows),
        is_pivot(headers, others, other_headers, other_rows),
    ensures
        new_headers == other_headers,
        new_rows == other_rows,
{
    assert forall|row: Seq<Seq<char>>| others.contains(row) <==> #[trigger] rows.contains(row) by {
        others.to_multiset_ensures();
        rows.to_multiset_ensures();
        assert(others.contains(row) <==> others.to_multiset().count(row) > 0);
        assert(rows.contains(row) <==> rows.to_multiset().count(row) > 0);
    }
    assert forall|row: Seq<Seq<char>>| rows.contains(row) implies #[trigger] others.contains(
        row,
    ) by {
        assert(others.contains(row) <==> rows.contains(row));
    }
    let (models, engines) = choose|models: Seq<Seq<char>>, engines: Seq<Seq<char>>|
        #![trigger is_sorted_set(column(rows, 0), models), is_sorted_set(column(rows, 1), engines)]
        is_sorted_set(column(rows, 0), models) && is_sorted_set(column(rows, 1), engines)
            && new_headers == seq![headers[0]] + engines && new_rows == Seq::new(
            models.len(),
            |m: int|
                seq![models[m]] + Seq::new(
                    engines.len(),
                    |e: int| pivot_cell(headers, rows, models[m], engines[e]),
                ),
        );
    let (models2, engines2) = choose|models: Seq<Seq<char>>, engines: Seq<Seq<char>>|
        #![trigger is_sorted_set(column(others, 0), models), is_sorted_set(column(others, 1), engines)]
        is_sorted_set(column(others, 0), models) && is_sorted_set(column(others, 1), engines)
            && other_headers == seq![headers[0]] + engines && other_rows == Seq::new(
            models.len(),
            |m: int|
                seq![models[m]] + Seq::new(
                    engines.len(),
                    |e: int| pivot_cell(headers, others, models[m], engines[e]),
                ),
        );
    assert forall|x: Seq<char>| #[trigger] models2.contains(x) <==> column(rows, 0).contains(x) by {
        if column(rows, 0).contains(x) {
            lemma_same_column(rows, others, 0, x);
        }
        if column(others, 0).contains(x) {
            lemma_same_column(others, rows, 0, x);
        }
    }
    assert forall|x: Seq<char>| #[trigger] engines2.contains(x) <==> column(rows, 1).contains(
        x,
    ) by {
        if column(rows, 1).contains(x) {
            lemma_same_column(rows, others, 1, x);
        }
        if column(others, 1).contains(x) {
            lemma_same_column(others, rows, 1, x);
        }
    }
    law_one_sorted_set(column(rows, 0), models, models2);
    law_one_sorted_set(column(rows, 1), engines, engines2);
    assert forall|m: int| 0 <= m < models.len() implies #[trigger] new_rows[m] == other_rows[m] by {
        assert forall|e: int| 0 <= e < engines.len() implies #[trigger] new_rows[m][e + 1]
            == other_rows[m][e + 1] by {
            lemma_same_cell(headers, others, rows, models[m], engines[e]);
        }
        assert forall|k: int| 0 <= k < new_rows[m].len() implies new_rows[m][k]
            == other_rows[m][k] by {
            if k > 0 {
                assert(new_rows[m][(k - 1) + 1] == other_rows[m][(k - 1) + 1]);
            }
        }
        assert(new_rows[m] =~= other_rows[m]);
    }
    assert(new_rows =~= other_rows);
}

fn find_row(rows: &Vec<Vec<String>>, model: &str, engine: &str) -> (r: Option<usize>)
    requires
        forall|i: int| 0 <= i < rows@.len() ==> (#[trigger] rows@[i])@.len() >= 2,
    ensures
        r is None ==> row_of(grid(rows@), model@, engine@) is None,
        r matches Some(i) ==> i < rows@.len() && row_of(grid(rows@), model@, engine@) == Some(
            i as int,
        ),
{
    let ghost g = grid(rows@);
    let mut i: usize = rows.len();
    assert(g.take(g.len() as int) =~= g);
    while i > 0
        invariant
            i <= rows@.len(),
            g == grid(rows@),
            forall|i: int| 0 <= i < rows@.len() ==> (#[trigger] rows@[i])@.len() >= 2,
            row_of(g, model@, engine@) == row_of(g.take(i as int), model@, engine@),
        decreases i,
    {
        assert(g.take(i as int).drop_last() =~= g.take(i - 1));
        assert(g.take(i as int).last() == contents(rows@[i - 1]@));
        let row = &rows[i - 1];
        if same(row[0].as_str(), model) && same(row[1].as_str(), engine) {
            return Some(i - 1);
        }
        i = i - 1;
    }
    None
}

fn pack(headers: &Vec<String>, row: &Vec<String>) -> (s: String)
    requires
        headers@.len() >= 2,
        row@.len() >= 2,
    ensures
        s@ == packed(contents(headers@), contents(row@)),
{
    let ghost h = contents(headers@);
    let ghost c = contents(row@);
    let n: usize = if row.len() <= headers.len() {
        row.len() - 2
    } else {
        headers.len() - 2
    };
    let mut parts: Vec<String> = Vec::new();
    let mut i: usize = 0;
    while i < n
        invariant
            i <= n <= usize::MAX - 2,
            n + 2 <= row@.len(),
            n + 2 <= headers@.len(),
            h == contents(headers@),
            c == contents(row@),
            parts@.len() == i,
            forall|k: int| 0 <= k < i ==> (#[trigger] parts@[k])@ == labelled(h[k + 2], c[k + 2]),
        decreases n - i,
    {
        parts.push(label_value(headers[i + 2].as_str(), row[i + 2].as_str()));
        i = i + 1;
    }
    assert(contents(parts@) =~= Seq::new(n as nat, |i: int| labelled(h[i + 2], c[i + 2])));
    join(&parts, " \u{b7} ")
}

fn column_of(rows: &Vec<Vec<String>>, at: usize) -> (r: Vec<String>)
    requires
        at < 2,
        forall|i: int| 0 <= i < rows@.len() ==> (#[trigger] rows@[i])@.len() >= 2,
    ensures
        contents(r@) == column(grid(rows@), at as int),
{
    let mut r: Vec<String> = Vec::new();
    let mut i: usize = 0;
    while i < rows.len()
        invariant
            at < 2,
            i <= rows@.len(),
            forall|i: int| 0 <= i < rows@.len() ==> (#[trigger] rows@[i])@.len() >= 2,
            r@.len() == i,
            forall|k: int| 0 <= k < i ==> (#[trigger] r@[k])@ == grid(rows@)[k][at as int],
        decreases rows@.len() - i,
    {
        r.push(rows[i][at].clone());
        i = i + 1;
    }
    assert(contents(r@) =~= column(grid(rows@), at as int));
    r
}

/// Turns a table whose rows start with a model and an engine: one row per
/// model, one column per engine, both in order.
pub fn pivot_engine_columns(headers: &Vec<String>, rows: &Vec<Vec<String>>) -> (r: (
    Vec<String>,
    Vec<Vec<String>>,
))
    requires
        headers@.len() >= 2,
        forall|i: int| 0 <= i < rows@.len() ==> (#[trigger] rows@[i])@.len() >= 2,
    ensures
        is_pivot(contents(headers@), grid(rows@), contents(r.0@), grid(r.1@)),
{
    let ghost h = contents(headers@);
    let ghost g = grid(rows@);
    let models = sorted_set(&column_of(rows, 0));
    let engines = sorted_set(&column_of(rows, 1));
    let ghost ms = contents(models@);
    let ghost es = contents(engines@);
    let mut new_headers: Vec<String> = Vec::new();
    new_headers.push(headers[0].clone());
    let mut i: usize = 0;
    while i < engines.len()
        invariant
            i <= engines@.len(),
            es == contents(engines@),
            h == contents(headers@),
            headers@.len() >= 2,
            contents(new_headers@) =~= seq![h[0]] + es.take(i as int),
        decreases engines@.len() - i,
    {
        let ghost was = contents(new_headers@);
        new_headers.push(engines[i].clone());
        assert(contents(new_headers@) =~= was.push(es[i as int]));
        assert(es.take(i + 1) =~= es.take(i as int).push(es[i as int]));
        i = i + 1;
    }
    assert(es.take(es.len() as int) =~= es);
    let mut new_rows: Vec<Vec<String>> = Vec::new();
    let mut m: usize = 0;
    while m < models.len()
        invariant
            m <= models@.len(),
            ms == contents(models@),
            es == contents(engines@),
            h == contents(headers@),
            g == grid(rows@),
            headers@.len() >= 2,
            forall|i: int| 0 <= i < rows@.len() ==> (#[trigger] rows@[i])@.len() >= 2,
            new_rows@.len() == m,
            forall|k: int|
                0 <= k < m ==> contents((#[trigger] new_rows@[k])@) == seq![ms[k]] + Seq::new(
                    es.len(),
                    |e: int| pivot_cell(h, g, ms[k], es[e]),
                ),
        decreases models@.len() - m,
    {
        let mut row: Vec<String> = Vec::new();
        row.push(models[m].clone());
        let mut e: usize = 0;
        while e < engines.len()
            invariant
                e <= engines@.len(),
                m < models@.len(),
                ms == contents(models@),
                es == contents(engines@),
                h == contents(headers@),
                g == grid(rows@),
                headers@.len() >= 2,
                forall|i: int| 0 <= i < rows@.len() ==> (#[trigger] rows@[i])@.len() >= 2,
                row@.len() == e + 1,
                row@[0]@ == ms[m as int],
                forall|k: int|
                    0 <= k < e ==> (#[trigger] row@[k + 1])@ == pivot_cell(
                        h,
                        g,
                        ms[m as int],
                        es[k],
                    ),
            decreases engines@.len() - e,
        {
            let cell = match find_row(rows, models[m].as_str(), engines[e].as_str()) {
                Some(i) => pack(headers, &rows[i]),
                None => "-".to_owned(),
            };
            row.push(cell);
            e = e + 1;
        }
        proof {
            let want = seq![ms[m as int]] + Seq::new(
                es.len(),
                |e: int| pivot_cell(h, g, ms[m as int], es[e]),
            );
            assert forall|k: int| 0 <= k < want.len() implies contents(row@)[k] == want[k] by {
                if k > 0 {
                    assert(row@[(k - 1) + 1]@ == pivot_cell(h, g, ms[m as int], es[k - 1]));
                }
            }
            assert(contents(row@) =~= want);
        }
        new_rows.push(row);
        m = m + 1;
    }
    proof {
        assert(grid(new_rows@) =~= Seq::new(
            ms.len(),
            |m: int|
                seq![ms[m]] + Seq::new(es.len(), |e: int| pivot_cell(h, g, ms[m], es[e])),
        ));
        assert(is_sorted_set(column(g, 0), ms) && is_sorted_set(column(g, 1), es));
    }
    (new_headers, new_rows)
}

// ---------------------------------------------------------------------------
// What the answers are
// ---------------------------------------------------------------------------

/// A repeated character is that character at every place.
pub proof fn law_repeats_fill_every_place(c: char, n: usize, s: String)
    requires
        call_ensures(repeat, (c, n), s),
    ensures
        s@.len() == n,
        forall|i: int| 0 <= i < n ==> s@[i] == c,
{
}

/// Joining nothing gives nothing, joining one text gives the text, and one text more
/// stands behind a separator at the end.
pub proof fn law_joining_goes_on(
    parts: &Vec<String>,
    more: &Vec<String>,
    sep: &str,
    s: String,
    t: String,
)
    requires
        call_ensures(join, (parts, sep), s),
        call_ensures(join, (more, sep), t),
        more@.len() == parts@.len() + 1,
        forall|i: int| 0 <= i < parts@.len() ==> (#[trigger] more@[i])@ == parts@[i]@,
    ensures
        parts@.len() == 0 ==> s@.len() == 0 && t@ == more@[0]@,
        parts@.len() > 0 ==> t@ == s@ + sep@ + more@.last()@,
{
    let (a, b) = (contents(parts@), contents(more@));
    assert(b.drop_last() =~= a);
    assert(b.last() == more@.last()@);
    assert(b[0] == more@[0]@);
}

/// A duration is shown to the nearest second, in its two largest units, the smaller of
/// which fills two places.
pub proof fn law_durations_in_two_units(
    nanos: u128,
    text: String,
    h: nat,
    m: u64,
    s: u64,
    mm: String,
    ss: String,
)
    requires
        call_ensures(compact_duration, (nanos,), text),
        call_ensures(two_digit_text, (m,), mm),
        call_ensures(two_digit_text, (s,), ss),
        m < 60,
        s < 60,
        h * 3600 + m * 60 + s <= u64::MAX,
        (h * 3600 + m * 60 + s) * 1_000_000_000 <= nanos + 500_000_000,
        nanos + 500_000_000 < (h * 3600 + m * 60 + s + 1) * 1_000_000_000,
    ensures
        h > 0 ==> text@ == decimal(h) + "h"@ + mm@ + "m"@,
        h == 0 && m > 0 ==> text@ == decimal(m as nat) + "m"@ + ss@ + "s"@,
        h == 0 && m == 0 ==> text@ == decimal(s as nat) + "s"@,
{
    let seconds = (h * 3600 + m * 60 + s) as nat;
    assert(rounded_seconds(nanos as nat) == seconds);
    assert(capped_seconds(nanos as nat) == seconds);
    assert(seconds / 3600 == h) by (nonlinear_arith)
        requires
            seconds == h * 3600 + m * 60 + s,
            m < 60,
            s < 60,
    ;
    assert(seconds % 3600 == m * 60 + s) by (nonlinear_arith)
        requires
            seconds == h * 3600 + m * 60 + s,
            m < 60,
            s < 60,
    ;
    assert((m * 60 + s) / 60 == m) by (nonlinear_arith)
        requires
            m < 60,
            s < 60,
    ;
    if h == 0 && m > 0 {
        assert(seconds / 60 == m);
        assert(seconds % 60 == s);
    }
}

/// Longer durations than can be counted in seconds are all shown alike.
pub proof fn law_durations_have_a_longest(a: u128, b: u128, s: String, t: String)
    requires
        call_ensures(compact_duration, (a,), s),
        call_ensures(compact_duration, (b,), t),
        a >= u64::MAX * 1_000_000_000,
        b >= u64::MAX * 1_000_000_000,
    ensures
        s@ == t@,
{
    assert(rounded_seconds(a as nat) >= u64::MAX);
    assert(rounded_seconds(b as nat) >= u64::MAX);
}

/// Progress is a bar of 28 places, as much of it filled as is done, what is done and
/// what there is to do, the time it took, and the time that the rest takes at the same
/// pace.
pub proof fn law_progress_is_in_proportion(
    done: usize,
    total: usize,
    elapsed: u64,
    line: String,
    filled: nat,
    left: u128,
    spent: String,
    rest: String,
)
    requires
        call_ensures(progress_line, (done, total, elapsed), line),
        0 < done <= total,
        filled * total <= 28 * done,
        28 * done < (filled + 1) * total,
        left * done <= elapsed * (total - done),
        elapsed * (total - done) < (left + 1) * done,
        call_ensures(compact_duration, (elapsed as u128,), spent),
        call_ensures(compact_duration, (left,), rest),
    ensures
        filled <= 28,
        line@ == "["@ + Seq::new(filled, |i: int| '#') + Seq::new((28 - filled) as nat, |i: int| '-')
            + "] "@ + decimal(done as nat) + "/"@ + decimal(total as nat) + " cells  elapsed "@
            + spent@ + "  eta "@ + rest@,
{
    let (d, t) = (done as int, total as int);
    let q = 28 * d / t;
    lemma_quotient(28 * d, t, filled as int);
    assert(filled == q);
    assert(filled <= 28) by (nonlinear_arith)
        requires
            filled * t <= 28 * d,
            0 < d <= t,
    ;
    assert(bar_filled(done as nat, total as nat) == filled);
    if done < total {
        lemma_quotient(elapsed * (t - d), d, left as int);
        assert(remaining_nanos(done as nat, total as nat, elapsed as nat) == left);
    } else {
        assert(elapsed * (t - d) == 0) by (nonlinear_arith)
            requires
                t == d,
        ;
        assert(left == 0) by (nonlinear_arith)
            requires
                left * d <= 0,
                d > 0,
                left >= 0,
        ;
    }
    assert(repeated('#', filled) =~= Seq::new(filled, |i: int| '#'));
    assert(repeated('-', (28 - filled) as nat) =~= Seq::new((28 - filled) as nat, |i: int| '-'));
}

proof fn lemma_quotient(a: int, b: int, q: int)
    requires
        b > 0,
        q * b <= a,
        a < (q + 1) * b,
    ensures
        a / b == q,
{
    assert(0 <= a - q * b < b) by (nonlinear_arith)
        requires
            q * b <= a,
            a < (q + 1) * b,
    ;
    vstd::arithmetic::div_mod::lemma_fundamental_div_mod_converse(a, b, q, a - q * b);
}

/// Before anything is done the bar is empty and nothing is known of the rest; where
/// more is done than there was to do, the bar is full and nothing is left; and where
/// there is nothing to do it is empty.
pub proof fn law_progress_at_the_ends(
    done: usize,
    total: usize,
    elapsed: u64,
    line: String,
    spent: String,
)
    requires
        call_ensures(progress_line, (done, total, elapsed), line),
        call_ensures(compact_duration, (elapsed as u128,), spent),
    ensures
        ({
            let counts = "] "@ + decimal(done as nat) + "/"@ + decimal(total as nat)
                + " cells  elapsed "@ + spent@ + "  eta "@;
            &&& done == 0 ==> line@ =~= "["@ + Seq::new(28, |i: int| '-') + counts + "calculating"@
            &&& done > total > 0 ==> line@ =~= "["@ + Seq::new(28, |i: int| '#') + counts + "0s"@
            &&& done > 0 && total == 0 ==> line@ =~= "["@ + Seq::new(28, |i: int| '-') + counts
                + "0s"@
        }),
{
    let none = Seq::<char>::empty();
    assert(repeated('#', 0) =~= none);
    assert(repeated('-', 0) =~= none);
    assert(repeated('#', 28) =~= Seq::new(28, |i: int| '#'));
    assert(repeated('-', 28) =~= Seq::new(28, |i: int| '-'));
    if done == 0 {
        if total > 0 {
            assert(0int / total as int == 0) by (nonlinear_arith)
                requires
                    total > 0,
            ;
        }
        assert(bar_filled(0, total as nat) == 0);
    } else if done > total {
        if total > 0 {
            assert(28 * total as int / total as int == 28) by (nonlinear_arith)
                requires
                    total > 0,
            ;
            assert(bar_filled(done as nat, total as nat) == 28);
        }
        reveal_strlit("0s");
        reveal_strlit("s");
        assert(capped_seconds(0) == 0);
        assert(decimal(0) + "s"@ =~= "0s"@);
    }
}

/// An efficiency is its number of percent.
pub proof fn law_efficiency_is_in_percent(percent: u64, s: String)
    requires
        call_ensures(format_scaling_efficiency, (percent,), s),
    ensures
        s@ == decimal(percent as nat) + "% observed"@,
{
}

/// A comparison is shown with how many cells it stands on and of how many; where it
/// stands on none, no value is.
pub proof fn law_coverage_is_told(
    value: Option<&str>,
    comparable: usize,
    expected: usize,
    s: String,
)
    requires
        call_ensures(coverage_text, (value, comparable, expected), s),
    ensures
        value is Some ==> s@ == "\u{d7}"@ + value->0@ + " on "@ + decimal(comparable as nat) + "/"@
            + decimal(expected as nat) + " comparable"@,
        value is None ==> s@ == "0/"@ + decimal(expected as nat) + " comparable"@,
{
}

/// Whether `w` is as wide as the widest cell of column `i`, and no wider.
pub open spec fn is_width(headers: Seq<String>, rows: Seq<Vec<String>>, i: int, w: nat) -> bool {
    &&& encode_utf8(headers[i]@).len() <= w
    &&& forall|k: int|
        0 <= k < rows.len() && i < (#[trigger] rows[k])@.len() ==> encode_utf8(rows[k]@[i]@).len()
            <= w
    &&& encode_utf8(headers[i]@).len() == w || exists|k: int|
        0 <= k < rows.len() && i < (#[trigger] rows[k])@.len() && encode_utf8(
            rows[k]@[i]@,
        ).len() == w
}

proof fn lemma_width(headers: Seq<Seq<char>>, rows: Seq<Seq<Seq<char>>>, i: int)
    ensures
        byte_count(headers[i]) <= column_width(headers, rows, i),
        forall|k: int|
            0 <= k < rows.len() && i < (#[trigger] rows[k]).len() ==> byte_count(rows[k][i])
                <= column_width(headers, rows, i),
        byte_count(headers[i]) == column_width(headers, rows, i) || exists|k: int|
            0 <= k < rows.len() && i < (#[trigger] rows[k]).len() && byte_count(rows[k][i])
                == column_width(headers, rows, i),
    decreases rows.len(),
{
    if rows.len() > 0 {
        let less = rows.drop_last();
        lemma_width(headers, less, i);
        let w = column_width(headers, rows, i);
        assert forall|k: int| 0 <= k < rows.len() && i < (#[trigger] rows[k]).len() implies
            byte_count(rows[k][i]) <= w by {
            if k < less.len() {
                assert(less[k] == rows[k]);
            }
        }
        if i < rows.last().len() && byte_count(rows.last()[i]) == w {
            assert(byte_count(rows[rows.len() - 1][i]) == w);
        } else if byte_count(headers[i]) != w {
            let k = choose|k: int|
                0 <= k < less.len() && i < (#[trigger] less[k]).len() && byte_count(less[k][i])
                    == column_width(headers, less, i);
            assert(rows[k] == less[k]);
        }
    }
}

proof fn lemma_is_width(headers: Seq<String>, rows: Seq<Vec<String>>, i: int, w: nat)
    requires
        0 <= i < headers.len(),
        is_width(headers, rows, i, w),
    ensures
        w == column_width(contents(headers), grid(rows), i),
{
    let (h, g) = (contents(headers), grid(rows));
    let actual = column_width(h, g, i);
    lemma_width(h, g, i);
    assert(h[i] == headers[i]@);
    assert forall|k: int| 0 <= k < rows.len() && i < (#[trigger] rows[k])@.len() implies g[k].len()
        == rows[k]@.len() && g[k][i] == rows[k]@[i]@ by {}
    if byte_count(h[i]) != actual {
        let k = choose|k: int|
            0 <= k < g.len() && i < (#[trigger] g[k]).len() && byte_count(g[k][i]) == actual;
        assert(i < rows[k]@.len());
    }
    if byte_count(h[i]) != w {
        let k = choose|k: int|
            0 <= k < rows.len() && i < (#[trigger] rows[k])@.len() && encode_utf8(
                rows[k]@[i]@,
            ).len() == w;
        assert(i < g[k].len());
    }
}

/// Whether `s` is a text brought to a width with spaces on its left.
pub open spec fn fills_left(text: Seq<char>, w: nat, s: Seq<char>) -> bool {
    let n = s.len() - text.len();
    &&& n >= 0 && s.skip(n) == text
    &&& forall|k: int| 0 <= k < n ==> s[k] == ' '
    &&& s.len() == w || (text.len() > w && n == 0)
}

/// Whether `s` is a text brought to a width with spaces on its right.
pub open spec fn fills_right(text: Seq<char>, w: nat, s: Seq<char>) -> bool {
    let n = text.len();
    &&& n <= s.len() && s.take(n as int) == text
    &&& forall|k: int| n <= k < s.len() ==> s[k] == ' '
    &&& s.len() == w || (n > w && s.len() == n)
}

/// Whether `s` is how cell `i` of a row stands in its line: values are moved to the
/// right end of their column, labels to the left end, and the last cell of a row is left
/// as it is, unless it is a value and the last column is aligned too.
pub open spec fn stands_as(
    row: Seq<String>,
    i: int,
    w: nat,
    labels: nat,
    align_last: bool,
    s: Seq<char>,
) -> bool {
    let last = i == row.len() - 1;
    &&& i >= labels && (!last || align_last) ==> fills_left(row[i]@, w, s)
    &&& i < labels && !last ==> fills_right(row[i]@, w, s)
    &&& last && (i < labels || !align_last) ==> s == row[i]@
}

proof fn lemma_stands_as(
    row: Seq<String>,
    widths: Seq<nat>,
    labels: nat,
    align_last: bool,
    i: int,
    s: Seq<char>,
)
    requires
        0 <= i < row.len(),
        i < widths.len(),
        stands_as(row, i, widths[i], labels, align_last, s),
    ensures
        s == aligned(contents(row), widths, labels, align_last, i),
{
    let text = row[i]@;
    let space = gap(text, widths[i]);
    assert(contents(row)[i] == text);
    let want = aligned(contents(row), widths, labels, align_last, i);
    let last = i == row.len() - 1;
    if i >= labels && (!last || align_last) {
        assert(want == space + text);
        let n = s.len() - text.len();
        assert(n == space.len());
        assert forall|k: int| 0 <= k < s.len() implies s[k] == want[k] by {
            if k >= n {
                assert(s.skip(n)[k - n] == s[k]);
            }
        }
        assert(s =~= want);
    } else if i < labels && !last {
        assert(want == text + space);
        assert forall|k: int| 0 <= k < s.len() implies s[k] == want[k] by {
            if k < text.len() {
                assert(s.take(text.len() as int)[k] == s[k]);
            }
        }
        assert(s =~= want);
    }
}

/// A table is its headers, a rule and its rows, one line each. The cells of a line stand
/// two spaces apart, each brought to the width of its column.
pub proof fn law_table_columns_line_up(
    headers: &Vec<String>,
    rows: &Vec<Vec<String>>,
    labels: usize,
    align_last: bool,
    out: Vec<String>,
    widths: Seq<nat>,
    cells: &Vec<String>,
    gap_of_two: &str,
    line: String,
    k: int,
)
    requires
        call_ensures(table_lines, (headers, rows, labels, align_last), out),
        widths.len() == headers@.len(),
        forall|i: int|
            0 <= i < widths.len() ==> is_width(headers@, rows@, i, #[trigger] widths[i]),
        -1 <= k < rows@.len(),
        ({
            let row = if k < 0 {
                headers@
            } else {
                rows@[k]@
            };
            &&& cells@.len() == if row.len() <= widths.len() {
                row.len()
            } else {
                widths.len()
            }
            &&& forall|i: int|
                0 <= i < cells@.len() ==> stands_as(
                    row,
                    i,
                    widths[i],
                    labels as nat,
                    align_last,
                    (#[trigger] cells@[i])@,
                )
        }),
        gap_of_two@ == "  "@,
        call_ensures(join, (cells, gap_of_two), line),
    ensures
        out@.len() == rows@.len() + 2,
        k < 0 ==> out@[0]@ == line@,
        k >= 0 ==> out@[k + 2]@ == line@,
{
    let (h, g) = (contents(headers@), grid(rows@));
    let actual = column_widths(h, g);
    assert forall|i: int| 0 <= i < widths.len() implies #[trigger] widths[i] == actual[i] by {
        lemma_is_width(headers@, rows@, i, widths[i]);
    }
    assert(widths =~= actual);
    let want = table(h, g, labels as nat, align_last);
    assert(contents(out@).len() == want.len());
    let row = if k < 0 {
        headers@
    } else {
        rows@[k]@
    };
    let c = contents(row);
    let parts = Seq::new(cells@.len(), |i: int| aligned(c, widths, labels as nat, align_last, i));
    assert forall|i: int| 0 <= i < cells@.len() implies #[trigger] contents(cells@)[i] == parts[i] by {
        lemma_stands_as(row, widths, labels as nat, align_last, i, cells@[i]@);
    }
    assert(contents(cells@) =~= parts);
    assert(line@ == table_line(c, widths, labels as nat, align_last));
    if k < 0 {
        assert(contents(out@)[0] == out@[0]@);
        assert(want[0] == table_line(h, widths, labels as nat, align_last));
    } else {
        assert(contents(out@)[k + 2] == out@[k + 2]@);
        assert(g[k] == c);
        assert(want[k + 2] == table_line(g[k], widths, labels as nat, align_last));
    }
}

/// Under the headers every column is ruled off over its width.
pub proof fn law_table_is_ruled(
    headers: &Vec<String>,
    rows: &Vec<Vec<String>>,
    labels: usize,
    align_last: bool,
    out: Vec<String>,
    widths: Seq<nat>,
    rules: &Vec<String>,
    gap_of_two: &str,
    line: String,
)
    requires
        call_ensures(table_lines, (headers, rows, labels, align_last), out),
        widths.len() == headers@.len() == rules@.len(),
        forall|i: int|
            0 <= i < widths.len() ==> is_width(headers@, rows@, i, #[trigger] widths[i]),
        forall|i: int| 0 <= i < rules@.len() ==> (#[trigger] rules@[i])@.len() == widths[i],
        forall|i: int, j: int|
            0 <= i < rules@.len() && 0 <= j < rules@[i]@.len() ==> #[trigger] rules@[i]@[j] == '-',
        gap_of_two@ == "  "@,
        call_ensures(join, (rules, gap_of_two), line),
    ensures
        out@.len() >= 2,
        out@[1]@ == line@,
{
    let (h, g) = (contents(headers@), grid(rows@));
    let actual = column_widths(h, g);
    assert forall|i: int| 0 <= i < widths.len() implies #[trigger] widths[i] == actual[i] by {
        lemma_is_width(headers@, rows@, i, widths[i]);
    }
    assert(widths =~= actual);
    let parts = widths.map_values(|w: nat| repeated('-', w));
    assert forall|i: int| 0 <= i < rules@.len() implies #[trigger] contents(rules@)[i] == parts[i] by {
        assert(rules@[i]@.len() == widths[i]);
        assert(rules@[i]@ =~= repeated('-', widths[i]));
    }
    assert(contents(rules@) =~= parts);
    let want = table(h, g, labels as nat, align_last);
    assert(contents(out@).len() == want.len());
    assert(want[1] == rule_line(widths));
    assert(contents(out@)[1] == out@[1]@);
}

/// A sorted set holds the texts of its list and no others, none twice, each before the
/// greater ones.
pub proof fn law_sorted_sets_hold_the_same_texts(list: &Vec<String>, r: Vec<String>, x: Seq<char>)
    requires
        call_ensures(sorted_set, (list,), r),
    ensures
        (exists|i: int| 0 <= i < r@.len() && (#[trigger] r@[i])@ == x) <==> (exists|i: int|
            0 <= i < list@.len() && (#[trigger] list@[i])@ == x),
        forall|i: int, j: int|
            0 <= i < j < r@.len() ==> text_at_most((#[trigger] r@[i])@, (#[trigger] r@[j])@)
                && r@[i]@ != r@[j]@,
{
    let (a, b) = (contents(list@), contents(r@));
    assert(b.contains(x) <==> a.contains(x));
    if exists|i: int| 0 <= i < r@.len() && (#[trigger] r@[i])@ == x {
        let i = choose|i: int| 0 <= i < r@.len() && (#[trigger] r@[i])@ == x;
        assert(b[i] == x);
        let j = choose|j: int| 0 <= j < a.len() && a[j] == x;
        assert(list@[j]@ == x);
    }
    if exists|i: int| 0 <= i < list@.len() && (#[trigger] list@[i])@ == x {
        let i = choose|i: int| 0 <= i < list@.len() && (#[trigger] list@[i])@ == x;
        assert(a[i] == x);
        let j = choose|j: int| 0 <= j < b.len() && b[j] == x;
        assert(r@[j]@ == x);
    }
    assert forall|i: int, j: int| 0 <= i < j < r@.len() implies text_at_most(
        (#[trigger] r@[i])@,
        (#[trigger] r@[j])@,
    ) && r@[i]@ != r@[j]@ by {
        assert(text_at_most(b[i], b[j]) && b[i] != b[j]);
    }
}

/// Whether a text stands somewhere in another.
pub open spec fn is_within(whole: Seq<char>, part: Seq<char>) -> bool {
    exists|front: Seq<char>, back: Seq<char>| whole == #[trigger] (front + part + back)
}

proof fn lemma_is_within(whole: Seq<char>, part: Seq<char>)
    ensures
        occurs(whole, part) <==> is_within(whole, part),
{
    if occurs(whole, part) {
        let i = choose|i: int| #[trigger] stands_at(whole, part, i);
        let front = whole.take(i);
        let back = whole.skip(i + part.len());
        assert(front + part + back =~= whole);
    }
    if is_within(whole, part) {
        let (front, back) = choose|front: Seq<char>, back: Seq<char>|
            whole == #[trigger] (front + part + back);
        let i = front.len() as int;
        assert(whole.subrange(i, i + part.len()) =~= part);
        assert(stands_at(whole, part, i));
    }
}

/// A value keeps its text, and gets the unit that its header names.
pub proof fn law_values_get_the_unit_of_their_header(header: &str, value: &str, s: String)
    requires
        call_ensures(label_value, (header, value), s),
    ensures
        ({
            let h = header@;
            let v = value@;
            let plain = h == "corpora"@ || h == "status"@ || (h.len() >= 3 && h.take(3) == "vs "@);
            let speed = is_within(h, "MB/s"@);
            let time = is_within(h, "ns/token"@) || is_within(h, "ns/B"@);
            let wait = (is_within(h, "p50"@) || is_within(h, "p99"@)) && !is_within(h, " vs "@);
            let count = is_within(h, "samples"@) || is_within(h, "efficiency"@);
            &&& plain ==> s@ == v
            &&& !plain && is_within(h, "1T MB/s"@) ==> s@ == "1T "@ + v + " MB/s"@
            &&& !plain && !is_within(h, "1T MB/s"@) && is_within(h, "max MB/s"@) ==> s@ == "max "@
                + v + " MB/s"@
            &&& !plain && !is_within(h, "1T MB/s"@) && !is_within(h, "max MB/s"@) && speed ==> s@
                == v + " MB/s"@
            &&& !plain && !speed && is_within(h, "ns/token"@) ==> s@ == v + " ns/token"@
            &&& !plain && !speed && !is_within(h, "ns/token"@) && time ==> s@ == v + " ns/B"@
            &&& !plain && !speed && !time && wait && is_within(h, "p50"@) ==> s@ == "p50 "@ + v
                + " us"@
            &&& !plain && !speed && !time && wait && !is_within(h, "p50"@) ==> s@ == "p99 "@ + v
                + " us"@
            &&& !plain && !speed && !time && !wait && is_within(h, "samples"@) ==> s@ == v
                + " samples"@
            &&& !plain && !speed && !time && !wait && !is_within(h, "samples"@) && count && is_within(
                v,
                "%"@,
            ) ==> s@ == v + " efficiency"@
            &&& !plain && !speed && !time && !wait && !is_within(h, "samples"@) && count
                && !is_within(v, "%"@) ==> s@ == v + "% efficiency"@
            &&& h == "tokens"@ ==> s@ == v + " tokens"@
            &&& !plain && !speed && !time && !wait && !count && h != "tokens"@ ==> s@ == v
        }),
{
    let h = header@;
    lemma_is_within(h, "1T MB/s"@);
    lemma_is_within(h, "max MB/s"@);
    lemma_is_within(h, "MB/s"@);
    lemma_is_within(h, "ns/token"@);
    lemma_is_within(h, "ns/B"@);
    lemma_is_within(h, "p50"@);
    lemma_is_within(h, "p99"@);
    lemma_is_within(h, " vs "@);
    lemma_is_within(h, "samples"@);
    lemma_is_within(h, "efficiency"@);
    lemma_is_within(value@, "%"@);
    reveal_strlit("vs ");
    if h.len() >= 3 {
        assert(h.take(3) == h.subrange(0, 3));
    }
    lemma_speeds(h);
    lemma_tokens(h);
}

/// A header that names one of the two ways to count a speed names a speed.
proof fn lemma_speeds(h: Seq<char>)
    ensures
        occurs(h, "1T MB/s"@) ==> occurs(h, "MB/s"@),
        occurs(h, "max MB/s"@) ==> occurs(h, "MB/s"@),
{
    reveal_strlit("1T MB/s");
    reveal_strlit("max MB/s");
    reveal_strlit("MB/s");
    if occurs(h, "1T MB/s"@) {
        let i = choose|i: int| #[trigger] stands_at(h, "1T MB/s"@, i);
        assert forall|k: int| 0 <= k < 4 implies h[i + 3 + k] == "MB/s"@[k] by {
            assert(h.subrange(i, i + 7)[3 + k] == h[i + 3 + k]);
        }
        assert(h.subrange(i + 3, i + 7) =~= "MB/s"@);
        assert(stands_at(h, "MB/s"@, i + 3));
    }
    if occurs(h, "max MB/s"@) {
        let i = choose|i: int| #[trigger] stands_at(h, "max MB/s"@, i);
        assert forall|k: int| 0 <= k < 4 implies h[i + 4 + k] == "MB/s"@[k] by {
            assert(h.subrange(i, i + 8)[4 + k] == h[i + 4 + k]);
        }
        assert(h.subrange(i + 4, i + 8) =~= "MB/s"@);
        assert(stands_at(h, "MB/s"@, i + 4));
    }
}

/// The header of token counts names no other unit.
proof fn lemma_tokens(h: Seq<char>)
    ensures
        h == "tokens"@ ==> h != "corpora"@ && h != "status"@ && !stands_at(h, "vs "@, 0)
            && !occurs(h, "1T MB/s"@) && !occurs(h, "max MB/s"@) && !occurs(h, "MB/s"@) && !occurs(
            h,
            "ns/token"@,
        ) && !occurs(h, "ns/B"@) && !occurs(h, "p50"@) && !occurs(h, "p99"@) && !occurs(
            h,
            "samples"@,
        ) && !occurs(h, "efficiency"@),
{
    if h == "tokens"@ {
        reveal_strlit("tokens");
        reveal_strlit("corpora");
        reveal_strlit("status");
        reveal_strlit("vs ");
        assert(h[0] == 't' && "status"@[0] == 's');
        if stands_at(h, "vs "@, 0) {
            assert(h.subrange(0, 3)[0] == h[0]);
        }
        lemma_speeds(h);
        lemma_no_letter(h, "MB/s"@, 0);
        lemma_no_letter(h, "ns/token"@, 2);
        lemma_no_letter(h, "ns/B"@, 2);
        lemma_no_letter(h, "p50"@, 0);
        lemma_no_letter(h, "p99"@, 0);
        lemma_no_letter(h, "samples"@, 1);
        lemma_no_letter(h, "efficiency"@, 1);
        reveal_strlit("MB/s");
        reveal_strlit("ns/token");
        reveal_strlit("ns/B");
        reveal_strlit("p50");
        reveal_strlit("p99");
        reveal_strlit("samples");
        reveal_strlit("efficiency");
    }
}

/// A text that has a letter which another lacks does not stand in it.
proof fn lemma_no_letter(whole: Seq<char>, part: Seq<char>, at: int)
    requires
        0 <= at,
    ensures
        at < part.len() && !whole.contains(part[at]) ==> !occurs(whole, part),
{
    if at < part.len() && occurs(whole, part) {
        let i = choose|i: int| #[trigger] stands_at(whole, part, i);
        assert(whole.subrange(i, i + part.len())[at] == whole[i + at]);
        assert(whole.contains(whole[i + at]));
    }
}

proof fn lemma_last_row(rows: Seq<Seq<Seq<char>>>, model: Seq<char>, engine: Seq<char>, k: int)
    requires
        -1 <= k < rows.len(),
        k >= 0 ==> is_row_of(rows[k], model, engine),
        forall|i: int| k < i < rows.len() ==> !is_row_of(#[trigger] rows[i], model, engine),
    ensures
        k >= 0 ==> row_of(rows, model, engine) == Some(k),
        k < 0 ==> row_of(rows, model, engine) is None,
    decreases rows.len(),
{
    if rows.len() > 0 && k < rows.len() - 1 {
        assert(!is_row_of(rows[rows.len() - 1], model, engine));
        let less = rows.drop_last();
        assert forall|i: int| k < i < less.len() implies !is_row_of(
            #[trigger] less[i],
            model,
            engine,
        ) by {
            assert(less[i] == rows[i]);
        }
        lemma_last_row(less, model, engine, k);
    }
}

/// A turned table has the first of the old headers over its first column and an engine
/// over each other, in order; and a row for each model, in order. Each model and each
/// engine of the old rows is there once, and no other.
pub proof fn law_pivot_has_models_and_engines(
    headers: &Vec<String>,
    rows: &Vec<Vec<String>>,
    r: (Vec<String>, Vec<Vec<String>>),
    names: &Vec<String>,
    models: Vec<String>,
    others: &Vec<String>,
    engines: Vec<String>,
    m: int,
)
    requires
        headers@.len() >= 2,
        forall|i: int| 0 <= i < rows@.len() ==> (#[trigger] rows@[i])@.len() >= 2,
        call_ensures(pivot_engine_columns, (headers, rows), r),
        names@.len() == rows@.len() == others@.len(),
        forall|i: int| 0 <= i < rows@.len() ==> (#[trigger] names@[i])@ == rows@[i]@[0]@,
        forall|i: int| 0 <= i < rows@.len() ==> (#[trigger] others@[i])@ == rows@[i]@[1]@,
        call_ensures(sorted_set, (names,), models),
        call_ensures(sorted_set, (others,), engines),
    ensures
        r.0@.len() == engines@.len() + 1,
        r.0@[0]@ == headers@[0]@,
        forall|e: int| 0 <= e < engines@.len() ==> r.0@[e + 1]@ == (#[trigger] engines@[e])@,
        r.1@.len() == models@.len(),
        0 <= m < models@.len() ==> r.1@[m]@.len() == r.0@.len() && r.1@[m]@[0]@ == models@[m]@,
{
    let (h, g) = (contents(headers@), grid(rows@));
    assert(contents(names@) =~= column(g, 0)) by {
        assert forall|i: int| 0 <= i < rows@.len() implies contents(names@)[i] == column(g, 0)[i] by {
            assert(names@[i]@ == rows@[i]@[0]@);
            assert(g[i] == contents(rows@[i]@));
        }
    }
    assert(contents(others@) =~= column(g, 1)) by {
        assert forall|i: int| 0 <= i < rows@.len() implies contents(others@)[i] == column(g, 1)[i] by {
            assert(others@[i]@ == rows@[i]@[1]@);
            assert(g[i] == contents(rows@[i]@));
        }
    }
    let (ms, es) = choose|ms: Seq<Seq<char>>, es: Seq<Seq<char>>|
        #![trigger is_sorted_set(column(g, 0), ms), is_sorted_set(column(g, 1), es)]
        is_sorted_set(column(g, 0), ms) && is_sorted_set(column(g, 1), es) && contents(r.0@)
            == seq![h[0]] + es && grid(r.1@) == Seq::new(
            ms.len(),
            |m: int|
                seq![ms[m]] + Seq::new(es.len(), |e: int| pivot_cell(h, g, ms[m], es[e])),
        );
    law_one_sorted_set(column(g, 0), ms, contents(models@));
    law_one_sorted_set(column(g, 1), es, contents(engines@));
    assert(contents(r.0@).len() == r.0@.len());
    assert(contents(r.0@)[0] == r.0@[0]@);
    assert forall|e: int| 0 <= e < engines@.len() implies r.0@[e + 1]@ == (
    #[trigger] engines@[e])@ by {
        assert(contents(r.0@)[e + 1] == es[e]);
        assert(contents(engines@)[e] == engines@[e]@);
    }
    assert(grid(r.1@).len() == r.1@.len());
    if 0 <= m < models@.len() {
        let row = grid(r.1@)[m];
        assert(row == contents(r.1@[m]@));
        assert(row.len() == es.len() + 1);
        assert(row.len() == r.1@[m]@.len());
        assert(row[0] == ms[m]);
        assert(row[0] == r.1@[m]@[0]@);
        assert(contents(models@)[m] == models@[m]@);
    }
}

/// A cell of a turned table holds the values of the last of the old rows that has its
/// model and its engine, each value with its unit; and a dash where no row has both.
pub proof fn law_pivot_cells_hold_the_values(
    headers: &Vec<String>,
    rows: &Vec<Vec<String>>,
    r: (Vec<String>, Vec<Vec<String>>),
    m: int,
    e: int,
    k: int,
    units: Seq<&str>,
    values: Seq<&str>,
    parts: &Vec<String>,
    dot: &str,
    cell: String,
)
    requires
        headers@.len() >= 2,
        forall|i: int| 0 <= i < rows@.len() ==> (#[trigger] rows@[i])@.len() >= 2,
        call_ensures(pivot_engine_columns, (headers, rows), r),
        0 <= m < r.1@.len(),
        1 <= e < r.0@.len(),
        -1 <= k < rows@.len(),
        k >= 0 ==> rows@[k]@[0]@ == r.1@[m]@[0]@ && rows@[k]@[1]@ == r.0@[e]@,
        forall|i: int|
            k < i < rows@.len() ==> (#[trigger] rows@[i])@[0]@ != r.1@[m]@[0]@ || rows@[i]@[1]@
                != r.0@[e]@,
        k >= 0 ==> parts@.len() + 2 == (if rows@[k]@.len() <= headers@.len() {
            rows@[k]@.len()
        } else {
            headers@.len()
        }),
        units.len() == parts@.len() == values.len(),
        k >= 0 ==> forall|i: int|
            0 <= i < parts@.len() ==> (#[trigger] units[i])@ == headers@[i + 2]@ && values[i]@
                == rows@[k]@[i + 2]@,
        forall|i: int|
            0 <= i < parts@.len() ==> call_ensures(
                label_value,
                (units[i], values[i]),
                #[trigger] parts@[i],
            ),
        dot@ == " \u{b7} "@,
        call_ensures(join, (parts, dot), cell),
    ensures
        e < r.1@[m]@.len(),
        k >= 0 ==> r.1@[m]@[e]@ == cell@,
        k < 0 ==> r.1@[m]@[e]@ == "-"@,
{
    let (h, g) = (contents(headers@), grid(rows@));
    let (ms, es) = choose|ms: Seq<Seq<char>>, es: Seq<Seq<char>>|
        #![trigger is_sorted_set(column(g, 0), ms), is_sorted_set(column(g, 1), es)]
        is_sorted_set(column(g, 0), ms) && is_sorted_set(column(g, 1), es) && contents(r.0@)
            == seq![h[0]] + es && grid(r.1@) == Seq::new(
            ms.len(),
            |m: int|
                seq![ms[m]] + Seq::new(es.len(), |e: int| pivot_cell(h, g, ms[m], es[e])),
        );
    assert(contents(r.0@).len() == r.0@.len());
    assert(contents(r.0@)[e] == r.0@[e]@);
    assert(contents(r.0@)[e] == es[e - 1]);
    assert(grid(r.1@).len() == r.1@.len());
    let row = grid(r.1@)[m];
    assert(row == contents(r.1@[m]@));
    assert(row.len() == es.len() + 1);
    assert(row.len() == r.1@[m]@.len());
    assert(row[0] == ms[m]);
    assert(row[0] == r.1@[m]@[0]@);
    assert(row[e] == pivot_cell(h, g, ms[m], es[e - 1]));
    assert(row[e] == r.1@[m]@[e]@);
    let (model, engine) = (ms[m], es[e - 1]);
    assert forall|i: int| k < i < g.len() implies !is_row_of(#[trigger] g[i], model, engine) by {
        assert(g[i] == contents(rows@[i]@));
        assert(rows@[i]@.len() >= 2);
        assert(g[i][0] == rows@[i]@[0]@ && g[i][1] == rows@[i]@[1]@);
    }
    if k >= 0 {
        assert(g[k] == contents(rows@[k]@));
        assert(rows@[k]@.len() >= 2);
        assert(g[k][0] == rows@[k]@[0]@ && g[k][1] == rows@[k]@[1]@);
    }
    lemma_last_row(g, model, engine, k);
    if k >= 0 {
        let want = Seq::new(parts@.len(), |i: int| labelled(h[i + 2], g[k][i + 2]));
        assert forall|i: int| 0 <= i < parts@.len() implies #[trigger] contents(parts@)[i]
            == want[i] by {
            assert(units[i]@ == headers@[i + 2]@);
            assert(parts@[i]@ == labelled(units[i]@, values[i]@));
        }
        assert(contents(parts@) =~= want);
    }
}

}
