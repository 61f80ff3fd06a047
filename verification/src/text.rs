//! Text as sequences of characters: the string operations that the rest of the
//! library is stated over, each with its exact result.

use vstd::arithmetic::div_mod::lemma_div_denominator;
use vstd::arithmetic::power::{lemma_pow0, lemma_pow1, lemma_pow_positive, pow};
use vstd::arithmetic::power2::pow2;
use vstd::bits::lemma_u64_shr_is_div;
use vstd::prelude::*;
use vstd::string::StringExecFns;
use vstd::utf8::encode_utf8;

verus! {

/// `String::push` appends one character.
pub assume_specification[ String::push ](s: &mut String, c: char)
    ensures
        final(s)@ == old(s)@.push(c),
;

/// `String::clear` leaves no character.
pub assume_specification[ String::clear ](s: &mut String)
    ensures
        final(s)@ == Seq::<char>::empty(),
;

/// Number of bytes of `s` in UTF-8.
pub open spec fn byte_count(s: Seq<char>) -> nat {
    encode_utf8(s).len()
}

/// `byte_count`, computed.
pub fn byte_len(s: &str) -> (n: usize)
    ensures
        n == byte_count(s@),
{
    s.as_bytes().len()
}

/// Whether two strings hold the same characters.
pub fn same(a: &str, b: &str) -> (r: bool)
    ensures
        r == (a@ == b@),
{
    let x = a.as_bytes();
    let y = b.as_bytes();
    proof {
        vstd::utf8::encode_utf8_decode_utf8(a@);
        vstd::utf8::encode_utf8_decode_utf8(b@);
    }
    if x.len() != y.len() {
        return false;
    }
    let mut i: usize = 0;
    while i < x.len()
        invariant
            i <= x@.len(),
            x@.len() == y@.len(),
            x@ == encode_utf8(a@),
            y@ == encode_utf8(b@),
            forall|j: int| 0 <= j < i ==> x@[j] == y@[j],
        decreases x@.len() - i,
    {
        if x[i] != y[i] {
            return false;
        }
        i = i + 1;
    }
    assert(x@ =~= y@);
    true
}

/// The characters of `s`.
pub fn chars_of(s: &str) -> (v: Vec<char>)
    ensures
        v@ == s@,
{
    let mut v: Vec<char> = Vec::new();
    for c in it: s.chars()
        invariant
            v@ == s@.take(it.index()),
            it.seq() == s@,
    {
        assert(s@.take(it.index() + 1) =~= s@.take(it.index()).push(c));
        v.push(c);
    }
    assert(s@.take(s@.len() as int) =~= s@);
    v
}

/// The string of the characters `v[from..to]`.
pub fn string_of(v: &Vec<char>, from: usize, to: usize) -> (s: String)
    requires
        from <= to <= v@.len(),
    ensures
        s@ == v@.subrange(from as int, to as int),
{
    let mut s = String::new();
    let mut i: usize = from;
    while i < to
        invariant
            from <= i <= to <= v@.len(),
            s@ =~= v@.subrange(from as int, i as int),
        decreases to - i,
    {
        s.push(v[i]);
        i = i + 1;
    }
    s
}

// ---------------------------------------------------------------------------
// Characters as bytes
// ---------------------------------------------------------------------------

/// Number of bytes of one character in UTF-8.
pub open spec fn width(c: char) -> nat {
    if (c as u32) < 0x80 {
        1
    } else if (c as u32) < 0x800 {
        2
    } else if (c as u32) < 0x10000 {
        3
    } else {
        4
    }
}

/// `width`, computed.
pub fn char_width(c: char) -> (n: usize)
    ensures
        n == width(c),
{
    if (c as u32) < 0x80 {
        1
    } else if (c as u32) < 0x800 {
        2
    } else if (c as u32) < 0x10000 {
        3
    } else {
        4
    }
}

/// A text's bytes are those of its first character and those of the rest.
pub proof fn lemma_first_bytes(s: Seq<char>)
    requires
        s.len() > 0,
    ensures
        byte_count(s) == width(s[0]) + byte_count(s.drop_first()),
{
    let u = s[0] as u32;
    vstd::utf8::char_is_scalar(s[0]);
    assert(vstd::utf8::encode_scalar(u).len() == width(s[0]));
}

/// The bytes of two texts put together are the bytes of each.
pub proof fn lemma_bytes_concat(a: Seq<char>, b: Seq<char>)
    ensures
        encode_utf8(a + b) == encode_utf8(a) + encode_utf8(b),
        byte_count(a + b) == byte_count(a) + byte_count(b),
    decreases a.len(),
{
    if a.len() == 0 {
        assert(a + b =~= b);
        assert(encode_utf8(a) + encode_utf8(b) =~= encode_utf8(b));
    } else {
        lemma_bytes_concat(a.drop_first(), b);
        assert((a + b).drop_first() =~= a.drop_first() + b);
        assert(encode_utf8(a + b) =~= encode_utf8(a) + encode_utf8(b));
    }
}

/// A text holds no more characters than bytes, and no byte only where it holds
/// no character.
pub proof fn lemma_text_bytes(s: Seq<char>)
    ensures
        byte_count(s) >= s.len(),
        byte_count(s) == 0 <==> s.len() == 0,
    decreases s.len(),
{
    if s.len() > 0 {
        lemma_first_bytes(s);
        lemma_text_bytes(s.drop_first());
    }
}

/// One more character adds its width.
pub proof fn lemma_bytes_push(s: Seq<char>, c: char)
    ensures
        byte_count(s.push(c)) == byte_count(s) + width(c),
{
    assert(s.push(c) =~= s + seq![c]);
    lemma_bytes_concat(s, seq![c]);
    lemma_first_bytes(seq![c]);
    assert(seq![c].drop_first() =~= Seq::<char>::empty());
}

// ---------------------------------------------------------------------------
// Numbers as text
// ---------------------------------------------------------------------------

/// The decimal digit of value `d`.
pub open spec fn digit(d: int) -> char {
    (48 + d) as char
}

/// `n` in base ten, without leading zeros.
pub open spec fn decimal(n: nat) -> Seq<char>
    decreases n,
{
    if n < 10 {
        seq![digit(n as int)]
    } else {
        decimal(n / 10).push(digit((n % 10) as int))
    }
}

/// `decimal`, computed.
pub fn decimal_text(n: u64) -> (s: String)
    ensures
        s@ == decimal(n as nat),
    decreases n,
{
    let last: u8 = (n % 10) as u8;
    if n < 10 {
        let mut s = String::new();
        s.push((48 + last) as char);
        assert(s@ =~= seq![digit(n as int)]);
        s
    } else {
        let mut s = decimal_text(n / 10);
        s.push((48 + last) as char);
        s
    }
}

/// `decimal` of a `usize`.
pub fn count_text(n: usize) -> (s: String)
    ensures
        s@ == decimal(n as nat),
{
    decimal_text(n as u64)
}

/// `n` in base ten, at least two digits wide.
pub open spec fn two_digits(n: nat) -> Seq<char> {
    if n < 10 {
        seq!['0'] + decimal(n)
    } else {
        decimal(n)
    }
}

/// `two_digits`, computed.
pub fn two_digit_text(n: u64) -> (s: String)
    ensures
        s@ == two_digits(n as nat),
{
    if n < 10 {
        let mut s = String::new();
        s.push('0');
        let d = decimal_text(n);
        s.append(d.as_str());
        assert(s@ =~= seq!['0'] + decimal(n as nat));
        s
    } else {
        decimal_text(n)
    }
}

/// The lower-case hexadecimal digit of value `d`.
pub open spec fn hex_digit(d: u64) -> char {
    if d < 10 {
        (48 + d) as char
    } else {
        (87 + d) as char
    }
}

/// `h` as sixteen lower-case hexadecimal digits, most significant first.
pub open spec fn hex16(h: u64) -> Seq<char> {
    Seq::new(16, |i: int| hex_digit((h >> ((60 - 4 * i) as u64)) & 0xf))
}

/// `hex16`, computed.
pub fn hex16_text(h: u64) -> (s: String)
    ensures
        s@ == hex16(h),
{
    let mut s = String::new();
    let mut i: u64 = 0;
    while i < 16
        invariant
            i <= 16,
            s@ =~= hex16(h).take(i as int),
        decreases 16 - i,
    {
        let shift: u64 = 60 - 4 * i;
        let d: u64 = (h >> shift) & 0xf;
        assert((h >> shift) & 0xf <= 15) by (bit_vector);
        let c: char = if d < 10 { (48 + d as u8) as char } else { (87 + d as u8) as char };
        s.push(c);
        i = i + 1;
    }
    s
}

/// Whether `c` is a decimal digit.
pub open spec fn is_digit(c: char) -> bool {
    '0' <= c <= '9'
}

/// The value of a string of decimal digits; `None` if another character occurs.
pub open spec fn digits_value(s: Seq<char>) -> Option<nat>
    decreases s.len(),
{
    if s.len() == 0 {
        Some(0)
    } else {
        match digits_value(s.drop_last()) {
            Some(v) => if is_digit(s.last()) {
                Some(v * 10 + (s.last() as nat - 48) as nat)
            } else {
                None
            },
            None => None,
        }
    }
}

/// The digits of an unsigned number as written: one leading `+` is allowed.
pub open spec fn unsigned_part(s: Seq<char>) -> Seq<char> {
    if s.len() > 0 && s[0] == '+' {
        s.drop_first()
    } else {
        s
    }
}

/// The value of an unsigned number as written: at least one decimal digit,
/// after an optional `+`.
pub open spec fn number(s: Seq<char>) -> Option<nat> {
    if unsigned_part(s).len() == 0 {
        None
    } else {
        digits_value(unsigned_part(s))
    }
}

/// A number already over a limit stays over it, or stops being one, as more
/// characters follow.
proof fn lemma_digits_grow(s: Seq<char>, i: int, limit: nat)
    requires
        0 <= i <= s.len(),
        digits_value(s.take(i)) matches Some(v) ==> v > limit,
    ensures
        digits_value(s) matches Some(v) ==> v > limit,
    decreases s.len() - i,
{
    if i == s.len() {
        assert(s.take(i) =~= s);
    } else {
        assert(s.take(i + 1).drop_last() =~= s.take(i));
        lemma_digits_grow(s, i + 1, limit);
    }
}

/// Writing a number in base ten and reading it back gives the number.
pub proof fn law_number_of_decimal(n: nat)
    ensures
        number(decimal(n)) == Some(n),
    decreases n,
{
    lemma_decimal_digits(n);
    assert(decimal(n)[0] != '+');
}

proof fn lemma_decimal_digits(n: nat)
    ensures
        digits_value(decimal(n)) == Some(n),
        decimal(n).len() > 0,
        is_digit(decimal(n)[0]),
    decreases n,
{
    if n < 10 {
        assert(decimal(n).drop_last() =~= Seq::<char>::empty());
        assert(digits_value(Seq::<char>::empty()) == Some(0nat));
    } else {
        lemma_decimal_digits(n / 10);
        assert(decimal(n).drop_last() =~= decimal(n / 10));
    }
}

/// The unsigned 64-bit number that `s` writes, if it writes one that fits.
pub fn parse_u64(s: &str) -> (r: Option<u64>)
    ensures
        r == (match number(s@) {
            Some(v) => if v <= u64::MAX {
                Some(v as u64)
            } else {
                None
            },
            None => None,
        }),
{
    let v = chars_of(s);
    let start: usize = if v.len() > 0 && v[0] == '+' { 1 } else { 0 };
    let ghost body = unsigned_part(s@);
    assert(body =~= s@.skip(start as int));
    if v.len() == start {
        return None;
    }
    let mut n: u64 = 0;
    let mut i: usize = start;
    while i < v.len()
        invariant
            start <= i <= v@.len(),
            v@ == s@,
            body == s@.skip(start as int),
            body == unsigned_part(s@),
            body.len() > 0,
            digits_value(body.take(i - start)) == Some(n as nat),
        decreases v@.len() - i,
    {
        let c = v[i];
        let ghost k = i - start;
        assert(body.take(k + 1).drop_last() =~= body.take(k));
        assert(body.take(k + 1).last() == c);
        if !('0' <= c && c <= '9') {
            proof {
                lemma_digits_grow(body, k + 1, u64::MAX as nat);
            }
            return None;
        }
        let d: u64 = c as u64 - 48;
        if n > (u64::MAX - d) / 10 {
            proof {
                assert(n * 10 + d > u64::MAX);
                lemma_digits_grow(body, k + 1, u64::MAX as nat);
            }
            return None;
        }
        n = n * 10 + d;
        i = i + 1;
    }
    assert(body.take(v@.len() - start) =~= body);
    Some(n)
}

/// Why a text is no number of a given size.
#[derive(Clone, Copy, Debug, PartialEq, Eq, Structural)]
pub enum Fault {
    Digit,
    Large,
}

impl Fault {
    pub open spec fn text(self) -> Seq<char> {
        match self {
            Fault::Digit => "invalid digit found in string"@,
            Fault::Large => "number too large to fit in target type"@,
        }
    }

    pub fn as_str(self) -> (r: &'static str)
        ensures
            r@ == self.text(),
    {
        match self {
            Fault::Digit => "invalid digit found in string",
            Fault::Large => "number too large to fit in target type",
        }
    }
}

/// The first thing wrong with digits read from left to right: a character that
/// is no digit, or a value beyond the limit.
pub open spec fn fault(digits: Seq<char>, limit: nat) -> Option<Fault>
    decreases digits.len(),
{
    if digits.len() == 0 {
        None
    } else {
        match fault(digits.drop_last(), limit) {
            Some(f) => Some(f),
            None => if !is_digit(digits.last()) {
                Some(Fault::Digit)
            } else if digits_value(digits) is Some && digits_value(digits)->0 > limit {
                Some(Fault::Large)
            } else {
                None
            },
        }
    }
}

/// The number up to a limit that a text writes: digits, with or without a plus
/// sign.
pub open spec fn within(text: Seq<char>, limit: nat) -> Result<nat, Fault> {
    let digits = unsigned_part(text);
    if digits.len() == 0 {
        Err(Fault::Digit)
    } else {
        match fault(digits, limit) {
            Some(f) => Err(f),
            None => Ok(digits_value(digits)->0),
        }
    }
}

/// Something wrong early stays wrong.
proof fn lemma_fault_stays(digits: Seq<char>, limit: nat, i: int)
    requires
        0 <= i <= digits.len(),
        fault(digits.take(i), limit) is Some,
    ensures
        fault(digits, limit) == fault(digits.take(i), limit),
    decreases digits.len() - i,
{
    if i == digits.len() {
        assert(digits.take(i) =~= digits);
    } else {
        assert(digits.take(i + 1).drop_last() =~= digits.take(i));
        lemma_fault_stays(digits, limit, i + 1);
    }
}

/// Digits have no fault exactly where their value is within the limit.
proof fn lemma_no_fault(digits: Seq<char>, limit: nat)
    ensures
        fault(digits, limit) is None <==> digits_value(digits) is Some && digits_value(digits)->0
            <= limit,
    decreases digits.len(),
{
    if digits.len() > 0 {
        lemma_no_fault(digits.drop_last(), limit);
    }
}

/// A text writes a number up to a limit exactly where what it writes is one.
pub proof fn lemma_within(text: Seq<char>, limit: nat)
    ensures
        within(text, limit) is Ok <==> number(text) is Some && number(text)->0 <= limit,
        within(text, limit) matches Ok(n) ==> number(text) == Some(n),
{
    lemma_no_fault(unsigned_part(text), limit);
}

/// `within`, computed, for a text that is not empty.
pub fn parse_within(text: &str, limit: u64) -> (r: Result<u64, Fault>)
    requires
        text@.len() > 0,
    ensures
        match within(text@, limit as nat) {
            Ok(n) => r is Ok && r->Ok_0 == n,
            Err(f) => r is Err && r->Err_0 == f,
        },
{
    let v = chars_of(text);
    let start: usize = if v[0] == '+' { 1 } else { 0 };
    let ghost digits = unsigned_part(text@);
    assert(digits =~= text@.skip(start as int));
    if v.len() == start {
        return Err(Fault::Digit);
    }
    let mut n: u64 = 0;
    let mut i: usize = start;
    assert(digits.take(0) =~= Seq::<char>::empty());
    while i < v.len()
        invariant
            start <= i <= v@.len(),
            v@ == text@,
            digits == text@.skip(start as int),
            digits == unsigned_part(text@),
            digits.len() > 0,
            n <= limit,
            fault(digits.take(i - start), limit as nat) is None,
            digits_value(digits.take(i - start)) == Some(n as nat),
        decreases v@.len() - i,
    {
        let c = v[i];
        let ghost k = i - start;
        assert(digits.take(k + 1).drop_last() =~= digits.take(k));
        assert(digits.take(k + 1).last() == c);
        if !('0' <= c && c <= '9') {
            proof {
                lemma_fault_stays(digits, limit as nat, k + 1);
            }
            return Err(Fault::Digit);
        }
        let d: u64 = c as u64 - 48;
        let next: u128 = n as u128 * 10 + d as u128;
        if next > limit as u128 {
            proof {
                lemma_fault_stays(digits, limit as nat, k + 1);
            }
            return Err(Fault::Large);
        }
        n = next as u64;
        i = i + 1;
    }
    assert(digits.take(v@.len() - start) =~= digits);
    Ok(n)
}

/// Reads a number that fits a `usize`.
pub fn parse_usize(s: &str) -> (r: Option<usize>)
    ensures
        r matches Some(n) ==> number(s@) == Some(n as nat),
        r is None <==> number(s@) is None || number(s@)->0 > usize::MAX,
{
    match parse_u64(s) {
        Some(n) => if n <= usize::MAX as u64 {
            Some(n as usize)
        } else {
            None
        },
        None => None,
    }
}

// ---------------------------------------------------------------------------
// What the answers are
// ---------------------------------------------------------------------------

/// The length of a text is that of its bytes, and a character's width that of the
/// text which holds it alone.
pub proof fn law_lengths_are_in_bytes(s: &str, n: usize, c: char, w: usize)
    requires
        call_ensures(byte_len, (s,), n),
        call_ensures(char_width, (c,), w),
    ensures
        n == encode_utf8(s@).len(),
        w == encode_utf8(seq![c]).len(),
{
    lemma_first_bytes(seq![c]);
    assert(seq![c].drop_first() =~= Seq::<char>::empty());
    lemma_text_bytes(Seq::<char>::empty());
}

/// Two texts are the same exactly where they hold the same characters.
pub proof fn law_same_texts(a: &str, b: &str, r: bool)
    requires
        call_ensures(same, (a, b), r),
    ensures
        r ==> a@.len() == b@.len() && forall|i: int| 0 <= i < a@.len() ==> a@[i] == b@[i],
        !r ==> a@.len() != b@.len() || exists|i: int| 0 <= i < a@.len() && a@[i] != b@[i],
{
    if !r && a@.len() == b@.len() && forall|i: int| 0 <= i < a@.len() ==> a@[i] == b@[i] {
        assert(a@ =~= b@);
    }
}

proof fn lemma_decimal_places(n: nat, k: nat)
    ensures
        decimal(n).len() > 0,
        k < decimal(n).len() ==> decimal(n)[decimal(n).len() - 1 - k] as int == 48 + n as int / pow(
            10,
            k,
        ) % 10,
        n < pow(10, decimal(n).len()),
        decimal(n).len() > 1 ==> decimal(n)[0] != '0',
        n > 0 ==> decimal(n)[0] != '0',
    decreases n,
{
    let s = decimal(n);
    lemma_pow0(10);
    lemma_pow1(10);
    if n >= 10 {
        let m = n / 10;
        let front = decimal(m);
        lemma_decimal_places(m, (if k > 0 { k - 1 } else { 0 }) as nat);
        assert(s == front.push(digit((n % 10) as int)));
        assert(s.len() == front.len() + 1);
        assert(s[0] == front[0]);
        reveal(pow);
        assert(pow(10, s.len()) == 10 * pow(10, front.len()));
        if 0 < k < s.len() {
            assert(s[s.len() - 1 - k] == front[front.len() - 1 - (k - 1)]);
            assert(pow(10, k) == 10 * pow(10, (k - 1) as nat));
            lemma_pow_positive(10, (k - 1) as nat);
            lemma_div_denominator(n as int, 10, pow(10, (k - 1) as nat));
            assert(m as int / pow(10, (k - 1) as nat) == n as int / pow(10, k));
        }
    }
}

/// A number is written digit by digit: the character at the `k`-th place from the
/// right stands for how many times the `k`-th power of ten goes into what is left.
/// Nothing is cut off on the left, and no zero leads but that of zero itself.
pub proof fn law_decimal_has_every_digit(n: u64, s: String, k: nat)
    requires
        call_ensures(decimal_text, (n,), s),
    ensures
        k < s@.len() ==> s@[s@.len() - 1 - k] as int == 48 + n as int / pow(10, k) % 10,
        n < pow(10, s@.len()),
        s@.len() > 1 ==> s@[0] != '0',
        s@.len() > 0,
{
    lemma_decimal_places(n as nat, k);
}

/// A count is written like any other number.
pub proof fn law_counts_are_decimal(n: usize, s: String, t: String)
    requires
        call_ensures(count_text, (n,), s),
        call_ensures(decimal_text, (n as u64,), t),
    ensures
        s@ == t@,
{
}

/// Two places are filled: a number below a hundred is its tens and its ones, and any
/// other is written out.
pub proof fn law_two_digits_fill_two_places(n: u64, s: String, t: String)
    requires
        call_ensures(two_digit_text, (n,), s),
        call_ensures(decimal_text, (n,), t),
    ensures
        n < 100 ==> s@.len() == 2 && s@[0] as int == 48 + n / 10 && s@[1] as int == 48 + n % 10,
        n >= 10 ==> s@ == t@,
{
    let d = decimal(n as nat);
    if n < 10 {
        assert(s@ == seq!['0'] + d);
        assert(s@[0] == '0' && s@[1] == d[0]);
    } else if n < 100 {
        assert(decimal((n / 10) as nat).len() == 1);
        assert(d.len() == 2);
        assert(d[0] == decimal((n / 10) as nat)[0]);
    }
}

/// A hash is written as sixteen characters, the `k`-th of which from the right stands
/// for its `k`-th digit in base sixteen: figures below ten, small letters from `a` on
/// above.
pub proof fn law_hex_has_every_digit(h: u64, s: String, k: nat)
    requires
        call_ensures(hex16_text, (h,), s),
        k < 16,
    ensures
        s@.len() == 16,
        ({
            let d = h as int / pow2(4 * k) as int % 16;
            let c = s@[15 - k];
            &&& d < 10 ==> c as int == '0' as int + d
            &&& d >= 10 ==> c as int == 'a' as int + (d - 10)
        }),
{
    let shift = (4 * k) as u64;
    let i = 15 - k;
    assert(60 - 4 * i == 4 * k);
    let x = h >> shift;
    lemma_u64_shr_is_div(h, shift);
    assert(x & 0xf == x % 16) by (bit_vector);
    assert(s@[i] == hex_digit(x & 0xf));
}

/// Reading a number goes on digit by digit: a digit behind a text that reads as a
/// number multiplies it by ten and adds to it, unless that is too large.
pub proof fn law_reading_goes_on(s: &str, v: Option<u64>, t: &str, w: Option<u64>, c: char)
    requires
        call_ensures(parse_u64, (s,), v),
        call_ensures(parse_u64, (t,), w),
        t@ == s@.push(c),
        v is Some,
    ensures
        '0' <= c <= '9' && v->0 * 10 + (c as int - 48) <= u64::MAX ==> w is Some && w->0 == v->0
            * 10 + (c as int - 48),
        '0' <= c <= '9' && v->0 * 10 + (c as int - 48) > u64::MAX ==> w is None,
        !('0' <= c <= '9') ==> w is None,
{
    assert(unsigned_part(t@) =~= unsigned_part(s@).push(c));
    assert(unsigned_part(t@).drop_last() =~= unsigned_part(s@));
}

/// One digit is its value; a plus sign before digits is passed over; nothing else
/// that is a single character is a number, and neither is the empty text.
pub proof fn law_reading_starts(s: &str, v: Option<u64>, t: &str, w: Option<u64>, c: char)
    requires
        call_ensures(parse_u64, (s,), v),
        call_ensures(parse_u64, (t,), w),
    ensures
        s@ == seq![c] && '0' <= c <= '9' ==> v is Some && v->0 == c as int - 48,
        s@ == seq![c] && !('0' <= c <= '9') ==> v is None,
        s@.len() == 0 ==> v is None,
        t@ == seq!['+'] + s@ && (s@.len() == 0 || s@[0] != '+') ==> w == v,
        t@ == seq!['+'] + s@ && s@.len() > 0 && s@[0] == '+' ==> w is None,
{
    assert(digits_value(Seq::<char>::empty()) == Some(0nat));
    if s@ == seq![c] {
        if c == '+' {
            assert(unsigned_part(s@) =~= Seq::<char>::empty());
        } else {
            assert(unsigned_part(s@) == s@);
            assert(s@.drop_last() =~= Seq::<char>::empty());
        }
    }
    if t@ == seq!['+'] + s@ {
        assert(unsigned_part(t@) =~= s@);
        if s@.len() > 0 && s@[0] == '+' {
            lemma_not_digits(s@, 0);
        }
    }
}

proof fn lemma_not_digits(s: Seq<char>, i: int)
    requires
        0 <= i < s.len(),
        !is_digit(s[i]),
    ensures
        digits_value(s) is None,
    decreases s.len(),
{
    if i < s.len() - 1 {
        lemma_not_digits(s.drop_last(), i);
    }
}

/// A text that holds a character which is no digit, other than a plus sign in front,
/// is no number.
pub proof fn law_only_digits_are_read(s: &str, v: Option<u64>, i: int)
    requires
        call_ensures(parse_u64, (s,), v),
        0 <= i < s@.len(),
        !('0' <= s@[i] <= '9'),
        i > 0 || s@[i] != '+',
    ensures
        v is None,
{
    let body = unsigned_part(s@);
    if s@[0] == '+' {
        assert(body[i - 1] == s@[i]);
        lemma_not_digits(body, i - 1);
    } else {
        lemma_not_digits(body, i);
    }
}

/// Reading within a limit gives what reading gives, where that is within it; and a
/// `usize` is read as any number is, where it fits.
pub proof fn law_reading_within_a_limit(
    s: &str,
    limit: u64,
    v: Option<u64>,
    r: Result<u64, Fault>,
    u: Option<usize>,
)
    requires
        s@.len() > 0,
        call_ensures(parse_u64, (s,), v),
        call_ensures(parse_within, (s, limit), r),
        call_ensures(parse_usize, (s,), u),
    ensures
        r is Ok <==> v is Some && v->0 <= limit,
        r is Ok ==> Some(r->Ok_0) == v,
        u is Some <==> v is Some && v->0 <= usize::MAX,
        u is Some ==> u->0 == v->0,
{
    lemma_within(s@, limit as nat);
}

/// What is wrong with a text is what comes first in it: a text that is in order up to
/// a character is faulted for that character where it is no digit, and for its size
/// where it is one and makes the number too large.
pub proof fn law_first_fault_is_reported(
    s: &str,
    t: &str,
    limit: u64,
    p: Result<u64, Fault>,
    r: Result<u64, Fault>,
    c: char,
    rest: Seq<char>,
)
    requires
        s@.len() > 0,
        call_ensures(parse_within, (s, limit), p),
        call_ensures(parse_within, (t, limit), r),
        t@ == s@.push(c) + rest,
    ensures
        p is Err && s@ != seq!['+'] ==> r is Err && r->Err_0 == p->Err_0,
        p is Ok && !('0' <= c <= '9') ==> r is Err && r->Err_0 == Fault::Digit,
        p is Ok && '0' <= c <= '9' && p->Ok_0 * 10 + (c as int - 48) > limit ==> r is Err
            && r->Err_0 == Fault::Large,
{
    let (a, b) = (unsigned_part(s@), unsigned_part(t@));
    let n = a.len() as int;
    assert(b =~= a.push(c) + rest);
    assert(b.take(n) =~= a);
    assert(b.take(n + 1) =~= a.push(c));
    assert(a.push(c).drop_last() =~= a);
    if n > 0 {
        lemma_no_fault(a, limit as nat);
        if p is Err {
            lemma_fault_stays(b, limit as nat, n);
        } else if !is_digit(c) || p->Ok_0 * 10 + (c as int - 48) > limit {
            lemma_fault_stays(b, limit as nat, n + 1);
        }
    } else {
        assert(s@ =~= seq!['+']);
    }
}

/// A sign alone, or another character that is no digit in front, is faulted as such.
pub proof fn law_first_character_is_a_digit(t: &str, limit: u64, r: Result<u64, Fault>)
    requires
        t@.len() > 0,
        call_ensures(parse_within, (t, limit), r),
    ensures
        t@ == seq!['+'] ==> r is Err && r->Err_0 == Fault::Digit,
        t@[0] != '+' && !('0' <= t@[0] <= '9') ==> r is Err && r->Err_0 == Fault::Digit,
        t@[0] == '+' && t@.len() > 1 && !('0' <= t@[1] <= '9') ==> r is Err && r->Err_0
            == Fault::Digit,
        '0' <= t@[0] <= '9' && t@[0] as int - 48 > limit ==> r is Err && r->Err_0 == Fault::Large,
{
    let b = unsigned_part(t@);
    if b.len() > 0 {
        let one = b.take(1);
        assert(one.drop_last() =~= Seq::<char>::empty());
        assert(fault(Seq::<char>::empty(), limit as nat) is None);
        assert(digits_value(Seq::<char>::empty()) == Some(0nat));
        assert(one.last() == b[0]);
        if fault(one, limit as nat) is Some {
            lemma_fault_stays(b, limit as nat, 1);
        }
    }
}

/// The two faults are told apart in words.
pub proof fn law_faults_in_words(f: Fault, r: &'static str)
    requires
        call_ensures(Fault::as_str, (f,), r),
    ensures
        f == Fault::Digit ==> r@ == "invalid digit found in string"@,
        f == Fault::Large ==> r@ == "number too large to fit in target type"@,
{
}

}
