//! FNV-1a over token ids and over text: what verification compares.

use crate::text::lemma_bytes_concat;
use vstd::prelude::*;
use vstd::utf8::encode_utf8;

verus! {

/// The hash of no bytes.
pub const OFFSET: u64 = 0xcbf2_9ce4_8422_2325;

/// What each step multiplies by.
pub const PRIME: u64 = 0x0000_0100_0000_01b3;

/// One step: mix a byte in, then multiply.
pub open spec fn step(h: u64, b: u8) -> u64 {
    (h ^ (b as u64)).wrapping_mul(PRIME)
}

/// The hash of `bytes`, carried on from `h`.
pub open spec fn fnv(h: u64, bytes: Seq<u8>) -> u64
    decreases bytes.len(),
{
    if bytes.len() == 0 {
        h
    } else {
        step(fnv(h, bytes.drop_last()), bytes.last())
    }
}

/// The four bytes of an id, lowest first.
pub open spec fn id_bytes(id: u32) -> Seq<u8> {
    seq![
        (id % 256) as u8,
        (id / 256 % 256) as u8,
        (id / 65536 % 256) as u8,
        (id / 16777216) as u8,
    ]
}

/// The bytes of a list of ids.
pub open spec fn ids_bytes(ids: Seq<u32>) -> Seq<u8>
    decreases ids.len(),
{
    if ids.len() == 0 {
        Seq::empty()
    } else {
        ids_bytes(ids.drop_last()) + id_bytes(ids.last())
    }
}

/// The hash of a list of ids.
pub open spec fn hash_of_ids(ids: Seq<u32>) -> u64 {
    fnv(OFFSET, ids_bytes(ids))
}

/// The hash of a text, over its UTF-8 bytes.
pub open spec fn hash_of_text(text: Seq<char>) -> u64 {
    fnv(OFFSET, encode_utf8(text))
}

/// Hashing one part after the other is hashing both at once.
pub proof fn law_hash_continues(h: u64, a: Seq<u8>, b: Seq<u8>)
    ensures
        fnv(h, a + b) == fnv(fnv(h, a), b),
    decreases b.len(),
{
    if b.len() == 0 {
        assert(a + b =~= a);
    } else {
        law_hash_continues(h, a, b.drop_last());
        assert((a + b).drop_last() =~= a + b.drop_last());
    }
}

/// The hash of two texts put together goes on from the hash of the first.
pub proof fn law_text_hash_continues(a: Seq<char>, b: Seq<char>)
    ensures
        hash_of_text(a + b) == fnv(hash_of_text(a), encode_utf8(b)),
{
    lemma_bytes_concat(a, b);
    law_hash_continues(OFFSET, encode_utf8(a), encode_utf8(b));
}

/// A step can be undone: it never sends two hashes to one, nor two bytes.
pub proof fn lemma_step_injective(g: u64, h: u64, b: u8, c: u8)
    ensures
        step(g, b) == step(h, b) ==> g == h,
        step(h, b) == step(h, c) ==> b == c,
{
    lemma_prime_injective(g ^ (b as u64), h ^ (b as u64));
    lemma_prime_injective(h ^ (b as u64), h ^ (c as u64));
    assert((g ^ (b as u64)) == (h ^ (b as u64)) ==> g == h) by (bit_vector);
    assert((h ^ (b as u64)) == (h ^ (c as u64)) ==> b == c) by (bit_vector);
}

/// The inverse of the prime modulo 2^64.
spec fn inverse() -> int {
    0xce96_5057_aff6_957b
}

proof fn lemma_unmultiply(x: u64)
    ensures
        (x.wrapping_mul(PRIME) * inverse()) % 0x1_0000_0000_0000_0000 == x,
{
    let m: int = 0x1_0000_0000_0000_0000;
    let p: int = PRIME as int;
    assert(x.wrapping_mul(PRIME) == (x * p) % m);
    vstd::arithmetic::div_mod::lemma_mul_mod_noop_left(x * p, inverse(), m);
    assert((0x100_0000_01b3int * 0xce96_5057_aff6_957bint) % 0x1_0000_0000_0000_0000int == 1);
    vstd::arithmetic::mul::lemma_mul_is_associative(x as int, p, inverse());
    vstd::arithmetic::div_mod::lemma_mul_mod_noop_right(x as int, p * inverse(), m);
    vstd::arithmetic::div_mod::lemma_small_mod(x as nat, m as nat);
}

proof fn lemma_prime_injective(x: u64, y: u64)
    ensures
        x.wrapping_mul(PRIME) == y.wrapping_mul(PRIME) ==> x == y,
{
    lemma_unmultiply(x);
    lemma_unmultiply(y);
}

/// Two byte strings of one length that differ in exactly one place never share
/// a hash.
pub proof fn law_one_changed_byte_shows(h: u64, bytes: Seq<u8>, k: int, b: u8)
    requires
        0 <= k < bytes.len(),
        b != bytes[k],
    ensures
        fnv(h, bytes.update(k, b)) != fnv(h, bytes),
    decreases bytes.len(),
{
    let other = bytes.update(k, b);
    if k == bytes.len() - 1 {
        assert(other.drop_last() =~= bytes.drop_last());
        lemma_step_injective(h, fnv(h, bytes.drop_last()), b, bytes[k]);
    } else {
        law_one_changed_byte_shows(h, bytes.drop_last(), k, b);
        assert(other.drop_last() =~= bytes.drop_last().update(k, b));
        lemma_step_injective(
            fnv(h, other.drop_last()),
            fnv(h, bytes.drop_last()),
            bytes.last(),
            bytes.last(),
        );
    }
}

fn next(h: u64, b: u8) -> (r: u64)
    ensures
        r == step(h, b),
{
    (h ^ (b as u64)).wrapping_mul(PRIME)
}

proof fn lemma_four(h: u64, bytes: Seq<u8>)
    requires
        bytes.len() == 4,
    ensures
        fnv(h, bytes) == step(step(step(step(h, bytes[0]), bytes[1]), bytes[2]), bytes[3]),
{
    reveal_with_fuel(fnv, 5);
}

pub fn ids_hash(ids: &[u32]) -> (r: u64)
    ensures
        r == hash_of_ids(ids@),
{
    let mut h: u64 = OFFSET;
    let mut i: usize = 0;
    while i < ids.len()
        invariant
            i <= ids@.len(),
            h == hash_of_ids(ids@.take(i as int)),
        decreases ids@.len() - i,
    {
        let id: u32 = ids[i];
        let ghost was = h;
        h = next(h, (id % 256) as u8);
        h = next(h, (id / 256 % 256) as u8);
        h = next(h, (id / 65536 % 256) as u8);
        h = next(h, (id / 16777216) as u8);
        proof {
            lemma_four(was, id_bytes(id));
            law_hash_continues(OFFSET, ids_bytes(ids@.take(i as int)), id_bytes(id));
            assert(ids@.take(i + 1).drop_last() =~= ids@.take(i as int));
        }
        i = i + 1;
    }
    assert(ids@.take(ids@.len() as int) =~= ids@);
    h
}

pub fn text_hash(text: &str) -> (r: u64)
    ensures
        r == hash_of_text(text@),
{
    let bytes = text.as_bytes();
    let mut h: u64 = OFFSET;
    let mut i: usize = 0;
    while i < bytes.len()
        invariant
            i <= bytes@.len(),
            h == fnv(OFFSET, bytes@.take(i as int)),
        decreases bytes@.len() - i,
    {
        h = next(h, bytes[i]);
        assert(bytes@.take(i + 1).drop_last() =~= bytes@.take(i as int));
        i = i + 1;
    }
    assert(bytes@.take(bytes@.len() as int) =~= bytes@);
    h
}

/// One byte more is mixed into the hash and the hash multiplied by the prime,
/// modulo 2^64.
pub open spec fn mixed(h: int, b: int) -> int {
    ((h as u64 ^ b as u64) as int * 0x100_0000_01b3) % 0x1_0000_0000_0000_0000
}

/// The hash of no ids is the offset of FNV-1a; and one id more goes into the hash
/// byte by byte, the lowest first.
pub proof fn law_ids_hash_goes_on(ids: &[u32], more: &[u32], id: u32, h: u64, g: u64)
    requires
        call_ensures(ids_hash, (ids,), h),
        call_ensures(ids_hash, (more,), g),
        more@ == ids@.push(id),
    ensures
        ids@.len() == 0 ==> h == 0xcbf2_9ce4_8422_2325,
        g == mixed(
            mixed(
                mixed(mixed(h as int, id as int % 256), (id as int / 256) % 256),
                (id as int / 65536) % 256,
            ),
            id as int / 16777216,
        ),
{
    assert(more@.drop_last() =~= ids@);
    lemma_four(h, id_bytes(id));
    law_hash_continues(OFFSET, ids_bytes(ids@), id_bytes(id));
    if ids@.len() == 0 {
        assert(ids_bytes(ids@) =~= Seq::<u8>::empty());
    }
}

/// The hash of no text is the offset of FNV-1a; and one character more goes into
/// the hash by its bytes in UTF-8, in order.
pub proof fn law_text_hash_goes_on(text: &str, more: &str, c: char, h: u64, g: u64, k: nat)
    requires
        call_ensures(text_hash, (text,), h),
        call_ensures(text_hash, (more,), g),
        more@ == text@.push(c),
        k < encode_utf8(seq![c]).len(),
    ensures
        text@.len() == 0 ==> h == 0xcbf2_9ce4_8422_2325,
        fnv(h, encode_utf8(seq![c])) == g,
        fnv(h, Seq::empty()) == h,
        fnv(h, encode_utf8(seq![c]).take(k as int + 1)) == mixed(
            fnv(h, encode_utf8(seq![c]).take(k as int)) as int,
            encode_utf8(seq![c])[k as int] as int,
        ),
{
    assert(more@ =~= text@ + seq![c]);
    law_text_hash_continues(text@, seq![c]);
    let bytes = encode_utf8(seq![c]);
    assert(bytes.take(k as int + 1).drop_last() =~= bytes.take(k as int));
}

/// Two lists of ids that differ in the lowest byte of one id only never share a
/// hash.
pub proof fn law_one_nearby_id_shows(ids: &[u32], other: &[u32], k: int, h: u64, g: u64)
    requires
        call_ensures(ids_hash, (ids,), h),
        call_ensures(ids_hash, (other,), g),
        0 <= k < ids@.len(),
        other@ == ids@.update(k, other@[k]),
        other@[k] != ids@[k],
        other@[k] / 256 == ids@[k] / 256,
    ensures
        g != h,
{
    lemma_one_byte(ids@, other@[k], k);
    law_one_changed_byte_shows(
        OFFSET,
        ids_bytes(ids@),
        4 * k,
        (other@[k] % 256) as u8,
    );
}

proof fn lemma_one_byte(ids: Seq<u32>, id: u32, k: int)
    requires
        0 <= k < ids.len(),
        id != ids[k],
        id / 256 == ids[k] / 256,
    ensures
        ids_bytes(ids).len() == 4 * ids.len(),
        ids_bytes(ids.update(k, id)) == ids_bytes(ids).update(4 * k, (id % 256) as u8),
        ids_bytes(ids)[4 * k] != (id % 256) as u8,
    decreases ids.len(),
{
    let less = ids.drop_last();
    lemma_bytes_len(less);
    if k == ids.len() - 1 {
        assert(ids.update(k, id).drop_last() =~= less);
        assert(ids_bytes(ids.update(k, id)) =~= ids_bytes(ids).update(4 * k, (id % 256) as u8));
    } else {
        lemma_one_byte(less, id, k);
        assert(ids.update(k, id).drop_last() =~= less.update(k, id));
        assert(ids_bytes(ids.update(k, id)) =~= ids_bytes(ids).update(4 * k, (id % 256) as u8));
    }
}

proof fn lemma_bytes_len(ids: Seq<u32>)
    ensures
        ids_bytes(ids).len() == 4 * ids.len(),
    decreases ids.len(),
{
    if ids.len() > 0 {
        lemma_bytes_len(ids.drop_last());
    }
}

}
