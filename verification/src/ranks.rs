//! Rank tables: the files that list a byte-level vocabulary, one token in base64
//! and its rank on each line.

use crate::engine::{refused, unsupported, Unsupported};
use crate::scan::{contents, lines, split_lines, split_words, trim, trimmed, words};
use crate::text::{chars_of, count_text, decimal, lemma_within, parse_within, within, Fault};
use vstd::prelude::*;
use vstd::string::StringExecFns;

verus! {

/// A token of a vocabulary: its bytes and its rank.
#[derive(Debug)]
pub struct Token {
    pub bytes: Vec<u8>,
    pub rank: u32,
}

/// A token as a value of the contracts.
pub open spec fn entry(t: Token) -> (Seq<u8>, u32) {
    (t.bytes@, t.rank)
}

/// A table as a value of the contracts.
pub open spec fn entries(list: Seq<Token>) -> Seq<(Seq<u8>, u32)> {
    list.map_values(|t: Token| entry(t))
}

// ---------------------------------------------------------------------------
// Ranks
// ---------------------------------------------------------------------------

/// The rank that a word writes: digits, with or without a plus sign, of 32 bits.
pub open spec fn rank_of(word: Seq<char>) -> Result<u32, Fault> {
    match within(word, u32::MAX as nat) {
        Ok(n) => Ok(n as u32),
        Err(f) => Err(f),
    }
}

/// `rank_of`, computed. The word holds a character, as a word does.
pub fn parse_rank(word: &str) -> (r: Result<u32, Fault>)
    requires
        word@.len() > 0,
    ensures
        r == rank_of(word@),
{
    proof {
        lemma_within(word@, u32::MAX as nat);
    }
    match parse_within(word, 0xffff_ffff) {
        Ok(n) => Ok(n as u32),
        Err(f) => Err(f),
    }
}

// ---------------------------------------------------------------------------
// Lines
// ---------------------------------------------------------------------------

/// What is wrong with line `n` of the file, counted from one.
pub open spec fn complaint(n: nat, what: Seq<char>) -> Seq<char> {
    "ranks.tiktoken:"@ + decimal(n) + ": "@ + what
}

/// `complaint`, as a refusal.
fn complain<T>(n: usize, what: &str) -> (r: Result<T, Unsupported>)
    ensures
        refused(r, complaint(n as nat, what@)),
{
    let mut msg = "ranks.tiktoken:".to_owned();
    let number = count_text(n);
    msg.append(number.as_str());
    msg.append(": ");
    msg.append(what);
    unsupported(msg.as_str())
}

/// The bytes that a text in the standard base64 alphabet stands for, or the
/// message of the decoder's error.
pub uninterp spec fn base64_bytes(text: Seq<char>) -> Result<Seq<u8>, Seq<char>>;

/// `base64::Engine::decode` of the engine `STANDARD`: the bytes, or the message
/// of its error, which the text decides.
#[verifier::external_body]
fn decode_base64(text: &str) -> (r: Result<Vec<u8>, String>)
    ensures
        match r {
            Ok(bytes) => base64_bytes(text@) == Ok::<Seq<u8>, Seq<char>>(bytes@),
            Err(e) => base64_bytes(text@) == Err::<Seq<u8>, Seq<char>>(e@),
        },
{
    base64::Engine::decode(&base64::engine::general_purpose::STANDARD, text).map_err(
        |e| e.to_string(),
    )
}

/// The token of line `n`, from what its first word decodes to and its second
/// word: the decoder's complaint comes first, then the rank's.
pub open spec fn line_token(
    n: nat,
    decoded: Result<Seq<u8>, Seq<char>>,
    rank: Seq<char>,
) -> Result<(Seq<u8>, u32), Seq<char>> {
    match decoded {
        Err(e) => Err(complaint(n, e)),
        Ok(bytes) => match rank_of(rank) {
            Err(f) => Err(complaint(n, f.text())),
            Ok(r) => Ok((bytes, r)),
        },
    }
}

/// What a decoder handed back, as a value of the contracts.
pub open spec fn decoded_of(r: Result<Vec<u8>, String>) -> Result<Seq<u8>, Seq<char>> {
    match r {
        Ok(bytes) => Ok(bytes@),
        Err(e) => Err(e@),
    }
}

/// Whether `r` is `spec`: the token, or a refusal with the message.
pub open spec fn is_token(
    r: Result<Token, Unsupported>,
    spec_r: Result<(Seq<u8>, u32), Seq<char>>,
) -> bool {
    match spec_r {
        Ok(t) => r is Ok && entry(r->Ok_0) == t,
        Err(msg) => refused(r, msg),
    }
}

/// `line_token`, computed. The second word holds a character, as a word does.
pub fn token_of_line(n: usize, decoded: Result<Vec<u8>, String>, rank: &str) -> (r: Result<
    Token,
    Unsupported,
>)
    requires
        rank@.len() > 0,
    ensures
        is_token(r, line_token(n as nat, decoded_of(decoded), rank@)),
{
    match decoded {
        Err(e) => complain(n, e.as_str()),
        Ok(bytes) => match parse_rank(rank) {
            Err(f) => complain(n, f.as_str()),
            Ok(r) => Ok(Token { bytes, rank: r }),
        },
    }
}

// ---------------------------------------------------------------------------
// The table
// ---------------------------------------------------------------------------

/// The tokens of the lines of a file, in order; blank lines hold none. The first
/// line that is wrong decides the message.
pub open spec fn table_of(list: Seq<Seq<char>>) -> Result<Seq<(Seq<u8>, u32)>, Seq<char>>
    decreases list.len(),
{
    if list.len() == 0 {
        Ok(Seq::empty())
    } else {
        match table_of(list.drop_last()) {
            Err(msg) => Err(msg),
            Ok(table) => {
                let line = list.last();
                let w = words(line);
                if trimmed(line).len() == 0 {
                    Ok(table)
                } else if w.len() < 2 {
                    Err(complaint(list.len(), "malformed"@))
                } else {
                    match line_token(list.len(), base64_bytes(w[0]), w[1]) {
                        Err(msg) => Err(msg),
                        Ok(t) => Ok(table.push(t)),
                    }
                }
            },
        }
    }
}

/// A line that is wrong decides the whole file.
proof fn lemma_table_stays(list: Seq<Seq<char>>, i: int)
    requires
        0 <= i <= list.len(),
        table_of(list.take(i)) is Err,
    ensures
        table_of(list) == table_of(list.take(i)),
    decreases list.len() - i,
{
    if i == list.len() {
        assert(list.take(i) =~= list);
    } else {
        assert(list.take(i + 1).drop_last() =~= list.take(i));
        lemma_table_stays(list, i + 1);
    }
}

/// Whether `r` is `spec`: the tokens, or a refusal with the message.
pub open spec fn is_table(
    r: Result<Vec<Token>, Unsupported>,
    spec_r: Result<Seq<(Seq<u8>, u32)>, Seq<char>>,
) -> bool {
    match spec_r {
        Ok(t) => r is Ok && entries(r->Ok_0@) == t,
        Err(msg) => refused(r, msg),
    }
}

/// Reads a rank table. A token that is listed twice appears twice: the later
/// line is the one that counts.
pub fn parse_ranks(raw: &str) -> (r: Result<Vec<Token>, Unsupported>)
    ensures
        is_table(r, table_of(lines(raw@))),
{
    let list = split_lines(raw);
    let ghost all = lines(raw@);
    let mut table: Vec<Token> = Vec::new();
    let total: usize = list.len();
    let mut i: usize = 0;
    assert(all.take(0) =~= Seq::empty());
    assert(entries(table@) =~= Seq::empty());
    while i < total
        invariant
            i <= total == list@.len(),
            all == contents(list@),
            all == lines(raw@),
            table_of(all.take(i as int)) == Ok::<Seq<(Seq<u8>, u32)>, Seq<char>>(entries(table@)),
        decreases list@.len() - i,
    {
        let line = list[i].as_str();
        let n: usize = i + 1;
        assert(all.take(i + 1).drop_last() =~= all.take(i as int));
        assert(all.take(i + 1).last() == line@);
        let solid = trim(line);
        if chars_of(solid.as_str()).len() != 0 {
            let w = split_words(line);
            if w.len() < 2 {
                proof {
                    lemma_table_stays(all, i + 1);
                }
                return complain(n, "malformed");
            }
            assert(words(line@)[0] == w@[0]@);
            assert(words(line@)[1] == w@[1]@);
            proof {
                crate::scan::law_words_are_solid(line@);
            }
            let decoded = decode_base64(w[0].as_str());
            match token_of_line(n, decoded, w[1].as_str()) {
                Err(e) => {
                    proof {
                        lemma_table_stays(all, i + 1);
                    }
                    return Err(e);
                },
                Ok(t) => {
                    let ghost before = entries(table@);
                    table.push(t);
                    assert(entries(table@) =~= before.push(entry(t)));
                },
            }
        }
        i = i + 1;
    }
    assert(all.take(all.len() as int) =~= all);
    Ok(table)
}

// ---------------------------------------------------------------------------
// What the answers are
// ---------------------------------------------------------------------------

/// A rank is a number of 32 bits, read like any other number with a limit.
pub proof fn law_ranks_have_32_bits(word: &str, r: Result<u32, Fault>, n: Result<u64, Fault>)
    requires
        word@.len() > 0,
        call_ensures(parse_rank, (word,), r),
        call_ensures(parse_within, (word, 4_294_967_295), n),
    ensures
        r is Ok <==> n is Ok,
        r is Ok ==> r->Ok_0 == n->Ok_0,
        r is Err ==> r->Err_0 == n->Err_0,
{
    lemma_within(word@, u32::MAX as nat);
}

/// A line is a token where its bytes could be decoded and its rank read, and is the
/// token of these; else what is said of it names the file, the line and what went wrong
/// first, the bytes before the rank.
pub proof fn law_lines_are_tokens(
    n: usize,
    decoded: Result<Vec<u8>, String>,
    rank: &str,
    r: Result<Token, Unsupported>,
    number: Result<u32, Fault>,
    why: &'static str,
)
    requires
        rank@.len() > 0,
        call_ensures(token_of_line, (n, decoded, rank), r),
        call_ensures(parse_rank, (rank,), number),
        number is Err ==> call_ensures(Fault::as_str, (number->Err_0,), why),
    ensures
        decoded is Ok && number is Ok ==> r is Ok && r->Ok_0.bytes@ == decoded->Ok_0@ && r->Ok_0.rank
            == number->Ok_0,
        decoded is Err ==> r is Err && r->Err_0.0@ == "ranks.tiktoken:"@ + decimal(n as nat) + ": "@
            + decoded->Err_0@,
        decoded is Ok && number is Err ==> r is Err && r->Err_0.0@ == "ranks.tiktoken:"@ + decimal(
            n as nat,
        ) + ": "@ + why@,
{
}

/// A file without a line is a table without a token. One line more adds its token at the
/// end, if it holds a word, and changes nothing if it does not; a line with one word is
/// malformed, and a file that is refused stays refused for the same reason.
pub proof fn law_tables_grow_by_lines(
    raw: &str,
    more: &str,
    r: Result<Vec<Token>, Unsupported>,
    s: Result<Vec<Token>, Unsupported>,
    line: Seq<char>,
    decoded: Result<Vec<u8>, String>,
    n: usize,
    rank: &str,
    t: Result<Token, Unsupported>,
)
    requires
        call_ensures(parse_ranks, (raw,), r),
        call_ensures(parse_ranks, (more,), s),
        lines(more@) == lines(raw@).push(line),
        n == lines(raw@).len() + 1,
        words(line).len() >= 2 ==> {
            &&& decoded_of(decoded) == base64_bytes(words(line)[0])
            &&& rank@ == words(line)[1]
            &&& call_ensures(token_of_line, (n, decoded, rank), t)
        },
    ensures
        lines(raw@).len() == 0 ==> r is Ok && r->Ok_0@.len() == 0,
        r is Err ==> s is Err && s->Err_0.0@ == r->Err_0.0@,
        r is Ok && trimmed(line).len() == 0 ==> s is Ok && entries(s->Ok_0@) == entries(r->Ok_0@),
        r is Ok && trimmed(line).len() > 0 && words(line).len() < 2 ==> s is Err && s->Err_0.0@
            == "ranks.tiktoken:"@ + decimal(n as nat) + ": "@ + "malformed"@,
        r is Ok && trimmed(line).len() > 0 && words(line).len() >= 2 && t is Ok ==> s is Ok
            && entries(s->Ok_0@) == entries(r->Ok_0@).push((t->Ok_0.bytes@, t->Ok_0.rank)),
        r is Ok && trimmed(line).len() > 0 && words(line).len() >= 2 && t is Err ==> s is Err
            && s->Err_0.0@ == t->Err_0.0@,
{
    let (a, b) = (lines(raw@), lines(more@));
    assert(b.drop_last() =~= a);
    assert(b.last() == line);
    if words(line).len() >= 2 {
        crate::scan::law_words_are_solid(line);
        assert(is_token(t, line_token(n as nat, base64_bytes(words(line)[0]), words(line)[1])));
    }
    if a.len() == 0 {
        assert(entries(r->Ok_0@).len() == r->Ok_0@.len());
    }
}

}
