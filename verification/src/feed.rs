//! Buffers handed to C libraries: how large they are, what an answer means, and
//! when feeding a text is given up.

use vstd::arithmetic::power2::pow2;
use vstd::prelude::*;

verus! {

// ---------------------------------------------------------------------------
// Sizes
// ---------------------------------------------------------------------------

/// The larger of two numbers.
pub open spec fn larger(a: int, b: int) -> int {
    if a < b {
        b
    } else {
        a
    }
}

/// Whether `n` is the least power of two that is no less than `want`.
pub open spec fn is_power_above(n: nat, want: nat) -> bool {
    exists|e: nat| n == #[trigger] pow2(e) && want <= n && (e == 0 || n < 2 * want)
}

/// Powers of two on both sides of a number leave no other between.
pub proof fn law_one_power_above(a: nat, b: nat, want: nat)
    requires
        is_power_above(a, want),
        is_power_above(b, want),
    ensures
        a == b,
{
    let i = choose|e: nat| a == #[trigger] pow2(e) && want <= a && (e == 0 || a < 2 * want);
    let j = choose|e: nat| b == #[trigger] pow2(e) && want <= b && (e == 0 || b < 2 * want);
    vstd::arithmetic::power2::lemma2_to64();
    if i < j {
        lemma_doubles(i, j);
    }
    if j < i {
        lemma_doubles(j, i);
    }
}

proof fn lemma_doubles(i: nat, j: nat)
    requires
        i < j,
    ensures
        2 * pow2(i) <= pow2(j),
    decreases j,
{
    vstd::arithmetic::power2::lemma_pow2_unfold(j);
    if i + 1 < j {
        lemma_doubles(i, (j - 1) as nat);
        vstd::arithmetic::power2::lemma_pow2_pos((j - 1) as nat);
    }
}

/// The bytes of working space that a text asks for before rounding: three for
/// each of its bytes, and a page at least.
pub open spec fn transform_want(text_len: nat) -> nat {
    larger(3 * text_len as int, 4096) as nat
}

/// The size of the working space for a text: the least power of two that holds
/// what it asks for.
pub fn transform_size(text_len: usize) -> (n: usize)
    requires
        transform_want(text_len as nat) <= usize::MAX / 2 + 1,
    ensures
        is_power_above(n as nat, transform_want(text_len as nat)),
{
    let tripled: usize = text_len * 3;
    let want: usize = if tripled < 4096 {
        4096
    } else {
        tripled
    };
    let mut n: usize = 1;
    let ghost mut e: nat = 0;
    proof {
        vstd::arithmetic::power2::lemma2_to64();
    }
    while n < want
        invariant
            n == pow2(e),
            want >= 1,
            want <= usize::MAX / 2 + 1,
            e == 0 || n < 2 * want,
        decreases 2 * want - n,
    {
        proof {
            vstd::arithmetic::power2::lemma_pow2_unfold(e + 1);
            vstd::arithmetic::power2::lemma_pow2_pos(e);
            assert(n <= usize::MAX / 2);
            e = e + 1;
        }
        n = n * 2;
    }
    n
}

/// The spare ids a feed never starts with fewer than.
pub const LEAST_ROOM: usize = 256;

/// How many ids to reserve before a feed, if any: where fewer than the least
/// are spare, as many as there are, or half the text's bytes, or a thousand.
pub fn room_before_feed(len: usize, capacity: usize, text_len: usize) -> (r: Option<usize>)
    requires
        len <= capacity,
    ensures
        capacity - len >= LEAST_ROOM ==> r is None,
        capacity - len < LEAST_ROOM ==> r is Some && r->0 == larger(
            larger(len as int, text_len as int / 2),
            1024,
        ),
{
    if capacity - len >= LEAST_ROOM {
        return None;
    }
    let half: usize = text_len / 2;
    let mut want: usize = if len < half {
        half
    } else {
        len
    };
    if want < 1024 {
        want = 1024;
    }
    Some(want)
}

// ---------------------------------------------------------------------------
// Feeding
// ---------------------------------------------------------------------------

/// How far a text has been fed, and how many feeds in a row did nothing.
#[derive(Clone, Copy, Debug, PartialEq, Eq, Structural)]
pub struct Feeding {
    pub text_len: usize,
    pub consumed: usize,
    pub stalls: u32,
}

/// What comes after a feed.
#[derive(Clone, Copy, Debug, PartialEq, Eq, Structural)]
pub enum Fed {
    /// The text is given up, and its ids are dropped.
    GivenUp,
    /// Feeding goes on from here, with more room where nothing happened.
    On { feeding: Feeding, grow: bool },
}

impl Feeding {
    /// A text of which nothing was fed.
    pub open spec fn fresh(text_len: usize) -> Feeding {
        Feeding { text_len, consumed: 0, stalls: 0 }
    }

    pub open spec fn valid(self) -> bool {
        self.consumed <= self.text_len && self.stalls <= 2
    }

    pub fn start(text_len: usize) -> (f: Feeding)
        ensures
            f == Feeding::fresh(text_len),
            f.valid(),
    {
        Feeding { text_len, consumed: 0, stalls: 0 }
    }

    /// Whether the whole text was fed.
    pub fn done(&self) -> (r: bool)
        ensures
            r == (self.consumed >= self.text_len),
    {
        self.consumed >= self.text_len
    }

    /// What comes after a feed that failed or not, took `consumed` bytes and
    /// gave `produced` ids: an error gives the text up, and so does the third
    /// feed in a row that does nothing.
    pub open spec fn next(self, ok: bool, consumed: usize, produced: usize) -> Fed {
        if !ok {
            Fed::GivenUp
        } else if consumed == 0 && produced == 0 {
            if self.stalls >= 2 {
                Fed::GivenUp
            } else {
                Fed::On {
                    feeding: Feeding { stalls: (self.stalls + 1) as u32, ..self },
                    grow: true,
                }
            }
        } else {
            Fed::On {
                feeding: Feeding {
                    text_len: self.text_len,
                    consumed: (self.consumed + consumed) as usize,
                    stalls: 0,
                },
                grow: false,
            }
        }
    }

    /// `next`, computed.
    pub fn after_feed(self, ok: bool, consumed: usize, produced: usize) -> (r: Fed)
        requires
            self.valid(),
            consumed <= self.text_len - self.consumed,
        ensures
            r == self.next(ok, consumed, produced),
            r matches Fed::On { feeding, .. } ==> feeding.valid() && feeding.text_len
                == self.text_len,
    {
        if !ok {
            return Fed::GivenUp;
        }
        if consumed == 0 && produced == 0 {
            if self.stalls >= 2 {
                return Fed::GivenUp;
            }
            return Fed::On {
                feeding: Feeding {
                    text_len: self.text_len,
                    consumed: self.consumed,
                    stalls: self.stalls + 1,
                },
                grow: true,
            };
        }
        Fed::On {
            feeding: Feeding {
                text_len: self.text_len,
                consumed: self.consumed + consumed,
                stalls: 0,
            },
            grow: false,
        }
    }
}

/// Feeding never hangs on a library that does nothing: after two feeds in a row
/// without effect, a third gives the text up.
pub proof fn law_idle_feeds_end(feeding: Feeding)
    requires
        feeding.valid(),
        feeding.stalls == 0,
    ensures
        ({
            let first = feeding.next(true, 0, 0);
            let second = first->feeding.next(true, 0, 0);
            &&& first is On
            &&& second is On
            &&& second->feeding.consumed == feeding.consumed
            &&& second->feeding.next(true, 0, 0) == Fed::GivenUp
        }),
{
}

/// How many ids to reserve before the last call, if any.
pub fn room_before_finish(len: usize, capacity: usize, bound: usize) -> (r: Option<usize>)
    requires
        len <= capacity,
    ensures
        r == (if capacity - len < bound {
            Some(bound)
        } else {
            None
        }),
{
    if capacity - len < bound {
        Some(bound)
    } else {
        None
    }
}

// ---------------------------------------------------------------------------
// Answers in one call
// ---------------------------------------------------------------------------

/// What an answer means for the ids.
#[derive(Clone, Copy, Debug, PartialEq, Eq, Structural)]
pub enum Answer {
    /// No ids.
    Nothing,
    /// That many of the ids that were written.
    Take(usize),
    /// The buffer was too small: once more, with room for that many.
    Again(usize),
}

/// An answer of `llama_tokenize`: a count, or the negated count of ids that the
/// buffer lacked room for, which is asked for once.
pub fn llama_answer(n: i32, first: bool) -> (r: Answer)
    ensures
        n >= 0 ==> r == Answer::Take(n as usize),
        n < 0 && first ==> r == Answer::Again((-n) as usize),
        n < 0 && !first ==> r == Answer::Nothing,
{
    if n >= 0 {
        Answer::Take(n as usize)
    } else if first {
        let lacking: i64 = -(n as i64);
        Answer::Again(lacking as usize)
    } else {
        Answer::Nothing
    }
}

/// An answer that counts every id, written or not: a negative one is a failure,
/// and one beyond the buffer is asked for once more.
pub fn counted_answer(n: i64, capacity: usize, first: bool) -> (r: Answer)
    requires
        n <= usize::MAX,
    ensures
        n < 0 ==> r == Answer::Nothing,
        0 <= n <= capacity ==> r == Answer::Take(n as usize),
        n > capacity && first ==> r == Answer::Again(n as usize),
        n > capacity && !first ==> r == Answer::Nothing,
{
    if n < 0 {
        return Answer::Nothing;
    }
    let count: usize = n as usize;
    if count <= capacity {
        Answer::Take(count)
    } else if first {
        Answer::Again(count)
    } else {
        Answer::Nothing
    }
}

// ---------------------------------------------------------------------------
// What the answers are
// ---------------------------------------------------------------------------

/// The working space for a text is a power of two that holds three bytes for each of its
/// own, is a page at least, and is no larger than it must be.
pub proof fn law_working_space(text_len: usize, n: usize)
    requires
        3 * text_len <= usize::MAX / 2 + 1,
        call_ensures(transform_size, (text_len,), n),
    ensures
        exists|e: nat| n == #[trigger] pow2(e),
        n >= 3 * text_len,
        n >= 4096,
        n == 4096 || n < 2 * (3 * text_len),
{
    let want = transform_want(text_len as nat);
    let e = choose|e: nat|
        n as nat == #[trigger] pow2(e) && want <= n && (e == 0 || n < 2 * want);
    vstd::arithmetic::power2::lemma2_to64();
    assert(n == pow2(e));
    assert(e > 0);
    if 3 * text_len < 4096 {
        assert(is_power_above(4096, want)) by {
            assert(4096 == pow2(12));
        }
        law_one_power_above(n as nat, 4096, want);
    } else if want == 4096 {
        assert(n < 2 * (3 * text_len));
    }
}

/// Room is asked for only where fewer than 256 ids are spare, and then for as many as
/// there are already, as half the text's bytes, and as a thousand and twenty-four: for
/// the most of these.
pub proof fn law_room_before_a_feed(len: usize, capacity: usize, text_len: usize, r: Option<usize>)
    requires
        len <= capacity,
        call_ensures(room_before_feed, (len, capacity, text_len), r),
    ensures
        r is None <==> len + 256 <= capacity,
        r is Some ==> {
            let room = r->0;
            &&& room >= len && room >= text_len / 2 && room >= 1024
            &&& room == len || room == text_len / 2 || room == 1024
        },
{
}

/// Feeding starts with nothing fed, and is done when the whole text was: at once only
/// where there is no text.
pub proof fn law_feeding_starts(text_len: usize, f: Feeding, done: bool)
    requires
        call_ensures(Feeding::start, (text_len,), f),
        call_ensures(Feeding::done, (&f,), done),
    ensures
        f.text_len == text_len && f.consumed == 0 && f.stalls == 0,
        done <==> text_len == 0,
{
}

/// A feed that failed gives the text up. One that took or gave something counts what it
/// took and forgets the idle ones; one that did neither is counted as idle, makes room,
/// and gives the text up where two before it were idle.
pub proof fn law_feeds_are_counted(
    f: Feeding,
    ok: bool,
    consumed: usize,
    produced: usize,
    r: Fed,
    done: bool,
)
    requires
        f.valid(),
        consumed <= f.text_len - f.consumed,
        call_ensures(Feeding::after_feed, (f, ok, consumed, produced), r),
        r is On ==> call_ensures(Feeding::done, (&r->feeding,), done),
    ensures
        r == Fed::GivenUp <==> !ok || (consumed == 0 && produced == 0 && f.stalls == 2),
        r is On ==> r->feeding.text_len == f.text_len,
        r is On ==> r->feeding.consumed == f.consumed + consumed,
        r is On ==> (done <==> f.consumed + consumed == f.text_len),
        r is On && (consumed > 0 || produced > 0) ==> r->feeding.stalls == 0 && !r->grow,
        r is On && consumed == 0 && produced == 0 ==> r->feeding.stalls == f.stalls + 1 && r->grow,
{
}

/// The last call has room for as many ids as it may give: room is asked for where there
/// is less, and for that many.
pub proof fn law_room_before_the_last_call(len: usize, capacity: usize, bound: usize, r: Option<usize>)
    requires
        len <= capacity,
        call_ensures(room_before_finish, (len, capacity, bound), r),
    ensures
        r is None <==> len + bound <= capacity,
        r is Some ==> r->0 == bound,
{
}

/// An answer that is a count is taken. One that says how many ids there was no room for
/// is followed by a second call with that much room, and by no third.
pub proof fn law_answers_are_asked_for_twice(
    n: i32,
    first: bool,
    llama: Answer,
    m: i64,
    capacity: usize,
    counted: Answer,
)
    requires
        m <= usize::MAX,
        call_ensures(llama_answer, (n, first), llama),
        call_ensures(counted_answer, (m, capacity, first), counted),
    ensures
        llama is Take <==> n >= 0,
        llama is Take ==> llama->Take_0 == n,
        llama is Again <==> n < 0 && first,
        llama is Again ==> llama->Again_0 + n == 0,
        counted is Take <==> 0 <= m <= capacity,
        counted is Take ==> counted->Take_0 == m,
        counted is Again <==> m > capacity && first,
        counted is Again ==> counted->Again_0 == m,
{
}

}
