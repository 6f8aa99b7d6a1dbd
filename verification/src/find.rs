//! One bounded search over a run of packed bytes, written so that it can stop
//! between any two units and continue, and so that it allocates nothing on any
//! path.
use crate::factor;
use vstd::prelude::*;

verus! {

/// How many units one skip may step over: the eight a machine word holds.
pub const WINDOW: usize = 8;

/// A one in every unit of a machine word.
const ONES: u64 = 0x0101_0101_0101_0101;

/// The high bit of every unit of a machine word.
const HIGH: u64 = 0x8080_8080_8080_8080;

/// The unit in lane `k` of a machine word, least significant first.
pub open spec fn unit_of(word: u64, k: int) -> u8 {
    ((word >> ((8 * k) as u64)) & 0xFF) as u8
}

/// The lowest set bit of the word-wide zero test stands in a zero lane.
proof fn lemma_lowest_is_zero_lane(x: u64, y: u64, tz: u64)
    by (bit_vector)
    requires
        x >= 0x0101_0101_0101_0101u64 ==> y == x - 0x0101_0101_0101_0101u64,
        x < 0x0101_0101_0101_0101u64 ==> y == x - 0x0101_0101_0101_0101u64 + 0x1_0000_0000_0000_0000,
        tz < 64,
        ((y & !x & 0x8080_8080_8080_8080u64) >> tz) & 1u64 == 1u64,
        (y & !x & 0x8080_8080_8080_8080u64) & (((1u64 << tz) - 1) as u64) == 0,
    ensures
        tz % 8 == 7,
        (x >> ((tz - 7) as u64)) & 0xFFu64 == 0,
{
}

/// Below the lowest set bit of the word-wide zero test no lane is zero.
proof fn lemma_no_zero_lane_below(x: u64, y: u64, k: u64)
    by (bit_vector)
    requires
        x >= 0x0101_0101_0101_0101u64 ==> y == x - 0x0101_0101_0101_0101u64,
        x < 0x0101_0101_0101_0101u64 ==> y == x - 0x0101_0101_0101_0101u64 + 0x1_0000_0000_0000_0000,
        k < 8,
        (y & !x & 0x8080_8080_8080_8080u64) & ((0xFFFF_FFFF_FFFF_FFFFu64 >> ((56 - 8 * k) as u64))) == 0,
    ensures
        (x >> ((8 * k) as u64)) & 0xFFu64 != 0,
{
}

/// A lane of the exclusive-or is zero exactly where the lane held the unit
/// every lane was compared against.
proof fn lemma_lane_of_xor(word: u64, byte: u8, k: u64)
    requires
        k < 8,
    ensures
        ({
            let x = word ^ ((byte as u64) * 0x0101_0101_0101_0101u64) as u64;
            (x >> ((8 * k) as u64)) & 0xFFu64 == 0 <==> ((word >> ((8 * k) as u64)) & 0xFFu64) as u8
                == byte
        }),
{
    assert(({
        let x = word ^ ((byte as u64) * 0x0101_0101_0101_0101u64) as u64;
        (x >> ((8 * k) as u64)) & 0xFFu64 == 0 <==> ((word >> ((8 * k) as u64)) & 0xFFu64) as u8
            == byte
    })) by (bit_vector)
        requires
            k < 8,
    ;
}

/// Where `byte` first occurs in the low `take` units of `word`, which holds
/// eight units least-significant first.
///
/// The classic word-wide test: exclusive-or the word against `byte` repeated,
/// and a unit that matched is now zero. `(x - 0x01..01) & !x & 0x80..80` sets
/// the high bit of every zero unit, and of some units above one, because a
/// borrow runs upwards, but never of one below the lowest, so the lowest set
/// bit is the lowest match and is exact.
///
/// `take` is how many of the word's units are really the run's: a window at
/// the end of a haystack may be padded with anything, and a needle whose
/// critical unit is that padding would otherwise match it.
pub fn first_unit_at(word: u64, byte: u8, take: usize) -> (first: Option<usize>)
    requires
        1 <= take <= WINDOW,
    ensures
        match first {
            Some(ahead) => {
                &&& ahead < take
                &&& unit_of(word, ahead as int) == byte
                &&& forall|k: int| 0 <= k < ahead ==> #[trigger] unit_of(word, k) != byte
            },
            None => forall|k: int| 0 <= k < take ==> #[trigger] unit_of(word, k) != byte,
        },
{
    let x: u64 = word ^ ((byte as u64) * ONES);
    let y: u64 = x.wrapping_sub(ONES);
    let mut found: u64 = y & !x & HIGH;
    let ghost whole = found;
    if take < WINDOW {
        let shift: u64 = (take as u64) * 8;
        proof {
            assert(1u64 << shift >= 1) by (bit_vector)
                requires
                    shift < 64,
            ;
        }
        found = found & ((1u64 << shift) - 1);
    }
    proof {
        assert forall|k: int|
            0 <= k < take && (whole & (0xFFFF_FFFF_FFFF_FFFFu64 >> ((56 - 8 * k) as u64)))
                == 0 implies #[trigger] unit_of(word, k) != byte by {
            lemma_no_zero_lane_below(x, y, k as u64);
            lemma_lane_of_xor(word, byte, k as u64);
        }
    }
    if found == 0 {
        proof {
            assert forall|k: int| 0 <= k < take implies #[trigger] unit_of(word, k) != byte by {
                let t = take as u64;
                let l = k as u64;
                if take < WINDOW {
                    assert(whole & (0xFFFF_FFFF_FFFF_FFFFu64 >> ((56 - 8 * l) as u64)) == 0)
                        by (bit_vector)
                        requires
                            l < t,
                            t < 8,
                            whole & (((1u64 << ((t * 8) as u64)) - 1) as u64) == 0,
                    ;
                } else {
                    assert(whole & (0xFFFF_FFFF_FFFF_FFFFu64 >> ((56 - 8 * l) as u64)) == 0)
                        by (bit_vector)
                        requires
                            whole == 0,
                    ;
                }
            }
        }
        None
    } else {
        let zeros: u32 = found.trailing_zeros();
        let ahead: usize = (zeros / 8) as usize;
        proof {
            vstd::std_specs::bits::axiom_u64_trailing_zeros(found);
            let tz = zeros as u64;
            let t = take as u64;
            assert(found & (((1u64 << tz) - 1) as u64) == 0) by (bit_vector)
                requires
                    tz < 64,
                    found << ((64 - tz) as u64) == 0,
            ;
            if take < WINDOW {
                assert((whole >> tz) & 1u64 == 1u64 && whole & (((1u64 << tz) - 1) as u64) == 0
                    && tz < t * 8) by (bit_vector)
                    requires
                        0 < t < 8,
                        tz < 64,
                        found == whole & (((1u64 << ((t * 8) as u64)) - 1) as u64),
                        (found >> tz) & 1u64 == 1u64,
                        found & (((1u64 << tz) - 1) as u64) == 0,
                ;
            }
            lemma_lowest_is_zero_lane(x, y, tz);
            assert(tz - 7 == 8 * ahead);
            lemma_lane_of_xor(word, byte, ahead as u64);
            assert forall|k: int| 0 <= k < ahead implies #[trigger] unit_of(word, k) != byte by {
                let l = k as u64;
                assert(whole & (0xFFFF_FFFF_FFFF_FFFFu64 >> ((56 - 8 * l) as u64)) == 0)
                    by (bit_vector)
                    requires
                        tz < 64,
                        8 * l + 8 <= tz,
                        whole & (((1u64 << tz) - 1) as u64) == 0,
                ;
            }
        }
        Some(ahead)
    }
}

/// What a machine word read at `at` shows of a run: the units from `at` to the
/// end of the eight-unit block it lies in, as far as the run goes. What lies
/// past that may be anything.
pub open spec fn shows(word: u64, run: Seq<u8>, at: int) -> bool {
    forall|k: int|
        0 <= k < 8 - at % 8 && at + k < run.len() ==> #[trigger] unit_of(word, k) == run[at + k]
}

/// The units of `run` from `at` to the end of the eight-unit block it lies in,
/// least-significant first, and zero past the end of the run.
pub fn window_of(run: &[u8], at: usize) -> (word: u64)
    requires
        at <= run@.len(),
    ensures
        shows(word, run@, at as int),
        forall|k: int|
            0 <= k < 8 && (k >= 8 - at % 8 || at + k >= run@.len()) ==> #[trigger] unit_of(word, k)
                == 0,
{
    let block: usize = WINDOW - at % WINDOW;
    let rest: usize = run.len() - at;
    let take: usize = if block < rest {
        block
    } else {
        rest
    };
    let mut word: u64 = 0;
    let mut k: usize = 0;
    proof {
        assert forall|j: int| 0 <= j < 8 implies #[trigger] unit_of(word, j) == 0 by {
            let l = j as u64;
            assert(((0u64 >> ((8 * l) as u64)) & 0xFF) as u8 == 0) by (bit_vector);
        }
    }
    while k < take
        invariant
            take <= 8,
            at + take <= run@.len() <= usize::MAX,
            k <= take,
            forall|j: int| 0 <= j < k ==> #[trigger] unit_of(word, j) == run@[at + j],
            forall|j: int| k <= j < 8 ==> #[trigger] unit_of(word, j) == 0,
        decreases take - k,
    {
        let unit: u8 = run[at + k];
        let shift: u64 = (k as u64) * 8;
        let ghost before = word;
        word = word | ((unit as u64) << shift);
        proof {
            assert forall|j: int| 0 <= j < 8 implies #[trigger] unit_of(word, j) == (if j == k {
                unit
            } else {
                unit_of(before, j)
            }) by {
                let l = j as u64;
                let c = k as u64;
                let old_unit = unit_of(before, k as int);
                assert(((before >> ((8 * c) as u64)) & 0xFF) as u8 == old_unit);
                assert((((before | ((unit as u64) << shift)) >> ((8 * l) as u64)) & 0xFF) as u8 == (
                if l == c {
                    unit
                } else {
                    ((before >> ((8 * l) as u64)) & 0xFF) as u8
                })) by (bit_vector)
                    requires
                        l < 8,
                        c < 8,
                        shift == c * 8,
                        ((before >> ((8 * c) as u64)) & 0xFF) as u8 == 0,
                ;
            }
        }
        k = k + 1;
    }
    word
}

/// The needle stands at `i` in the haystack.
pub open spec fn occurs(haystack: Seq<u8>, needle: Seq<u8>, i: int) -> bool {
    &&& 0 <= i
    &&& i + needle.len() <= haystack.len()
    &&& forall|k: int| 0 <= k < needle.len() ==> #[trigger] haystack[i + k] == needle[k]
}

/// The needle stands nowhere from `from` up to `to`.
pub open spec fn absent(haystack: Seq<u8>, needle: Seq<u8>, from: int, to: int) -> bool {
    forall|i: int| from <= i < to ==> !#[trigger] occurs(haystack, needle, i)
}

/// What a search answers: the first place at or after `from` where the needle
/// stands, or -1 where there is none.
pub open spec fn is_answer(haystack: Seq<u8>, needle: Seq<u8>, from: int, answer: int) -> bool {
    ||| from <= answer && occurs(haystack, needle, answer) && absent(haystack, needle, from, answer)
    ||| answer == -1 && absent(haystack, needle, from, haystack.len() + 1int)
}

/// A search has one answer, so however its turns are sliced it gives the same
/// one.
pub proof fn one_answer(haystack: Seq<u8>, needle: Seq<u8>, from: int, a: int, b: int)
    requires
        0 <= from,
        is_answer(haystack, needle, from, a),
        is_answer(haystack, needle, from, b),
    ensures
        a == b,
{
}

/// `reader` answers the units of `run`, one at a time.
pub open spec fn reads_units<N: Fn(usize) -> u8>(reader: N, run: Seq<u8>) -> bool {
    &&& forall|i: usize| i < run.len() ==> #[trigger] call_requires(reader, (i,))
    &&& forall|i: usize, unit: u8|
        i < run.len() && #[trigger] call_ensures(reader, (i,), unit) ==> unit == run[i as int]
}

/// `reader` answers the units of `run` from `from` on, a block at a time. It
/// need not answer anything for what lies before.
pub open spec fn reads_windows<H: Fn(usize) -> u64>(reader: H, run: Seq<u8>, from: int) -> bool {
    &&& forall|i: usize| from <= i < run.len() ==> #[trigger] call_requires(reader, (i,))
    &&& forall|i: usize, word: u64|
        from <= i < run.len() && #[trigger] call_ensures(reader, (i,), word) ==> shows(
            word,
            run,
            i as int,
        )
}

/// What preparing a needle establishes about its critical position and the
/// shift a fully compared attempt makes.
pub open spec fn prepared(x: Seq<u8>, crit: int, period: int, periodic: bool) -> bool {
    &&& 0 <= crit < period <= x.len()
    &&& forall|s: int| 0 < s < period ==> !#[trigger] factor::local(x, crit, s)
    &&& if periodic {
        &&& crit + period <= x.len()
        &&& factor::repeats(x, 0, x.len() as int, period)
        &&& forall|s: int| s <= x.len() - crit && #[trigger] factor::local(x, crit, s) ==> s % period == 0
    } else {
        period > x.len() - crit
    }
}

/// Where a maximal-suffix scan has got to.
#[derive(Clone, Copy)]
struct Scan {
    /// The start of the best suffix found so far, which becomes the critical
    /// position.
    start: usize,
    /// The start of the candidate being compared against it.
    at: usize,
    /// How far into the two the comparison has got.
    offset: usize,
    /// The period of the best suffix found so far.
    period: usize,
}

impl Scan {
    fn new() -> (scan: Self)
        ensures
            scan.start == 0,
            scan.at == 1,
            scan.offset == 0,
            scan.period == 1,
    {
        Scan { start: 0, at: 1, offset: 0, period: 1 }
    }
}

/// Which of the matcher's four loops is running.
#[derive(Clone, Copy)]
enum Phase {
    /// A maximal-suffix scan. `greater` picks the order: the factorization
    /// needs the maximal suffix under each, and takes whichever has the later
    /// critical position.
    Suffix { greater: bool },
    /// Whether the needle's left half is what lies a period into it, tested a
    /// unit at a time from `at`.
    Periodic { at: usize },
    /// The right half of an attempt, `probe` rising towards the needle's end.
    Right,
    /// The left half of an attempt, `probe` falling towards what the previous
    /// attempt already established.
    Left,
}

/// How far a matcher has got and what it is carrying, between two stops.
///
/// It owns no memory: no table, no copy of either run. Both runs are read
/// through the two readers [`Matcher::run`] is handed.
pub struct Matcher {
    /// The needle's length in units.
    m: usize,
    /// The haystack's length in units.
    n: usize,
    /// Where the search was asked to begin.
    from: usize,
    /// Turns taken, which is exactly what the caller charges.
    turns: u64,
    phase: Phase,
    /// The maximal-suffix scan in flight.
    scan: Scan,
    /// The first order's answer, held while the second order runs.
    earlier: (usize, usize),
    /// The critical position: where an attempt begins comparing.
    crit: usize,
    /// The unit at the critical position, read once when preparation ends.
    head: u8,
    /// The shift a fully-compared attempt makes.
    period: usize,
    /// Whether the factorization is periodic, which is whether an attempt
    /// carries memory of the last one across its shift.
    periodic: bool,
    /// The offset in the haystack the current attempt is at.
    pos: usize,
    /// How far the current half has compared.
    probe: usize,
    /// How much of the needle the previous attempt already established.
    memory: usize,
    /// How often the haystack was read.
    looks: Ghost<int>,
}

impl Matcher {
    /// The needle's length.
    pub closed spec fn needle_len(self) -> int {
        self.m as int
    }

    /// The haystack's length.
    pub closed spec fn haystack_len(self) -> int {
        self.n as int
    }

    /// Where the search was asked to begin.
    pub closed spec fn begins_at(self) -> int {
        self.from as int
    }

    /// Turns taken so far.
    pub closed spec fn spent(self) -> int {
        self.turns as int
    }

    /// The most turns this search can take.
    pub open spec fn limit(self) -> int {
        5 * self.needle_len() + 2 * (self.haystack_len() - self.begins_at())
    }

    /// The needle is still being prepared.
    pub closed spec fn in_preparation(self) -> bool {
        self.phase is Suffix || self.phase is Periodic
    }

    /// How often the haystack was read.
    pub closed spec fn looks(self) -> int {
        self.looks@
    }

    /// The answer, once the search has come to it: there is no room left for the
    /// needle, or all of it has matched.
    pub closed spec fn settled(self) -> Option<int> {
        match self.phase {
            Phase::Right => if self.m > self.n - self.pos {
                Some(-1)
            } else {
                None
            },
            Phase::Left => if self.probe <= self.memory {
                Some(self.pos as int)
            } else {
                None
            },
            _ => None,
        }
    }

    /// The most turns a matcher that has got this far can have taken.
    spec fn ceiling(self) -> int {
        match self.phase {
            Phase::Suffix { greater } => (if greater {
                2 * self.m
            } else {
                0
            }) + self.scan.start + self.scan.at + self.scan.offset - 1,
            Phase::Periodic { at } => 4 * self.m + at,
            Phase::Right => 5 * self.m + (self.pos + self.probe - self.crit - self.from) + (self.pos
                - self.from),
            Phase::Left => 5 * self.m + (self.pos + self.m - self.probe - self.from) + (self.pos
                - self.from),
        }
    }

    /// The state is that of a search of `haystack` for `needle`.
    spec fn state(self, needle: Seq<u8>, haystack: Seq<u8>) -> bool {
        &&& needle.len() == self.m
        &&& haystack.len() == self.n
        &&& 0 < self.m
        &&& self.from + self.m <= self.n
        &&& self.n <= i64::MAX
        &&& self.limit() <= u64::MAX
        &&& match self.phase {
            Phase::Suffix { greater } => {
                &&& self.looks@ == 0
                &&& factor::scanned(
                    needle,
                    greater,
                    self.scan.start as int,
                    self.scan.at as int,
                    self.scan.offset as int,
                    self.scan.period as int,
                )
                &&& greater ==> factor::maximal_suffix(
                    needle,
                    false,
                    self.earlier.0 as int,
                    self.earlier.1 as int,
                )
            },
            Phase::Periodic { at } => {
                &&& self.looks@ == 0
                &&& factor::factored(needle, self.crit as int, self.period as int)
                &&& self.crit + self.period <= self.m
                &&& 0 < self.period
                &&& at <= self.crit
                &&& forall|i: int|
                    0 <= i < at ==> #[trigger] needle[i] == needle[self.period + i]
            },
            Phase::Right => {
                &&& self.attempting(needle, haystack)
                &&& self.crit <= self.probe <= self.m
                &&& self.memory <= self.probe
                &&& self.pos + self.probe - self.crit <= self.n
                &&& self.crit < self.probe ==> self.pos + self.probe <= self.n
                &&& forall|k: int|
                    self.crit <= k < self.probe ==> #[trigger] haystack[self.pos + k] == needle[k]
            },
            Phase::Left => {
                &&& self.attempting(needle, haystack)
                &&& self.pos + self.m <= self.n
                &&& self.probe <= self.crit
                &&& forall|k: int|
                    self.probe <= k < self.m ==> #[trigger] haystack[self.pos + k] == needle[k]
            },
        }
    }

    /// What holds of an attempt in either of its halves.
    spec fn attempting(self, needle: Seq<u8>, haystack: Seq<u8>) -> bool {
        &&& prepared(needle, self.crit as int, self.period as int, self.periodic)
        &&& self.head == needle[self.crit as int]
        &&& self.from <= self.pos <= self.n
        &&& self.memory <= self.m
        &&& self.pos + self.memory <= self.n
        &&& absent(haystack, needle, self.from as int, self.pos as int)
        &&& forall|k: int|
            0 <= k < self.memory ==> #[trigger] haystack[self.pos + k] == needle[k]
    }

    /// The matcher is part-way through a search of `haystack` for `needle`.
    pub closed spec fn searching(self, needle: Seq<u8>, haystack: Seq<u8>) -> bool {
        self.state(needle, haystack) && self.turns <= self.ceiling()
    }

    /// The matcher is part-way through a search of the two runs that the two
    /// readers read.
    pub open spec fn serves<N: Fn(usize) -> u8, H: Fn(usize) -> u64>(
        self,
        needle: N,
        haystack: H,
        x: Seq<u8>,
        h: Seq<u8>,
    ) -> bool {
        &&& self.searching(x, h)
        &&& reads_units(needle, x)
        &&& reads_windows(haystack, h, self.begins_at())
    }

    /// A run of so many turns over these two runs left the matcher like this and
    /// answered this: what was charged is what was done, all of it where there
    /// is no answer yet; and an answer is final, and is given again for nothing.
    pub open spec fn ran(
        self,
        after: Self,
        turns: u64,
        answer: Option<i64>,
        x: Seq<u8>,
        h: Seq<u8>,
    ) -> bool {
        &&& after.searching(x, h)
        &&& after.needle_len() == self.needle_len()
        &&& after.haystack_len() == self.haystack_len()
        &&& after.begins_at() == self.begins_at()
        &&& self.spent() <= after.spent() <= self.spent() + turns
        &&& match answer {
            Some(r) => is_answer(h, x, self.begins_at(), r as int) && after.settled() == Some(
                r as int,
            ),
            None => after.spent() == self.spent() + turns,
        }
        &&& self.settled() matches Some(r) ==> answer is Some && answer->0 == r && after.spent()
            == self.spent()
    }

    /// [`Matcher::serves`] without the count of turns.
    spec fn reading<N: Fn(usize) -> u8, H: Fn(usize) -> u64>(
        self,
        needle: N,
        haystack: H,
        x: Seq<u8>,
        h: Seq<u8>,
    ) -> bool {
        &&& self.state(x, h)
        &&& reads_units(needle, x)
        &&& reads_windows(haystack, h, self.begins_at())
    }

    /// The lengths, the start and the count of turns are as they were.
    spec fn same_search(self, other: Self) -> bool {
        &&& self.m == other.m
        &&& self.n == other.n
        &&& self.from == other.from
        &&& self.turns == other.turns
    }

    proof fn lemma_ceiling(self, needle: Seq<u8>, haystack: Seq<u8>)
        requires
            self.state(needle, haystack),
        ensures
            0 <= self.ceiling() <= self.limit(),
            self.in_preparation() ==> self.ceiling() <= 5 * self.m,
    {
    }

    /// A search of `n` units for `m` of them, beginning at `from`.
    ///
    /// The caller has already answered the two questions this has no phase
    /// for: an empty needle, and a needle longer than `n - from`.
    pub fn new(n: usize, m: usize, from: usize) -> (matcher: Self)
        requires
            0 < m,
            from <= n,
            m <= n - from,
            n <= i64::MAX,
            5 * m + 2 * (n - from) <= u64::MAX,
        ensures
            matcher.needle_len() == m,
            matcher.haystack_len() == n,
            matcher.begins_at() == from,
            matcher.spent() == 0,
            matcher.in_preparation(),
            matcher.looks() == 0,
            forall|needle: Seq<u8>, haystack: Seq<u8>|
                needle.len() == m && haystack.len() == n ==> #[trigger] matcher.searching(
                    needle,
                    haystack,
                ),
    {
        let matcher = Matcher {
            m,
            n,
            from,
            turns: 0,
            phase: Phase::Suffix { greater: false },
            scan: Scan::new(),
            earlier: (0, 1),
            crit: 0,
            head: 0,
            period: 1,
            periodic: false,
            pos: from,
            probe: 0,
            memory: 0,
            looks: Ghost(0),
        };
        proof {
            assert forall|needle: Seq<u8>, haystack: Seq<u8>|
                needle.len() == m && haystack.len() == n implies #[trigger] matcher.searching(
                needle,
                haystack,
            ) by {
                factor::lemma_scan_begins(needle, false);
            }
        }
        matcher
    }

    /// How much work this matcher has done, in the unit the caller charges: one
    /// per turn, and a turn is one comparison.
    pub fn charge(&self) -> (turns: u64)
        ensures
            turns == self.spent(),
    {
        self.turns
    }

    /// The most turns a search of these lengths can take: two maximal-suffix
    /// scans of at most `2m` turns each, a periodicity test of fewer than `m`,
    /// and `2(n - from)` comparisons of the search itself.
    pub fn bound(n: usize, m: usize, from: usize) -> (turns: u64)
        requires
            from <= n,
            5 * m + 2 * (n - from) <= u64::MAX,
        ensures
            turns == 5 * m + 2 * (n - from),
    {
        5 * (m as u64) + 2 * ((n - from) as u64)
    }

    /// Whether the needle is still being prepared.
    pub fn preparing(&self) -> (yes: bool)
        ensures
            yes == self.in_preparation(),
    {
        match self.phase {
            Phase::Suffix { .. } => true,
            Phase::Periodic { .. } => true,
            Phase::Right => false,
            Phase::Left => false,
        }
    }

    /// A scan of the needle under one order, as far as the turns go. It answers
    /// whether they ran out.
    fn suffix<N: Fn(usize) -> u8>(&mut self, greater: bool, left: &mut u64, needle: &N) -> (stopped:
        bool)
        requires
            old(self).phase == (Phase::Suffix { greater }),
            exists|x: Seq<u8>, h: Seq<u8>| #[trigger]
                old(self).state(x, h) && reads_units(*needle, x),
        ensures
            final(self).same_search(*old(self)),
            final(self).in_preparation(),
            forall|x: Seq<u8>, h: Seq<u8>| #[trigger]
                old(self).state(x, h) && reads_units(*needle, x) ==> final(self).state(x, h),
            *final(left) <= *old(left),
            *old(left) - *final(left) <= final(self).ceiling() - old(self).ceiling(),
            stopped ==> *final(left) == 0,
            !stopped ==> final(self).phase == (if greater {
                Phase::Periodic { at: 0 }
            } else {
                Phase::Suffix { greater: true }
            }),
    {
        let ghost (x0, h0) = choose|x: Seq<u8>, h: Seq<u8>| #[trigger]
            self.state(x, h) && reads_units(*needle, x);
        while self.scan.at + self.scan.offset < self.m
            invariant
                self.phase == (Phase::Suffix { greater }),
                self.same_search(*old(self)),
                self.state(x0, h0),
                reads_units(*needle, x0),
                forall|x: Seq<u8>, h: Seq<u8>| #[trigger]
                    old(self).state(x, h) && reads_units(*needle, x) ==> self.state(x, h),
                old(self).state(x0, h0),
                *left <= *old(left),
                *old(left) - *left <= self.ceiling() - old(self).ceiling(),
            decreases *left,
        {
            if *left == 0 {
                return true;
            }
            *left = *left - 1;
            let ghost before = *self;
            let ghost scan = self.scan;
            let a: u8 = (*needle)(self.scan.at + self.scan.offset);
            let b: u8 = (*needle)(self.scan.start + self.scan.offset);
            if a == b {
                // Through a repetition of the period so far.
                if self.scan.offset + 1 == self.scan.period {
                    self.scan.at = self.scan.at + self.scan.period;
                    self.scan.offset = 0;
                } else {
                    self.scan.offset = self.scan.offset + 1;
                }
            } else if (a < b) != greater {
                // The candidate is the smaller of the two in this order, so the
                // best suffix keeps its start and the whole prefix so far
                // becomes its period.
                self.scan.at = self.scan.at + self.scan.offset + 1;
                self.scan.offset = 0;
                self.scan.period = self.scan.at - self.scan.start;
            } else {
                // The candidate is the larger: start again from it.
                self.scan.start = self.scan.at;
                self.scan.at = self.scan.start + 1;
                self.scan.offset = 0;
                self.scan.period = 1;
            }
            proof {
                assert forall|x: Seq<u8>, h: Seq<u8>| #[trigger]
                    old(self).state(x, h) && reads_units(*needle, x) implies self.state(x, h) by {
                    assert(before.state(x, h));
                    let (start, at, offset, p) = (
                        scan.start as int,
                        scan.at as int,
                        scan.offset as int,
                        scan.period as int,
                    );
                    assert(x[at + offset] == a);
                    assert(x[start + offset] == b);
                    if a == b {
                        factor::lemma_scan_equal(x, greater, start, at, offset, p);
                    } else if (a < b) != greater {
                        factor::lemma_scan_lower(x, greater, start, at, offset, p);
                    } else {
                        factor::lemma_scan_higher(x, greater, start, at, offset, p);
                    }
                }
                assert(self.state(x0, h0));
            }
        }
        let ghost before = *self;
        proof {
            assert forall|x: Seq<u8>, h: Seq<u8>| #[trigger]
                old(self).state(x, h) && reads_units(*needle, x) implies factor::maximal_suffix(
                x,
                greater,
                before.scan.start as int,
                before.scan.period as int,
            ) by {
                assert(before.state(x, h));
                factor::lemma_scan_ends(
                    x,
                    greater,
                    before.scan.start as int,
                    before.scan.at as int,
                    before.scan.offset as int,
                    before.scan.period as int,
                );
            }
        }
        let found: (usize, usize) = (self.scan.start, self.scan.period);
        if greater {
            let (crit, period): (usize, usize) = if self.earlier.0 > found.0 {
                self.earlier
            } else {
                found
            };
            self.crit = crit;
            self.period = period;
            self.phase = Phase::Periodic { at: 0 };
            proof {
                assert forall|x: Seq<u8>, h: Seq<u8>| #[trigger]
                    old(self).state(x, h) && reads_units(*needle, x) implies self.state(x, h) by {
                    assert(before.state(x, h));
                    factor::lemma_later_is_critical(
                        x,
                        before.earlier.0 as int,
                        before.earlier.1 as int,
                        found.0 as int,
                        found.1 as int,
                    );
                }
            }
        } else {
            self.earlier = found;
            self.scan = Scan::new();
            self.phase = Phase::Suffix { greater: true };
            proof {
                assert forall|x: Seq<u8>, h: Seq<u8>| #[trigger]
                    old(self).state(x, h) && reads_units(*needle, x) implies self.state(x, h) by {
                    assert(before.state(x, h));
                    factor::lemma_scan_begins(x, true);
                }
            }
        }
        false
    }

    /// Begins an attempt at `pos`, carrying `memory` of the last one.
    ///
    /// The right half starts at the critical position, or at the memory where
    /// that is further in: a periodic needle whose previous attempt shifted by
    /// its period has already established everything before it.
    fn attempt(&mut self, pos: usize, memory: usize)
        ensures
            *final(self) == (Matcher {
                pos,
                memory,
                probe: if memory > old(self).crit {
                    memory
                } else {
                    old(self).crit
                },
                phase: Phase::Right,
                ..*old(self)
            }),
    {
        self.pos = pos;
        self.memory = memory;
        self.probe = if memory > self.crit {
            memory
        } else {
            self.crit
        };
        self.phase = Phase::Right;
    }

    /// What the periodicity test settles about the needle.
    #[verifier::spinoff_prover]
    #[verifier::rlimit(40)]
    proof fn lemma_prepared(x: Seq<u8>, crit: int, p: int, at: int)
        requires
            factor::factored(x, crit, p),
            0 < p,
            0 <= crit,
            crit + p <= x.len(),
            0 <= at <= crit,
            forall|i: int| 0 <= i < at ==> #[trigger] x[i] == x[p + i],
        ensures
            at == crit ==> prepared(x, crit, p, true),
            at < crit && x[at] != x[p + at] ==> prepared(
                x,
                crit,
                (if crit > x.len() - crit {
                    crit
                } else {
                    x.len() - crit
                }) + 1,
                false,
            ),
    {
        let m = x.len() as int;
        if at == crit {
            let (reversed, s2, p2) = choose|reversed: bool, s2: int, p2: int|
                factor::critical(x, reversed, crit, p, s2, p2);
            assert(factor::repeats(x, 0, m, p)) by {
                assert forall|i: int| 0 <= i && i + p < m implies #[trigger] x[i] == x[i + p] by {
                    if i < crit {
                        assert(x[i] == x[p + i]);
                    } else {
                        assert(factor::repeats(x, crit, m, p));
                    }
                }
            }
            factor::lemma_period_exceeds_left(x, crit, p);
            assert forall|s: int| s <= m - crit && #[trigger] factor::local(x, crit, s) implies s % p
                == 0 by {
                factor::lemma_local_is_multiple(x, crit, p, s);
            }
            assert forall|s: int| 0 < s < p implies !#[trigger] factor::local(x, crit, s) by {
                vstd::arithmetic::div_mod::lemma_small_mod(s as nat, p as nat);
            }
        } else if x[at] != x[p + at] {
            let period = (if crit > m - crit {
                crit
            } else {
                m - crit
            }) + 1;
            assert forall|s: int| 0 < s < period implies !#[trigger] factor::local(x, crit, s) by {
                factor::lemma_no_local(x, crit, p, s, at);
            }
        }
    }

    /// Whether the needle's left half is what lies one period into it. If it
    /// is, an attempt may remember what the last one matched across the shift;
    /// if it is not, the period is replaced by one past half the needle, which
    /// is what makes two attempts unable to overlap.
    fn periodicity<N: Fn(usize) -> u8>(&mut self, begin: usize, left: &mut u64, needle: &N) -> (stopped:
        bool)
        requires
            old(self).phase == (Phase::Periodic { at: begin }),
            exists|x: Seq<u8>, h: Seq<u8>| #[trigger]
                old(self).state(x, h) && reads_units(*needle, x),
        ensures
            final(self).same_search(*old(self)),
            forall|x: Seq<u8>, h: Seq<u8>| #[trigger]
                old(self).state(x, h) && reads_units(*needle, x) ==> final(self).state(x, h),
            *final(left) <= *old(left),
            *old(left) - *final(left) <= final(self).ceiling() - old(self).ceiling(),
            stopped ==> *final(left) == 0,
            stopped <==> final(self).in_preparation(),
            !stopped ==> final(self).phase == Phase::Right,
    {
        let ghost (x0, h0) = choose|x: Seq<u8>, h: Seq<u8>| #[trigger]
            self.state(x, h) && reads_units(*needle, x);
        let ghost begun = *self;
        let mut at: usize = begin;
        let mut periodic: bool = true;
        while at < self.crit
            invariant_except_break
                periodic,
            invariant
                *self == begun,
                begun == *old(self),
                self.phase == (Phase::Periodic { at: begin }),
                begin <= at <= self.crit,
                self.state(x0, h0),
                reads_units(*needle, x0),
                forall|x: Seq<u8>, h: Seq<u8>, i: int|
                    #![trigger begun.state(x, h), x[i]]
                    begun.state(x, h) && reads_units(*needle, x) && 0 <= i < at ==> x[i]
                        == x[self.period + i],
                *old(left) - *left == at - begin + (if periodic {
                    0int
                } else {
                    1
                }),
                *left <= *old(left),
            ensures
                periodic ==> at == self.crit,
                !periodic ==> at < self.crit && forall|x: Seq<u8>, h: Seq<u8>|
                    #[trigger] begun.state(x, h) && reads_units(*needle, x) ==> x[at as int]
                        != x[self.period + at],
            decreases self.crit - at,
        {
            if *left == 0 {
                self.phase = Phase::Periodic { at };
                return true;
            }
            *left = *left - 1;
            let a: u8 = (*needle)(at);
            let b: u8 = (*needle)(self.period + at);
            if a != b {
                periodic = false;
                break;
            }
            at = at + 1;
        }
        self.periodic = periodic;
        if !periodic {
            let right: usize = self.m - self.crit;
            self.period = (if self.crit > right {
                self.crit
            } else {
                right
            }) + 1;
        }
        self.head = (*needle)(self.crit);
        let from: usize = self.from;
        self.attempt(from, 0);
        proof {
            assert forall|x: Seq<u8>, h: Seq<u8>| #[trigger]
                old(self).state(x, h) && reads_units(*needle, x) implies self.state(x, h) by {
                assert(begun.state(x, h));
                Self::lemma_prepared(x, begun.crit as int, begun.period as int, at as int);
            }
        }
        false
    }

    /// A mismatch in the right half rules out every place up to the shift past
    /// it.
    proof fn lemma_right_mismatch(self, x: Seq<u8>, h: Seq<u8>)
        requires
            self.state(x, h),
            self.phase == Phase::Right,
            self.pos + self.m <= self.n,
            self.probe < self.m,
            h[self.pos + self.probe] != x[self.probe as int],
        ensures
            absent(h, x, self.from as int, self.pos + self.probe - self.crit + 1),
    {
        let (pos, probe, crit, m) = (
            self.pos as int,
            self.probe as int,
            self.crit as int,
            self.m as int,
        );
        assert forall|i: int| self.from <= i < pos + probe - crit + 1 implies !#[trigger] occurs(
            h,
            x,
            i,
        ) by {
            if i >= pos && occurs(h, x, i) {
                let s = i - pos;
                assert(h[i + (probe - s)] == x[probe - s]);
                assert(i + (probe - s) == pos + probe);
                if s > 0 {
                    assert(factor::local(x, crit, s)) by {
                        assert forall|k: int|
                            0 <= k < s && crit + k < m && crit - s + k >= 0 implies #[trigger] x[crit
                            + k] == x[crit - s + k] by {
                            assert(h[i + (crit - s + k)] == x[crit - s + k]);
                            assert(i + (crit - s + k) == pos + (crit + k));
                            assert(h[pos + (crit + k)] == x[crit + k]);
                        }
                    }
                    if self.periodic {
                        factor::lemma_repeats_multiple(
                            x,
                            0,
                            m,
                            self.period as int,
                            probe - s,
                            s,
                        );
                    }
                }
            }
        }
    }

    /// Units at the critical position that are not the needle's rule out the
    /// places they belong to.
    proof fn lemma_skip(self, x: Seq<u8>, h: Seq<u8>, ahead: int)
        requires
            self.state(x, h),
            self.phase == Phase::Right,
            0 <= ahead,
            self.pos + self.crit + ahead <= self.n,
            forall|k: int|
                0 <= k < ahead ==> #[trigger] h[self.pos + self.crit + k] != x[self.crit as int],
        ensures
            absent(h, x, self.from as int, self.pos + ahead),
    {
        assert forall|i: int| self.from <= i < self.pos + ahead implies !#[trigger] occurs(
            h,
            x,
            i,
        ) by {
            if i >= self.pos && occurs(h, x, i) {
                let k = i - self.pos;
                assert(h[i + self.crit] == x[self.crit as int]);
                assert(i + self.crit == self.pos + self.crit + k);
            }
        }
    }

    /// The right half, forwards from the critical position, one whole attempt
    /// after another. A mismatch shifts past the comparison that failed.
    ///
    /// It answers `Some` where there is nothing left to search, and otherwise
    /// stops where the turns ran out or where a right half matched whole.
    fn right<N: Fn(usize) -> u8, H: Fn(usize) -> u64>(
        &mut self,
        left: &mut u64,
        needle: &N,
        haystack: &H,
    ) -> (answer: Option<i64>)
        requires
            old(self).phase == Phase::Right,
            exists|x: Seq<u8>, h: Seq<u8>| #[trigger]
                old(self).reading(*needle, *haystack, x, h),
        ensures
            final(self).same_search(*old(self)),
            forall|x: Seq<u8>, h: Seq<u8>| #[trigger]
                old(self).reading(*needle, *haystack, x, h) ==> final(self).reading(
                    *needle,
                    *haystack,
                    x,
                    h,
                ) && (answer matches Some(r) ==> is_answer(h, x, old(self).from as int, r as int)),
            answer matches Some(r) ==> final(self).settled() == Some(r as int),
            old(self).settled() is Some ==> answer is Some && *final(self) == *old(self)
                && *final(left) == *old(left),
            *final(left) <= *old(left),
            *old(left) - *final(left) <= final(self).ceiling() - old(self).ceiling(),
            answer is None && *final(left) > 0 ==> final(self).phase == Phase::Left,
            final(self).phase == Phase::Left || final(self).phase == Phase::Right,
    {
        let ghost (x0, h0) = choose|x: Seq<u8>, h: Seq<u8>| #[trigger]
            self.reading(*needle, *haystack, x, h);
        loop
            invariant
                self.phase == Phase::Right,
                self.same_search(*old(self)),
                self.reading(*needle, *haystack, x0, h0),
                old(self).reading(*needle, *haystack, x0, h0),
                forall|x: Seq<u8>, h: Seq<u8>| #[trigger]
                    old(self).reading(*needle, *haystack, x, h) ==> self.reading(
                        *needle,
                        *haystack,
                        x,
                        h,
                    ),
                old(self).settled() is Some ==> *self == *old(self) && *left == *old(left),
                *left <= *old(left),
                *old(left) - *left <= self.ceiling() - old(self).ceiling(),
            decreases *left,
        {
            if self.m > self.n - self.pos {
                proof {
                    assert forall|x: Seq<u8>, h: Seq<u8>| #[trigger]
                        old(self).reading(*needle, *haystack, x, h) implies is_answer(
                        h,
                        x,
                        old(self).from as int,
                        -1,
                    ) by {
                        assert(self.reading(*needle, *haystack, x, h));
                    }
                }
                return Some(-1);
            }
            if *left == 0 {
                return None;
            }
            // The skip. An attempt begins by comparing the unit at the critical
            // position, so a position whose unit there is not the needle's
            // cannot match and may be stepped over, eight at a time with the
            // word-wide zero test rather than one at a time. Only where there
            // is no memory: a memory is a claim about this `pos`, and moving
            // `pos` would make it false.
            let mut skipped: bool = false;
            if self.memory == 0 && self.probe == self.crit {
                let at: usize = self.pos + self.crit;
                let window: u64 = (*haystack)(at);
                self.looks = Ghost(self.looks@ + 1);
                let low: u8 = (window & 0xFF) as u8;
                proof {
                    assert((window >> 0u64) == window) by (bit_vector);
                    assert(low == unit_of(window, 0));
                }
                if low != self.head {
                    let block: usize = WINDOW - at % WINDOW;
                    let rest: usize = self.n - at;
                    let near: usize = if block < rest {
                        block
                    } else {
                        rest
                    };
                    let take: usize = if *left < near as u64 {
                        *left as usize
                    } else {
                        near
                    };
                    let ahead: usize = match first_unit_at(window, self.head, take) {
                        Some(ahead) => ahead,
                        None => take,
                    };
                    proof {
                        if ahead == 0 {
                            assert(unit_of(window, 0) == self.head);
                        }
                    }
                    let ghost before = *self;
                    self.pos = self.pos + ahead;
                    *left = *left - ahead as u64;
                    skipped = true;
                    proof {
                        assert forall|x: Seq<u8>, h: Seq<u8>| #[trigger]
                            old(self).reading(*needle, *haystack, x, h) implies self.reading(
                            *needle,
                            *haystack,
                            x,
                            h,
                        ) by {
                            assert(before.reading(*needle, *haystack, x, h));
                            assert(shows(window, h, at as int));
                            assert forall|k: int| 0 <= k < ahead implies #[trigger] h[before.pos
                                + before.crit + k] != x[before.crit as int] by {
                                assert(unit_of(window, k) != before.head);
                                assert(unit_of(window, k) == h[at + k]);
                            }
                            before.lemma_skip(x, h, ahead as int);
                        }
                    }
                }
            }
            if !skipped {
                let mut matched: bool = true;
                let ghost entered = *self;
                let ghost had = *left;
                while self.probe < self.m
                    invariant_except_break
                        matched,
                    invariant
                        self.phase == Phase::Right,
                        self.same_search(*old(self)),
                        self.m <= self.n - self.pos,
                        self.reading(*needle, *haystack, x0, h0),
                        old(self).reading(*needle, *haystack, x0, h0),
                        forall|x: Seq<u8>, h: Seq<u8>| #[trigger]
                            old(self).reading(*needle, *haystack, x, h) ==> self.reading(
                                *needle,
                                *haystack,
                                x,
                                h,
                            ),
                        old(self).settled() is None,
                        *left <= had <= *old(left),
                        matched ==> *old(left) - *left <= self.ceiling() - old(self).ceiling(),
                        !matched ==> *old(left) - *left <= self.ceiling() - old(self).ceiling() + 1,
                        !matched ==> *left < had,
                        self.pos == entered.pos,
                        self.crit == entered.crit,
                        had > 0,
                        *left < had || self.probe == entered.probe,
                    ensures
                        matched ==> self.probe >= self.m,
                        !matched ==> self.probe < self.m && forall|x: Seq<u8>, h: Seq<u8>|
                            #[trigger] old(self).reading(*needle, *haystack, x, h) ==> h[self.pos
                                + self.probe] != x[self.probe as int],
                    decreases self.m - self.probe,
                {
                    if *left == 0 {
                        return None;
                    }
                    *left = *left - 1;
                    let a: u8 = (*needle)(self.probe);
                    let window: u64 = (*haystack)(self.pos + self.probe);
                    self.looks = Ghost(self.looks@ + 1);
                    let b: u8 = (window & 0xFF) as u8;
                    let ghost before = *self;
                    proof {
                        assert((window >> 0u64) == window) by (bit_vector);
                        assert(b == unit_of(window, 0));
                        assert forall|x: Seq<u8>, h: Seq<u8>| #[trigger]
                            old(self).reading(*needle, *haystack, x, h) implies x[before.probe as int]
                            == a && h[before.pos + before.probe] == b by {
                            assert(before.reading(*needle, *haystack, x, h));
                            assert(shows(window, h, before.pos + before.probe));
                        }
                    }
                    if a != b {
                        matched = false;
                        break;
                    }
                    self.probe = self.probe + 1;
                    proof {
                        assert forall|x: Seq<u8>, h: Seq<u8>| #[trigger]
                            old(self).reading(*needle, *haystack, x, h) implies self.reading(
                            *needle,
                            *haystack,
                            x,
                            h,
                        ) by {
                            assert(before.reading(*needle, *haystack, x, h));
                        }
                    }
                }
                let ghost before = *self;
                if matched {
                    self.probe = self.crit;
                    self.phase = Phase::Left;
                    proof {
                        assert forall|x: Seq<u8>, h: Seq<u8>| #[trigger]
                            old(self).reading(*needle, *haystack, x, h) implies self.reading(
                            *needle,
                            *haystack,
                            x,
                            h,
                        ) by {
                            assert(before.reading(*needle, *haystack, x, h));
                        }
                    }
                    return None;
                }
                let shift: usize = self.probe - self.crit + 1;
                let pos: usize = self.pos + shift;
                self.attempt(pos, 0);
                proof {
                    assert forall|x: Seq<u8>, h: Seq<u8>| #[trigger]
                        old(self).reading(*needle, *haystack, x, h) implies self.reading(
                        *needle,
                        *haystack,
                        x,
                        h,
                    ) by {
                        assert(before.reading(*needle, *haystack, x, h));
                        before.lemma_right_mismatch(x, h);
                    }
                }
            }
        }
    }

    /// A mismatch in the left half, under a right half that matched whole,
    /// rules out every place up to the period, and in the periodic case leaves
    /// what was matched standing at the next attempt.
    proof fn lemma_left_mismatch(self, x: Seq<u8>, h: Seq<u8>)
        requires
            self.state(x, h),
            self.phase == Phase::Left,
            self.memory < self.probe,
            h[self.pos + self.probe - 1] != x[self.probe - 1],
        ensures
            absent(h, x, self.from as int, self.pos + self.period),
            self.periodic ==> forall|k: int|
                0 <= k < self.m - self.period ==> #[trigger] h[self.pos + self.period + k] == x[k],
    {
        let (pos, crit, m, period) = (
            self.pos as int,
            self.crit as int,
            self.m as int,
            self.period as int,
        );
        assert forall|i: int| self.from <= i < pos + period implies !#[trigger] occurs(
            h,
            x,
            i,
        ) by {
            if i >= pos && occurs(h, x, i) {
                let s = i - pos;
                if s == 0 {
                    assert(h[i + (self.probe - 1)] == x[self.probe - 1]);
                    assert(i + (self.probe - 1) == self.pos + self.probe - 1);
                } else {
                    assert(factor::local(x, crit, s)) by {
                        assert forall|k: int|
                            0 <= k < s && crit + k < m && crit - s + k >= 0 implies #[trigger] x[crit
                            + k] == x[crit - s + k] by {
                            assert(h[i + (crit - s + k)] == x[crit - s + k]);
                            assert(i + (crit - s + k) == pos + (crit + k));
                            assert(h[pos + (crit + k)] == x[crit + k]);
                        }
                    }
                }
            }
        }
        if self.periodic {
            assert forall|k: int| 0 <= k < m - period implies #[trigger] h[self.pos + self.period + k]
                == x[k] by {
                assert(h[pos + (period + k)] == x[period + k]);
                assert(x[k] == x[k + period]);
                assert(pos + (period + k) == self.pos + self.period + k);
            }
        }
    }

    /// The left half, backwards from the critical position, and it stops at
    /// what the previous attempt established rather than comparing it again.
    ///
    /// It answers `Some` where the whole needle matched, and otherwise stops
    /// where the turns ran out or where the next attempt begins.
    fn left_half<N: Fn(usize) -> u8, H: Fn(usize) -> u64>(
        &mut self,
        left: &mut u64,
        needle: &N,
        haystack: &H,
    ) -> (answer: Option<i64>)
        requires
            old(self).phase == Phase::Left,
            exists|x: Seq<u8>, h: Seq<u8>| #[trigger]
                old(self).reading(*needle, *haystack, x, h),
        ensures
            final(self).same_search(*old(self)),
            forall|x: Seq<u8>, h: Seq<u8>| #[trigger]
                old(self).reading(*needle, *haystack, x, h) ==> final(self).reading(
                    *needle,
                    *haystack,
                    x,
                    h,
                ) && (answer matches Some(r) ==> is_answer(h, x, old(self).from as int, r as int)),
            answer matches Some(r) ==> final(self).settled() == Some(r as int),
            old(self).settled() is Some ==> answer is Some && *final(self) == *old(self)
                && *final(left) == *old(left),
            *final(left) <= *old(left),
            *old(left) - *final(left) <= final(self).ceiling() - old(self).ceiling(),
            answer is None && *final(left) > 0 ==> *final(left) < *old(left),
            final(self).phase == Phase::Left || final(self).phase == Phase::Right,
    {
        let ghost (x0, h0) = choose|x: Seq<u8>, h: Seq<u8>| #[trigger]
            self.reading(*needle, *haystack, x, h);
        while self.memory < self.probe
            invariant
                self.phase == Phase::Left,
                self.same_search(*old(self)),
                self.reading(*needle, *haystack, x0, h0),
                old(self).reading(*needle, *haystack, x0, h0),
                forall|x: Seq<u8>, h: Seq<u8>| #[trigger]
                    old(self).reading(*needle, *haystack, x, h) ==> self.reading(
                        *needle,
                        *haystack,
                        x,
                        h,
                    ),
                old(self).settled() is Some ==> *self == *old(self) && *left == *old(left),
                *left <= *old(left),
                *old(left) - *left <= self.ceiling() - old(self).ceiling(),
            decreases self.probe,
        {
            if *left == 0 {
                return None;
            }
            *left = *left - 1;
            let ghost before = *self;
            let a: u8 = (*needle)(self.probe - 1);
            let window: u64 = (*haystack)(self.pos + self.probe - 1);
            self.looks = Ghost(self.looks@ + 1);
            let b: u8 = (window & 0xFF) as u8;
            proof {
                assert((window >> 0u64) == window) by (bit_vector);
                assert(b == unit_of(window, 0));
                assert forall|x: Seq<u8>, h: Seq<u8>| #[trigger]
                    old(self).reading(*needle, *haystack, x, h) implies x[before.probe - 1] == a
                    && h[before.pos + before.probe - 1] == b by {
                    assert(before.reading(*needle, *haystack, x, h));
                    assert(shows(window, h, before.pos + before.probe - 1));
                }
            }
            if a == b {
                self.probe = self.probe - 1;
                proof {
                    assert forall|x: Seq<u8>, h: Seq<u8>| #[trigger]
                        old(self).reading(*needle, *haystack, x, h) implies self.reading(
                        *needle,
                        *haystack,
                        x,
                        h,
                    ) by {
                        assert(before.reading(*needle, *haystack, x, h));
                    }
                }
            } else {
                let memory: usize = if self.periodic {
                    self.m - self.period
                } else {
                    0
                };
                let pos: usize = self.pos + self.period;
                self.attempt(pos, memory);
                proof {
                    assert forall|x: Seq<u8>, h: Seq<u8>| #[trigger]
                        old(self).reading(*needle, *haystack, x, h) implies self.reading(
                        *needle,
                        *haystack,
                        x,
                        h,
                    ) by {
                        assert(before.reading(*needle, *haystack, x, h));
                        before.lemma_left_mismatch(x, h);
                    }
                    assert(before.reading(*needle, *haystack, x0, h0));
                }
                return None;
            }
        }
        proof {
            assert forall|x: Seq<u8>, h: Seq<u8>| #[trigger]
                old(self).reading(*needle, *haystack, x, h) implies is_answer(
                h,
                x,
                old(self).from as int,
                self.pos as int,
            ) by {
                assert(self.reading(*needle, *haystack, x, h));
                assert(occurs(h, x, self.pos as int));
            }
        }
        Some(self.pos as i64)
    }

    /// [`Matcher::run`] with the budget in hand, so that every exit charges
    /// through one place.
    fn step<N: Fn(usize) -> u8, H: Fn(usize) -> u64>(
        &mut self,
        left: &mut u64,
        needle: &N,
        haystack: &H,
    ) -> (answer: Option<i64>)
        requires
            exists|x: Seq<u8>, h: Seq<u8>| #[trigger]
                old(self).reading(*needle, *haystack, x, h),
        ensures
            final(self).same_search(*old(self)),
            forall|x: Seq<u8>, h: Seq<u8>| #[trigger]
                old(self).reading(*needle, *haystack, x, h) ==> final(self).reading(
                    *needle,
                    *haystack,
                    x,
                    h,
                ) && (answer matches Some(r) ==> is_answer(h, x, old(self).from as int, r as int)),
            answer matches Some(r) ==> final(self).settled() == Some(r as int),
            old(self).settled() is Some ==> answer is Some && *final(self) == *old(self)
                && *final(left) == *old(left),
            *final(left) <= *old(left),
            *old(left) - *final(left) <= final(self).ceiling() - old(self).ceiling(),
            answer is None ==> *final(left) == 0,
    {
        let ghost (x0, h0) = choose|x: Seq<u8>, h: Seq<u8>| #[trigger]
            self.reading(*needle, *haystack, x, h);
        loop
            invariant
                self.same_search(*old(self)),
                self.reading(*needle, *haystack, x0, h0),
                old(self).reading(*needle, *haystack, x0, h0),
                forall|x: Seq<u8>, h: Seq<u8>| #[trigger]
                    old(self).reading(*needle, *haystack, x, h) ==> self.reading(
                        *needle,
                        *haystack,
                        x,
                        h,
                    ),
                old(self).settled() is Some ==> *self == *old(self) && *left == *old(left),
                *left <= *old(left),
                *old(left) - *left <= self.ceiling() - old(self).ceiling(),
            decreases
                    *left,
                    (match self.phase {
                        Phase::Suffix { greater } => if greater {
                            3int
                        } else {
                            4
                        },
                        Phase::Periodic { .. } => 2,
                        Phase::Right => 1,
                        Phase::Left => 0,
                    }),
        {
            let ghost before = *self;
            proof {
                assert(before.state(x0, h0) && reads_units(*needle, x0));
            }
            match self.phase {
                Phase::Suffix { greater } => {
                    if self.suffix(greater, left, needle) {
                        proof {
                            assert forall|x: Seq<u8>, h: Seq<u8>| #[trigger]
                                old(self).reading(*needle, *haystack, x, h) implies self.reading(
                                *needle,
                                *haystack,
                                x,
                                h,
                            ) by {
                                assert(before.reading(*needle, *haystack, x, h));
                                assert(before.state(x, h));
                            }
                        }
                        return None;
                    }
                },
                Phase::Periodic { at } => {
                    if self.periodicity(at, left, needle) {
                        proof {
                            assert forall|x: Seq<u8>, h: Seq<u8>| #[trigger]
                                old(self).reading(*needle, *haystack, x, h) implies self.reading(
                                *needle,
                                *haystack,
                                x,
                                h,
                            ) by {
                                assert(before.reading(*needle, *haystack, x, h));
                                assert(before.state(x, h));
                            }
                        }
                        return None;
                    }
                },
                Phase::Right => {
                    let answer = self.right(left, needle, haystack);
                    proof {
                        assert forall|x: Seq<u8>, h: Seq<u8>| #[trigger]
                            old(self).reading(*needle, *haystack, x, h) implies self.reading(
                            *needle,
                            *haystack,
                            x,
                            h,
                        ) && (answer matches Some(r) ==> is_answer(
                            h,
                            x,
                            old(self).from as int,
                            r as int,
                        )) by {
                            assert(before.reading(*needle, *haystack, x, h));
                        }
                    }
                    if answer.is_some() || *left == 0 {
                        return answer;
                    }
                },
                Phase::Left => {
                    let answer = self.left_half(left, needle, haystack);
                    proof {
                        assert forall|x: Seq<u8>, h: Seq<u8>| #[trigger]
                            old(self).reading(*needle, *haystack, x, h) implies self.reading(
                            *needle,
                            *haystack,
                            x,
                            h,
                        ) && (answer matches Some(r) ==> is_answer(
                            h,
                            x,
                            old(self).from as int,
                            r as int,
                        )) by {
                            assert(before.reading(*needle, *haystack, x, h));
                        }
                    }
                    if answer.is_some() || *left == 0 {
                        return answer;
                    }
                },
            }
            proof {
                assert forall|x: Seq<u8>, h: Seq<u8>| #[trigger]
                    old(self).reading(*needle, *haystack, x, h) implies self.reading(
                    *needle,
                    *haystack,
                    x,
                    h,
                ) by {
                    assert(before.reading(*needle, *haystack, x, h));
                    assert(before.state(x, h));
                }
            }
        }
    }

    /// Takes at most `turns` turns and answers the search's answer once it has
    /// one.
    ///
    /// `None` means the budget ran out with the matcher part-way through: the
    /// caller charges what was done, polls, and calls this again. `Some` is
    /// final: an absolute unit offset into the haystack, or -1.
    ///
    /// `needle` answers one unit. `haystack` answers the units from a position
    /// to the end of the eight-unit block it lies in, least significant first.
    /// What lies past the run's own length may be anything; the skip masks it
    /// off and a comparison never looks past the low unit.
    pub fn run<N: Fn(usize) -> u8, H: Fn(usize) -> u64>(
        &mut self,
        turns: u64,
        needle: N,
        haystack: H,
    ) -> (answer: Option<i64>)
        requires
            exists|x: Seq<u8>, h: Seq<u8>| #[trigger] old(self).serves(needle, haystack, x, h),
        ensures
            forall|x: Seq<u8>, h: Seq<u8>| #[trigger]
                old(self).serves(needle, haystack, x, h) ==> old(self).ran(
                    *final(self),
                    turns,
                    answer,
                    x,
                    h,
                ),
            final(self).spent() <= final(self).limit(),
            answer is None ==> final(self).spent() == old(self).spent() + turns,
            old(self).spent() + turns > old(self).limit() ==> answer is Some,
    {
        let ghost (x0, h0) = choose|x: Seq<u8>, h: Seq<u8>| #[trigger]
            self.serves(needle, haystack, x, h);
        let mut left: u64 = turns;
        proof {
            assert(self.reading(needle, haystack, x0, h0));
        }
        let answer = self.step(&mut left, &needle, &haystack);
        proof {
            assert(old(self).reading(needle, haystack, x0, h0));
            assert(self.reading(needle, haystack, x0, h0));
            self.lemma_ceiling(x0, h0);
        }
        let ghost before = *self;
        self.turns = self.turns + (turns - left);
        proof {
            assert forall|x: Seq<u8>, h: Seq<u8>| #[trigger]
                old(self).serves(needle, haystack, x, h) implies old(self).ran(
                *self,
                turns,
                answer,
                x,
                h,
            ) by {
                assert(old(self).reading(needle, haystack, x, h));
                assert(before.reading(needle, haystack, x, h));
            }
        }
        answer
    }

    /// A search is charged within its bound, and preparing the needle is
    /// charged within `5m` whatever the haystack is.
    pub proof fn charged_within_bound(self, needle: Seq<u8>, haystack: Seq<u8>)
        requires
            self.searching(needle, haystack),
        ensures
            self.spent() <= self.limit(),
            self.spent() <= 5 * self.needle_len() + 2 * (self.haystack_len() - self.begins_at()),
            self.in_preparation() ==> self.spent() <= 5 * self.needle_len(),
    {
        self.lemma_ceiling(needle, haystack);
    }

    /// The haystack is not read while the needle is being prepared.
    pub proof fn the_haystack_is_not_read_while_preparing(
        self,
        needle: Seq<u8>,
        haystack: Seq<u8>,
    )
        requires
            self.searching(needle, haystack),
            self.in_preparation(),
        ensures
            self.looks() == 0,
    {
    }

    /// Preparing a needle does not depend on the haystack: what is part-way
    /// through preparing for one haystack is part-way through preparing for
    /// every other of the same length.
    pub proof fn preparation_ignores_the_haystack(
        self,
        needle: Seq<u8>,
        haystack: Seq<u8>,
        other: Seq<u8>,
    )
        requires
            self.searching(needle, haystack),
            self.in_preparation(),
            other.len() == haystack.len(),
        ensures
            self.searching(needle, other),
    {
    }
}

/// The turns of some runs together.
pub open spec fn all_turns(turns: Seq<u64>) -> int
    decreases turns.len(),
{
    if turns.len() == 0 {
        0
    } else {
        all_turns(turns.drop_last()) + turns.last()
    }
}

/// A search taken up again and again, with these turns each time: how it stood
/// before each run and after the last, and what each run answered.
pub open spec fn in_runs(
    states: Seq<Matcher>,
    turns: Seq<u64>,
    answers: Seq<Option<i64>>,
    x: Seq<u8>,
    h: Seq<u8>,
) -> bool {
    &&& states.len() == turns.len() + 1
    &&& answers.len() == turns.len()
    &&& states[0].searching(x, h)
    &&& forall|i: int|
        0 <= i < turns.len() ==> (#[trigger] states[i]).ran(
            states[i + 1],
            turns[i],
            answers[i],
            x,
            h,
        )
}

proof fn lemma_in_runs(
    states: Seq<Matcher>,
    turns: Seq<u64>,
    answers: Seq<Option<i64>>,
    x: Seq<u8>,
    h: Seq<u8>,
)
    requires
        in_runs(states, turns, answers, x, h),
    ensures
        states.last().searching(x, h),
        states.last().limit() == states[0].limit(),
        states.last().begins_at() == states[0].begins_at(),
        states[0].spent() <= states.last().spent() <= states[0].spent() + all_turns(turns),
        (forall|i: int| 0 <= i < answers.len() ==> #[trigger] answers[i] is None)
            ==> states.last().spent() == states[0].spent() + all_turns(turns),
        forall|i: int|
            0 <= i < answers.len() && (#[trigger] answers[i]) is Some ==> is_answer(
                h,
                x,
                states[0].begins_at(),
                answers[i]->0 as int,
            ),
    decreases turns.len(),
{
    if turns.len() > 0 {
        let n = turns.len() - 1;
        let fewer = states.drop_last();
        assert forall|i: int| 0 <= i < n implies (#[trigger] fewer[i]).ran(
            fewer[i + 1],
            turns.drop_last()[i],
            answers.drop_last()[i],
            x,
            h,
        ) by {
            assert(states[i].ran(states[i + 1], turns[i], answers[i], x, h));
        }
        lemma_in_runs(fewer, turns.drop_last(), answers.drop_last(), x, h);
        assert(fewer.last() == states[n]);
        assert(states[n].ran(states[n + 1], turns[n], answers[n], x, h));
        assert forall|i: int|
            0 <= i < answers.len() && (#[trigger] answers[i]) is Some implies is_answer(
            h,
            x,
            states[0].begins_at(),
            answers[i]->0 as int,
        ) by {
            if i < n {
                assert(answers.drop_last()[i] == answers[i]);
            }
        }
        if forall|i: int| 0 <= i < answers.len() ==> #[trigger] answers[i] is None {
            assert forall|i: int| 0 <= i < n implies #[trigger] answers.drop_last()[i] is None by {
                assert(answers[i] is None);
            }
            assert(answers[n] is None);
        }
    }
}

/// However a search is divided into runs, what they answer is one answer, they
/// are charged no more than their turns and never past the bound, and enough
/// turns always come to the answer.
pub proof fn the_answer_does_not_depend_on_the_runs(
    states: Seq<Matcher>,
    turns: Seq<u64>,
    answers: Seq<Option<i64>>,
    x: Seq<u8>,
    h: Seq<u8>,
)
    requires
        in_runs(states, turns, answers, x, h),
    ensures
        forall|i: int|
            0 <= i < answers.len() && (#[trigger] answers[i]) is Some ==> is_answer(
                h,
                x,
                states[0].begins_at(),
                answers[i]->0 as int,
            ),
        states[0].spent() <= states.last().spent() <= states[0].spent() + all_turns(turns),
        states.last().spent() <= states[0].limit(),
        states[0].spent() + all_turns(turns) > states[0].limit() ==> exists|i: int|
            0 <= i < answers.len() && (#[trigger] answers[i]) is Some,
{
    lemma_in_runs(states, turns, answers, x, h);
    states.last().charged_within_bound(x, h);
}

/// An answer is final: every run after it gives it again, and is charged
/// nothing.
pub proof fn an_answer_is_final(
    states: Seq<Matcher>,
    turns: Seq<u64>,
    answers: Seq<Option<i64>>,
    x: Seq<u8>,
    h: Seq<u8>,
    i: int,
    j: int,
)
    requires
        in_runs(states, turns, answers, x, h),
        0 <= i < j < answers.len(),
        answers[i] is Some,
    ensures
        answers[j] == answers[i],
        states[j + 1].spent() == states[i + 1].spent(),
        states[j + 1].settled() == Some(answers[i]->0 as int),
    decreases j,
{
    assert(states[i].ran(states[i + 1], turns[i], answers[i], x, h));
    assert(states[j].ran(states[j + 1], turns[j], answers[j], x, h));
    if i < j - 1 {
        an_answer_is_final(states, turns, answers, x, h, i, j - 1);
    }
}

/// The same search over two slices, run to its answer in one call.
///
/// It is [`Matcher`] rather than a second algorithm, so a stepped search and
/// this one cannot come to disagree.
pub fn find_bytes(haystack: &[u8], needle: &[u8], from: usize) -> (answer: i64)
    requires
        from <= haystack@.len() <= i64::MAX,
        5 * needle@.len() + 2 * (haystack@.len() - from) < u64::MAX,
    ensures
        is_answer(haystack@, needle@, from as int, answer as int),
{
    if needle.len() == 0 {
        assert(occurs(haystack@, needle@, from as int));
        return from as i64;
    }
    if needle.len() > haystack.len() - from {
        return -1;
    }
    let mut matcher = Matcher::new(haystack.len(), needle.len(), from);
    let unit = |at: usize| -> (unit: u8)
        requires
            at < needle@.len(),
        ensures
            unit == needle@[at as int],
        { needle[at] };
    let window = |at: usize| -> (word: u64)
        requires
            from <= at < haystack@.len(),
        ensures
            shows(word, haystack@, at as int),
        { window_of(haystack, at) };
    proof {
        assert(matcher.serves(unit, window, needle@, haystack@));
    }
    let answer = matcher.run(u64::MAX, unit, window);
    match answer {
        Some(found) => found,
        None => -1,
    }
}

/// What a search answers is the first place at or after where it begins from
/// which the haystack reads as the needle does, and -1 just when there is none.
pub proof fn an_answer_is_the_first_place_that_reads_as_the_needle(
    haystack: Seq<u8>,
    needle: Seq<u8>,
    from: int,
    answer: int,
)
    requires
        0 <= from,
    ensures
        is_answer(haystack, needle, from, answer) <==> {
            ||| {
                &&& from <= answer
                &&& answer + needle.len() <= haystack.len()
                &&& haystack.subrange(answer, answer + needle.len()) == needle
                &&& forall|i: int|
                    from <= i < answer ==> #[trigger] haystack.subrange(i, i + needle.len())
                        != needle
            }
            ||| {
                &&& answer == -1
                &&& forall|i: int|
                    from <= i && i + needle.len() <= haystack.len()
                        ==> #[trigger] haystack.subrange(i, i + needle.len()) != needle
            }
        },
{
    assert forall|i: int|
        0 <= i && i + needle.len() <= haystack.len() implies (#[trigger] occurs(
        haystack,
        needle,
        i,
    ) <==> haystack.subrange(i, i + needle.len()) == needle) by {
        let part = haystack.subrange(i, i + needle.len());
        if occurs(haystack, needle, i) {
            assert forall|k: int| 0 <= k < needle.len() implies part[k] == needle[k] by {
                assert(haystack[i + k] == needle[k]);
            }
            assert(part =~= needle);
        }
        if part == needle {
            assert forall|k: int| 0 <= k < needle.len() implies #[trigger] haystack[i + k]
                == needle[k] by {
                assert(part[k] == needle[k]);
            }
        }
    }
    if from <= answer && answer + needle.len() <= haystack.len() {
        assert(occurs(haystack, needle, answer) <==> haystack.subrange(
            answer,
            answer + needle.len(),
        ) == needle);
        if absent(haystack, needle, from, answer) {
            assert forall|i: int| from <= i < answer implies #[trigger] haystack.subrange(
                i,
                i + needle.len(),
            ) != needle by {
                assert(!occurs(haystack, needle, i));
            }
        } else {
            let i = choose|i: int| from <= i < answer && #[trigger] occurs(haystack, needle, i);
            assert(haystack.subrange(i, i + needle.len()) == needle);
        }
    }
    if absent(haystack, needle, from, haystack.len() + 1int) {
        assert forall|i: int|
            from <= i && i + needle.len() <= haystack.len() implies #[trigger] haystack.subrange(
            i,
            i + needle.len(),
        ) != needle by {
            assert(!occurs(haystack, needle, i));
        }
    } else {
        let i = choose|i: int|
            from <= i < haystack.len() + 1 && #[trigger] occurs(haystack, needle, i);
        assert(haystack.subrange(i, i + needle.len()) == needle);
    }
}

/// The units of a machine word make it up, the first counting ones, the next
/// 256s, and so on.
pub proof fn a_word_is_made_up_of_its_units(word: u64)
    ensures
        word == unit_of(word, 0) + 0x100 * unit_of(word, 1) + 0x1_0000 * unit_of(word, 2)
            + 0x100_0000 * unit_of(word, 3) + 0x1_0000_0000 * unit_of(word, 4) + 0x100_0000_0000
            * unit_of(word, 5) + 0x1_0000_0000_0000 * unit_of(word, 6) + 0x100_0000_0000_0000
            * unit_of(word, 7),
{
    assert(word == ((word >> 0u64) & 0xFF) as u8 + 0x100 * (((word >> 8u64) & 0xFF) as u8)
        + 0x1_0000 * (((word >> 16u64) & 0xFF) as u8) + 0x100_0000 * (((word >> 24u64)
        & 0xFF) as u8) + 0x1_0000_0000 * (((word >> 32u64) & 0xFF) as u8) + 0x100_0000_0000 * (((
    word >> 40u64) & 0xFF) as u8) + 0x1_0000_0000_0000 * (((word >> 48u64) & 0xFF) as u8)
        + 0x100_0000_0000_0000 * (((word >> 56u64) & 0xFF) as u8)) by (bit_vector);
}

} // verus!
