//! Periods, maximal suffixes and critical factorizations of a run of bytes.
//!
//! This is the mathematics the matcher in [`crate::find`] rests on. A run is a
//! `Seq<u8>`; a suffix is named by where it starts. Two orders on units are in
//! play, the ordinary one and its reverse, and a flag picks between them.
use vstd::prelude::*;

verus! {

/// Whether `u` stands strictly above `v`: in the ordinary order of units where
/// `reversed` is false, in the reverse of it where `reversed` is true.
pub open spec fn above(reversed: bool, u: u8, v: u8) -> bool {
    if reversed {
        u < v
    } else {
        u > v
    }
}

/// The suffix at `i` and the suffix at `j` agree for `d` units.
pub open spec fn agree(x: Seq<u8>, i: int, j: int, d: int) -> bool {
    forall|k: int| 0 <= k < d ==> #[trigger] x[i + k] == x[j + k]
}

/// The suffix at `i` beats the suffix at `j` at distance `d`: they agree before
/// it, and at it `i`'s unit is the higher. Both units lie before `end`.
pub open spec fn beats(x: Seq<u8>, reversed: bool, i: int, j: int, d: int, end: int) -> bool {
    &&& 0 <= d
    &&& i + d < end
    &&& j + d < end
    &&& agree(x, i, j, d)
    &&& above(reversed, x[i + d], x[j + d])
}

/// The suffix at `i` beats the suffix at `j` somewhere before `end`.
pub open spec fn outranks(x: Seq<u8>, reversed: bool, i: int, j: int, end: int) -> bool {
    exists|d: int| beats(x, reversed, i, j, d, end)
}

/// `x[from..end]` repeats with period `p`.
pub open spec fn repeats(x: Seq<u8>, from: int, end: int, p: int) -> bool {
    forall|i: int| from <= i && i + p < end ==> #[trigger] x[i] == x[i + p]
}

/// `start` is the best suffix among those before it.
pub open spec fn above_earlier(x: Seq<u8>, reversed: bool, start: int, end: int) -> bool {
    forall|j: int| 0 <= j < start ==> #[trigger] outranks(x, reversed, start, j, end)
}

/// Every suffix after `start`, cut off at `end`, either loses to it or is a
/// prefix of it.
pub open spec fn above_later(x: Seq<u8>, reversed: bool, start: int, end: int) -> bool {
    forall|j: int|
        start < j < end ==> #[trigger] outranks(x, reversed, start, j, end) || agree(
            x,
            j,
            start,
            end - j,
        )
}

/// No proper shift of the first period of the suffix at `start` is as good as
/// the suffix itself, and the two differ inside that period.
pub open spec fn period_is_primitive(x: Seq<u8>, reversed: bool, start: int, p: int) -> bool {
    forall|t: int|
        0 < t < p ==> #[trigger] outranks(x, reversed, start, start + t, start + p)
}

/// Where a scan for the maximal suffix stands when the first `end` units have
/// been read: `start` is the best suffix so far and `p` its period, and the
/// candidate stands a whole number of periods on.
pub open spec fn scanned(
    x: Seq<u8>,
    reversed: bool,
    start: int,
    at: int,
    offset: int,
    p: int,
) -> bool {
    &&& 0 <= start
    &&& 0 <= offset < p
    &&& start + p <= at
    &&& at + offset <= x.len()
    &&& (at - start) % p == 0
    &&& above_earlier(x, reversed, start, x.len() as int)
    &&& above_later(x, reversed, start, at + offset)
    &&& period_is_primitive(x, reversed, start, p)
    &&& repeats(x, start, at + offset, p)
}

/// `start` begins the maximal suffix of `x`, whose smallest period is `p`.
pub open spec fn maximal_suffix(x: Seq<u8>, reversed: bool, start: int, p: int) -> bool {
    &&& 0 <= start
    &&& 0 < p
    &&& start + p <= x.len()
    &&& above_earlier(x, reversed, start, x.len() as int)
    &&& above_later(x, reversed, start, x.len() as int)
    &&& period_is_primitive(x, reversed, start, p)
    &&& repeats(x, start, x.len() as int, p)
}

proof fn lemma_mod_step(i: int, p: int)
    requires
        p > 0,
        i >= p,
    ensures
        (i - p) % p == i % p,
{
    vstd::arithmetic::div_mod::lemma_mod_sub_multiples_vanish(i, p);
}

/// In a repeating stretch a unit depends only on its place within the period.
pub proof fn lemma_repeats_residue(x: Seq<u8>, from: int, end: int, p: int, i: int)
    requires
        0 <= from,
        p > 0,
        repeats(x, from, end, p),
        0 <= i,
        from + i < end,
    ensures
        x[from + i] == x[from + i % p],
    decreases i,
{
    if i < p {
        vstd::arithmetic::div_mod::lemma_small_mod(i as nat, p as nat);
    } else {
        lemma_mod_step(i, p);
        lemma_repeats_residue(x, from, end, p, i - p);
        assert(x[from + (i - p)] == x[from + (i - p) + p]);
    }
}

/// Two places a whole number of periods apart hold the same unit.
pub proof fn lemma_repeats_multiple(x: Seq<u8>, from: int, end: int, p: int, i: int, s: int)
    requires
        0 <= from <= i,
        p > 0,
        s >= 0,
        s % p == 0,
        repeats(x, from, end, p),
        i + s < end,
    ensures
        x[i] == x[i + s],
{
    lemma_repeats_residue(x, from, end, p, i - from);
    lemma_repeats_residue(x, from, end, p, i - from + s);
    vstd::arithmetic::div_mod::lemma_add_mod_noop(i - from, s, p);
    vstd::arithmetic::div_mod::lemma_mod_twice(i - from, p);
}

/// A fresh scan has read one unit.
pub proof fn lemma_scan_begins(x: Seq<u8>, reversed: bool)
    requires
        x.len() > 0,
    ensures
        scanned(x, reversed, 0, 1, 0, 1),
{
}

/// Where a later suffix still agrees with the best one, the best one's next
/// unit is at least the unit the scan compares against.
proof fn lemma_next_unit_is_high(
    x: Seq<u8>,
    reversed: bool,
    start: int,
    at: int,
    offset: int,
    p: int,
    j: int,
)
    requires
        scanned(x, reversed, start, at, offset, p),
        start < j <= at + offset,
        agree(x, j, start, at + offset - j),
    ensures
        ({
            let e = at + offset;
            x[start + (e - j)] == x[start + offset] || above(
                reversed,
                x[start + (e - j)],
                x[start + offset],
            )
        }),
{
    let e = at + offset;
    let r = e - j;
    let t = (j - start) % p;
    vstd::arithmetic::div_mod::lemma_mod_bound(j - start, p);
    // `e - start` and `offset` stand at the same place in the period.
    assert((e - start) % p == offset) by {
        vstd::arithmetic::div_mod::lemma_add_mod_noop(at - start, offset, p);
        vstd::arithmetic::div_mod::lemma_small_mod(offset as nat, p as nat);
        vstd::arithmetic::div_mod::lemma_mod_twice(offset, p);
    }
    assert((t + r) % p == offset) by {
        vstd::arithmetic::div_mod::lemma_add_mod_noop(j - start, r, p);
        vstd::arithmetic::div_mod::lemma_add_mod_noop(t, r, p);
        vstd::arithmetic::div_mod::lemma_mod_twice(j - start, p);
        assert((j - start) + r == e - start);
    }
    if t == 0 {
        assert(r % p == offset);
        lemma_repeats_residue(x, start, e, p, r);
    } else {
        assert(outranks(x, reversed, start, start + t, start + p));
        let shifted = start + t;
        let close = start + p;
        let d = choose|d: int| beats(x, reversed, start, shifted, d, close);
        // The suffix at `j` reads like the one at `start + t` for a while.
        assert forall|k: int| 0 <= k <= d && j + k < e implies #[trigger] x[j + k] == x[start + t + k] by {
            lemma_repeats_residue(x, start, e, p, (j - start) + k);
            vstd::arithmetic::div_mod::lemma_add_mod_noop(j - start, k, p);
            vstd::arithmetic::div_mod::lemma_add_mod_noop(t, k, p);
            vstd::arithmetic::div_mod::lemma_mod_twice(j - start, p);
            vstd::arithmetic::div_mod::lemma_small_mod((t + k) as nat, p as nat);
        }
        if d < r {
            assert(x[j + d] == x[start + d]);
            assert(x[j + d] == x[start + t + d]);
            assert(false);
        } else {
            assert(t + r < p);
            vstd::arithmetic::div_mod::lemma_small_mod((t + r) as nat, p as nat);
            assert(t + r == offset);
            assert(start + t + r == start + offset);
            if d > r {
                assert(x[start + r] == x[start + t + r]);
            }
        }
    }
}

/// The candidate's next unit equals the best suffix's: the scan moves on.
pub proof fn lemma_scan_equal(
    x: Seq<u8>,
    reversed: bool,
    start: int,
    at: int,
    offset: int,
    p: int,
)
    requires
        scanned(x, reversed, start, at, offset, p),
        at + offset < x.len(),
        x[at + offset] == x[start + offset],
    ensures
        offset + 1 == p ==> scanned(x, reversed, start, at + p, 0, p),
        offset + 1 < p ==> scanned(x, reversed, start, at, offset + 1, p),
{
    let e = at + offset;
    assert(above_later(x, reversed, start, e + 1)) by {
        assert forall|j: int| start < j < e + 1 implies #[trigger] outranks(
            x,
            reversed,
            start,
            j,
            e + 1,
        ) || agree(x, j, start, e + 1 - j) by {
            if j < e && outranks(x, reversed, start, j, e) {
                let d = choose|d: int| beats(x, reversed, start, j, d, e);
                assert(beats(x, reversed, start, j, d, e + 1));
            } else {
                assert(agree(x, j, start, e - j));
                lemma_next_unit_is_high(x, reversed, start, at, offset, p, j);
                if x[start + (e - j)] == x[start + offset] {
                    assert(x[j + (e - j)] == x[start + (e - j)]);
                } else {
                    assert(beats(x, reversed, start, j, e - j, e + 1)) by {
                        assert(x[j + (e - j)] == x[e]);
                        assert forall|k: int| 0 <= k < e - j implies #[trigger] x[start + k]
                            == x[j + k] by {
                            assert(x[j + k] == x[start + k]);
                        }
                    }
                }
            }
        }
    }
    assert(repeats(x, start, e + 1, p)) by {
        assert(x[e - p] == x[e]) by {
            // `e - p` and `start + offset` stand at the same place.
            assert((e - p - start) % p == offset) by {
                vstd::arithmetic::div_mod::lemma_mod_sub_multiples_vanish(at - start, p);
                vstd::arithmetic::div_mod::lemma_add_mod_noop(at - start - p, offset, p);
                vstd::arithmetic::div_mod::lemma_small_mod(offset as nat, p as nat);
                vstd::arithmetic::div_mod::lemma_mod_twice(offset, p);
            }
            lemma_repeats_residue(x, start, e, p, e - p - start);
        }
        assert forall|i: int| start <= i && i + p < e + 1 implies #[trigger] x[i] == x[i + p] by {
            if i + p == e {
                assert(i == e - p);
            }
        }
    }
    if offset + 1 == p {
        vstd::arithmetic::div_mod::lemma_mod_add_multiples_vanish(at - start, p);
        assert((at + p - start) == p + (at - start));
    }
}

/// The candidate's next unit is the lower: the best suffix stands, and all it
/// has read becomes its period.
pub proof fn lemma_scan_lower(
    x: Seq<u8>,
    reversed: bool,
    start: int,
    at: int,
    offset: int,
    p: int,
)
    requires
        scanned(x, reversed, start, at, offset, p),
        at + offset < x.len(),
        above(reversed, x[start + offset], x[at + offset]),
    ensures
        scanned(x, reversed, start, at + offset + 1, 0, at + offset + 1 - start),
{
    let e = at + offset;
    assert forall|j: int| start < j < e + 1 implies #[trigger] outranks(
        x,
        reversed,
        start,
        j,
        e + 1,
    ) by {
        if j < e && outranks(x, reversed, start, j, e) {
            let d = choose|d: int| beats(x, reversed, start, j, d, e);
            assert(beats(x, reversed, start, j, d, e + 1));
        } else {
            assert(agree(x, j, start, e - j));
            lemma_next_unit_is_high(x, reversed, start, at, offset, p, j);
            assert(beats(x, reversed, start, j, e - j, e + 1)) by {
                assert(x[j + (e - j)] == x[e]);
                assert forall|k: int| 0 <= k < e - j implies #[trigger] x[start + k] == x[j
                    + k] by {
                    assert(x[j + k] == x[start + k]);
                }
            }
        }
    }
    let q = e + 1 - start;
    assert(period_is_primitive(x, reversed, start, q)) by {
        assert forall|t: int| 0 < t < q implies #[trigger] outranks(
            x,
            reversed,
            start,
            start + t,
            start + q,
        ) by {
            assert(outranks(x, reversed, start, start + t, e + 1));
        }
    }
    vstd::arithmetic::div_mod::lemma_mod_self_0(q);
}

/// If the suffix at `i` beats the one at `s`, and the one at `s` beats the one
/// at `j`, then the one at `i` beats the one at `j`.
proof fn lemma_beats_transitive(
    x: Seq<u8>,
    reversed: bool,
    i: int,
    s: int,
    j: int,
    d1: int,
    d2: int,
    end1: int,
    end2: int,
)
    requires
        beats(x, reversed, i, s, d1, end1),
        beats(x, reversed, s, j, d2, end2),
        end2 <= end1,
    ensures
        outranks(x, reversed, i, j, end1),
{
    let d = if d1 < d2 {
        d1
    } else {
        d2
    };
    assert forall|k: int| 0 <= k < d implies #[trigger] x[i + k] == x[j + k] by {
        assert(x[i + k] == x[s + k]);
        assert(x[s + k] == x[j + k]);
    }
    if d1 < d2 {
        assert(x[s + d1] == x[j + d1]);
    } else if d2 < d1 {
        assert(x[i + d2] == x[s + d2]);
    }
    assert(beats(x, reversed, i, j, d, end1));
}

/// The candidate's next unit is the higher: the scan begins again from the
/// candidate.
pub proof fn lemma_scan_higher(
    x: Seq<u8>,
    reversed: bool,
    start: int,
    at: int,
    offset: int,
    p: int,
)
    requires
        scanned(x, reversed, start, at, offset, p),
        at + offset < x.len(),
        above(reversed, x[at + offset], x[start + offset]),
    ensures
        scanned(x, reversed, at, at + 1, 0, 1),
{
    let e = at + offset;
    let m = x.len() as int;
    // The candidate has agreed with the best suffix so far.
    assert forall|k: int| 0 <= k < offset implies #[trigger] x[at + k] == x[start + k] by {
        lemma_repeats_multiple(x, start, e, p, start + k, at - start);
        assert(start + k + (at - start) == at + k);
    }
    assert(beats(x, reversed, at, start, offset, m));
    assert forall|j: int| 0 <= j < at implies #[trigger] outranks(x, reversed, at, j, m) by {
        if j < start {
            assert(outranks(x, reversed, start, j, m));
            let d = choose|d: int| beats(x, reversed, start, j, d, m);
            lemma_beats_transitive(x, reversed, at, start, j, offset, d, m, m);
        } else if j == start {
            assert(outranks(x, reversed, at, start, m));
        } else if outranks(x, reversed, start, j, e) {
            let d = choose|d: int| beats(x, reversed, start, j, d, e);
            lemma_beats_transitive(x, reversed, at, start, j, offset, d, m, e);
        } else {
            assert(agree(x, j, start, e - j));
            assert(beats(x, reversed, at, j, offset, m)) by {
                assert forall|k: int| 0 <= k < offset implies #[trigger] x[at + k] == x[j + k] by {
                    assert(x[j + k] == x[start + k]);
                    assert(x[at + k] == x[start + k]);
                }
                assert(x[j + offset] == x[start + offset]);
            }
        }
    }
}

/// A scan that has read the whole run has found the maximal suffix.
pub proof fn lemma_scan_ends(
    x: Seq<u8>,
    reversed: bool,
    start: int,
    at: int,
    offset: int,
    p: int,
)
    requires
        scanned(x, reversed, start, at, offset, p),
        at + offset == x.len(),
    ensures
        maximal_suffix(x, reversed, start, p),
{
}

/// `s` is a local repetition at `c`: shifting the run by `s` across `c` agrees
/// with it wherever both sides of `c` have a unit to show.
pub open spec fn local(x: Seq<u8>, c: int, s: int) -> bool {
    &&& s > 0
    &&& forall|k: int|
        0 <= k < s && c + k < x.len() && c - s + k >= 0 ==> #[trigger] x[c + k] == x[c - s + k]
}

/// `crit` and `p` come of a maximal suffix in one order, and the maximal
/// suffix in the other order starts no later.
pub open spec fn critical(x: Seq<u8>, reversed: bool, crit: int, p: int, s2: int, p2: int) -> bool {
    &&& maximal_suffix(x, reversed, crit, p)
    &&& maximal_suffix(x, !reversed, s2, p2)
    &&& s2 <= crit
}

/// A critical factorization exists with this position and this period.
pub open spec fn factored(x: Seq<u8>, crit: int, p: int) -> bool {
    exists|reversed: bool, s2: int, p2: int| critical(x, reversed, crit, p, s2, p2)
}

/// One suffix cannot both beat and be beaten, nor beat what it agrees with.
proof fn lemma_rank_is_exclusive(x: Seq<u8>, reversed: bool, i: int, j: int, d: int)
    requires
        beats(x, reversed, j, i, d, x.len() as int),
    ensures
        !outranks(x, reversed, i, j, x.len() as int),
        !agree(x, j, i, x.len() - j),
{
    let m = x.len() as int;
    if outranks(x, reversed, i, j, m) {
        let f = choose|f: int| beats(x, reversed, i, j, f, m);
        if f < d {
            assert(x[j + f] == x[i + f]);
        } else if d < f {
            assert(x[i + d] == x[j + d]);
        }
        assert(false);
    }
    if agree(x, j, i, m - j) {
        assert(x[j + d] == x[i + d]);
    }
}

/// No local repetition at the critical position fits inside the left half.
proof fn lemma_no_short_local(x: Seq<u8>, reversed: bool, crit: int, p: int, s: int)
    requires
        maximal_suffix(x, reversed, crit, p),
        s <= crit,
    ensures
        !local(x, crit, s),
{
    if local(x, crit, s) {
        let m = x.len() as int;
        let j = crit - s;
        assert(outranks(x, reversed, crit, j, m));
        let d = choose|d: int| beats(x, reversed, crit, j, d, m);
        if d < s {
            assert(x[crit + d] == x[crit - s + d]);
            assert(false);
        }
        let later = crit + s;
        assert(beats(x, reversed, later, crit, d - s, m)) by {
            assert forall|k: int| 0 <= k < d - s implies #[trigger] x[later + k] == x[crit + k] by {
                assert(x[crit + (s + k)] == x[j + (s + k)]);
                assert(crit + (s + k) == later + k);
                assert(j + (s + k) == crit + k);
            }
            assert(later + (d - s) == crit + d);
            assert(crit + (d - s) == j + d);
        }
        lemma_rank_is_exclusive(x, reversed, crit, later, d - s);
        assert(outranks(x, reversed, crit, later, m) || agree(x, later, crit, m - later));
    }
}

/// A local repetition at the critical position that reaches past the left half
/// and not past the right one is a period of the whole run.
proof fn lemma_local_is_period(
    x: Seq<u8>,
    reversed: bool,
    crit: int,
    p: int,
    s2: int,
    p2: int,
    s: int,
)
    requires
        critical(x, reversed, crit, p, s2, p2),
        local(x, crit, s),
        crit < s <= x.len() - crit,
    ensures
        repeats(x, 0, x.len() as int, s),
{
    let m = x.len() as int;
    assert forall|i: int| 0 <= i < crit implies #[trigger] x[i] == x[i + s] by {
        let k = i + s - crit;
        assert(x[crit + k] == x[crit - s + k]);
        assert(crit + k == i + s);
        assert(crit - s + k == i);
    }
    let later = crit + s;
    if later < m {
        assert(outranks(x, reversed, crit, later, m) || agree(x, later, crit, m - later));
        if outranks(x, reversed, crit, later, m) {
            let d = choose|d: int| beats(x, reversed, crit, later, d, m);
            let moved = s2 + s;
            let gap = crit - s2;
            assert(beats(x, !reversed, moved, s2, gap + d, m)) by {
                assert forall|k: int| 0 <= k < gap + d implies #[trigger] x[moved + k] == x[s2
                    + k] by {
                    if k < gap {
                        assert(x[s2 + k] == x[s2 + k + s]);
                        assert(s2 + k + s == moved + k);
                    } else {
                        let f = k - gap;
                        assert(x[crit + f] == x[later + f]);
                        assert(crit + f == s2 + k);
                        assert(later + f == moved + k);
                    }
                }
                assert(moved + (gap + d) == later + d);
                assert(s2 + (gap + d) == crit + d);
            }
            lemma_rank_is_exclusive(x, !reversed, s2, moved, gap + d);
            assert(outranks(x, !reversed, s2, moved, m) || agree(x, moved, s2, m - moved));
            assert(false);
        }
    }
    assert forall|i: int| 0 <= i && i + s < m implies #[trigger] x[i] == x[i + s] by {
        if i >= crit {
            let k = i - crit;
            assert(x[later + k] == x[crit + k]);
            assert(later + k == i + s);
            assert(crit + k == i);
        }
    }
}

/// The period of the right half is its smallest.
proof fn lemma_period_is_smallest(x: Seq<u8>, reversed: bool, crit: int, p: int, r: int)
    requires
        maximal_suffix(x, reversed, crit, p),
        0 < r < p,
    ensures
        !repeats(x, 0, x.len() as int, r),
{
    let shifted = crit + r;
    let close = crit + p;
    assert(outranks(x, reversed, crit, crit + r, crit + p));
    let d = choose|d: int| beats(x, reversed, crit, shifted, d, close);
    if repeats(x, 0, x.len() as int, r) {
        assert(x[crit + d] == x[crit + d + r]);
        assert(crit + d + r == shifted + d);
    }
}

/// A local repetition at the critical position no longer than the right half
/// is a whole number of the right half's periods.
pub proof fn lemma_local_is_multiple(x: Seq<u8>, crit: int, p: int, s: int)
    requires
        factored(x, crit, p),
        local(x, crit, s),
        s <= x.len() - crit,
    ensures
        s % p == 0,
{
    let (reversed, s2, p2) = choose|reversed: bool, s2: int, p2: int|
        critical(x, reversed, crit, p, s2, p2);
    let m = x.len() as int;
    let r = s % p;
    vstd::arithmetic::div_mod::lemma_mod_bound(s, p);
    if r != 0 {
        vstd::arithmetic::div_mod::lemma_mod_decreases(s as nat, p as nat);
        assert((s - r) % p == 0) by {
            vstd::arithmetic::div_mod::lemma_sub_mod_noop(s, r, p);
            vstd::arithmetic::div_mod::lemma_mod_twice(s, p);
            vstd::arithmetic::div_mod::lemma_small_mod(0, p as nat);
        }
        assert(local(x, crit, r)) by {
            assert forall|k: int|
                0 <= k < r && crit + k < m && crit - r + k >= 0 implies #[trigger] x[crit + k]
                == x[crit - r + k] by {
                let f = s - r + k;
                assert(x[crit + f] == x[crit - s + f]);
                assert(crit - s + f == crit - r + k);
                lemma_repeats_multiple(x, crit, m, p, crit + k, s - r);
                assert(crit + k + (s - r) == crit + f);
            }
        }
        if r <= crit {
            lemma_no_short_local(x, reversed, crit, p, r);
        } else {
            lemma_local_is_period(x, reversed, crit, p, s2, p2, r);
            lemma_period_is_smallest(x, reversed, crit, p, r);
        }
    }
}

/// Where the right half's period is the whole run's, it exceeds the left half.
pub proof fn lemma_period_exceeds_left(x: Seq<u8>, crit: int, p: int)
    requires
        factored(x, crit, p),
        repeats(x, 0, x.len() as int, p),
    ensures
        p > crit,
{
    let (reversed, s2, p2) = choose|reversed: bool, s2: int, p2: int|
        critical(x, reversed, crit, p, s2, p2);
    if p <= crit {
        assert(local(x, crit, p)) by {
            assert forall|k: int|
                0 <= k < p && crit + k < x.len() && crit - p + k >= 0 implies #[trigger] x[crit + k]
                == x[crit - p + k] by {
                assert(x[crit - p + k] == x[crit - p + k + p]);
            }
        }
        lemma_no_short_local(x, reversed, crit, p, p);
    }
}

/// Where the right half's period is not the whole run's, no local repetition
/// fits in the longer of the two halves.
pub proof fn lemma_no_local(x: Seq<u8>, crit: int, p: int, s: int, witness: int)
    requires
        factored(x, crit, p),
        0 <= witness < crit,
        x[witness] != x[p + witness],
        s <= crit || s <= x.len() - crit,
    ensures
        !local(x, crit, s),
{
    if local(x, crit, s) {
        let m = x.len() as int;
        let (reversed, s2, p2) = choose|reversed: bool, s2: int, p2: int|
            critical(x, reversed, crit, p, s2, p2);
        if s <= crit {
            lemma_no_short_local(x, reversed, crit, p, s);
        }
        lemma_local_is_period(x, reversed, crit, p, s2, p2, s);
        lemma_local_is_multiple(x, crit, p, s);
        assert(s >= p) by {
            if s < p {
                vstd::arithmetic::div_mod::lemma_small_mod(s as nat, p as nat);
            }
        }
        assert((s - p) % p == 0) by {
            vstd::arithmetic::div_mod::lemma_mod_sub_multiples_vanish(s, p);
        }
        if p <= crit {
            assert(local(x, crit, p)) by {
                assert forall|k: int|
                    0 <= k < p && crit + k < m && crit - p + k >= 0 implies #[trigger] x[crit + k]
                    == x[crit - p + k] by {
                    assert(x[crit - p + k] == x[crit - p + k + s]);
                    lemma_repeats_multiple(x, crit, m, p, crit + k, s - p);
                    assert(crit + k + (s - p) == crit - p + k + s);
                }
            }
            lemma_no_short_local(x, reversed, crit, p, p);
        }
        assert(x[witness] == x[witness + s]);
        lemma_repeats_multiple(x, crit, m, p, p + witness, s - p);
        assert(p + witness + (s - p) == witness + s);
    }
}

/// Two maximal suffixes, one per order, make a critical factorization at the
/// later of the two.
pub proof fn lemma_later_is_critical(x: Seq<u8>, s1: int, p1: int, s2: int, p2: int)
    requires
        maximal_suffix(x, false, s1, p1),
        maximal_suffix(x, true, s2, p2),
    ensures
        s1 > s2 ==> factored(x, s1, p1),
        s1 <= s2 ==> factored(x, s2, p2),
{
    if s1 > s2 {
        assert(critical(x, false, s1, p1, s2, p2));
    } else {
        assert(critical(x, true, s2, p2, s1, p1));
    }
}

} // verus!
