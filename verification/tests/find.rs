//! Searching bytes, one comparison at a time.
use cove_runtime::find::{find_bytes, first_unit_at, window_of, Matcher};

/// What `str::find` answers for the same bytes, which is the oracle every
/// case here is written against.
fn rust_find(haystack: &[u8], needle: &[u8], from: usize) -> i64 {
    if needle.is_empty() {
        return from as i64;
    }
    if from > haystack.len() || needle.len() > haystack.len() - from {
        return -1;
    }
    haystack[from..]
        .windows(needle.len())
        .position(|window| window == needle)
        .map_or(-1, |at| (at + from) as i64)
}

/// The answer and the turns it took, so that the bound is checked wherever
/// the answer is.
fn found(haystack: &[u8], needle: &[u8], from: usize) -> (i64, u64) {
    if needle.is_empty() {
        return (from as i64, 0);
    }
    if needle.len() > haystack.len() - from {
        return (-1, 0);
    }
    let mut matcher = Matcher::new(haystack.len(), needle.len(), from);
    let answer = matcher
        .run(u64::MAX, |at| needle[at], |at| window_of(haystack, at))
        .expect("an unbounded budget leaves no turn unspent");
    let bound = Matcher::bound(haystack.len(), needle.len(), from);
    assert!(
        matcher.charge() <= bound,
        "{} turn(s) for m={} n={} from={}, past the bound of {bound}",
        matcher.charge(),
        needle.len(),
        haystack.len(),
        from
    );
    (answer, matcher.charge())
}

/// A haystack whose bytes are not text: `0x00` and bytes at and over
/// `0x80` are exactly what a `String`'s payload holds inside a multi-byte
/// character, and the instruction is defined over bytes rather than over
/// them.
///
/// It holds periodic needles at several periods, needles whose two maximal
/// suffixes differ, needles that are their own haystack, near misses at every
/// offset, and one-unit and all-one-unit shapes.
fn corpus() -> Vec<Vec<u8>> {
    let mut out: Vec<Vec<u8>> = vec![
        b"".to_vec(),
        b"a".to_vec(),
        b"b".to_vec(),
        b"aa".to_vec(),
        b"ab".to_vec(),
        b"ba".to_vec(),
        b"aab".to_vec(),
        b"aba".to_vec(),
        b"baa".to_vec(),
        b"aaaaaaaaaa".to_vec(),
        b"abababababab".to_vec(),
        b"aabaabaabaab".to_vec(),
        b"aabaabaaabaab".to_vec(),
        b"abcabcabdabcabc".to_vec(),
        b"abcabd".to_vec(),
        b"aaaaaaaaab".to_vec(),
        b"baaaaaaaaa".to_vec(),
        b"banana banana bandana".to_vec(),
        b"the quick brown fox jumps over the lazy dog".to_vec(),
        b"mississippi".to_vec(),
        b"issi".to_vec(),
        vec![0x00, 0x01, 0x00, 0x00, 0x01, 0x02],
        vec![
            0xff, 0x80, 0xc3, 0xa9, 0xe3, 0x81, 0x82, 0xf0, 0x9f, 0x98, 0x80,
        ],
        vec![0x80; 40],
        vec![0x00; 9],
    ];
    // Many near misses and a long repeated prefix: the shape a quadratic
    // scan takes quadratic time on and a wrong shift answers wrongly on.
    let mut near = Vec::new();
    for _ in 0..40 {
        near.extend_from_slice(b"aaaaaaab");
    }
    near.extend_from_slice(b"aaaaaaaa");
    out.push(near);
    // A needle far longer than one safepoint step, and a haystack that
    // holds it at the last offset it fits at.
    let long: Vec<u8> = (0..3079u32).map(|at| (at % 251) as u8).collect();
    let mut with_long = vec![0x7fu8; 2051];
    with_long.extend_from_slice(&long);
    out.push(long);
    out.push(with_long);
    // A long periodic needle, which is the case the memory exists for, and
    // a haystack that holds it once at the end.
    let periodic: Vec<u8> = b"abcab".repeat(400);
    let mut around = b"abcab".repeat(300);
    around.pop();
    around.extend_from_slice(&periodic);
    out.push(periodic);
    out.push(around);
    out
}

/// The matcher answers what `str::find` answers, for every pair.
#[test]
fn a_find_agrees_with_rust_over_the_corpus() {
    let corpus = corpus();
    let mut checked = 0;
    for haystack in &corpus {
        for needle in &corpus {
            assert_eq!(
                found(haystack, needle, 0).0,
                rust_find(haystack, needle, 0),
                "haystack {} byte(s), needle {} byte(s)",
                haystack.len(),
                needle.len()
            );
            checked += 1;
        }
    }
    assert_eq!(checked, corpus.len() * corpus.len());
}

/// Every `from` in range, for the pairs where a start offset can move the
/// answer.
#[test]
fn a_find_agrees_with_rust_at_every_start() {
    let haystacks: Vec<Vec<u8>> = vec![
        b"aaaaaaaaaa".to_vec(),
        b"abababababab".to_vec(),
        b"aabaabaabaab".to_vec(),
        b"abcabcabdabcabc".to_vec(),
        b"banana banana bandana".to_vec(),
        b"mississippi".to_vec(),
        vec![0x00, 0x80, 0x00, 0x80, 0x00],
    ];
    let needles: Vec<Vec<u8>> = vec![
        b"".to_vec(),
        b"a".to_vec(),
        b"aa".to_vec(),
        b"aaaa".to_vec(),
        b"abab".to_vec(),
        b"aabaab".to_vec(),
        b"abcabd".to_vec(),
        b"ana".to_vec(),
        b"issi".to_vec(),
        vec![0x80, 0x00],
    ];
    for haystack in &haystacks {
        for needle in &needles {
            for from in 0..=haystack.len() {
                assert_eq!(
                    found(haystack, needle, from).0,
                    rust_find(haystack, needle, from),
                    "haystack {haystack:?}, needle {needle:?}, from {from}"
                );
            }
        }
    }
}

/// Every needle of every length cut out of one haystack, found where it
/// was cut from or earlier — an exhaustive sweep over factorizations that
/// no hand-written corpus reaches.
#[test]
fn every_substring_of_a_haystack_is_found() {
    let haystacks: [&[u8]; 4] = [
        b"abaabbabaababbaab",
        b"aaaaaaaaaaaa",
        b"abcabcabcabd",
        &[0x00, 0x80, 0xff, 0x00, 0x80, 0xff, 0x00, 0x80],
    ];
    for haystack in haystacks {
        for at in 0..haystack.len() {
            for end in at + 1..=haystack.len() {
                let needle = &haystack[at..end];
                assert_eq!(
                    found(haystack, needle, 0).0,
                    rust_find(haystack, needle, 0),
                    "haystack {haystack:?}, needle {needle:?}"
                );
            }
        }
    }
}

/// A deterministic pseudorandom source, so that a sweep is a sweep and not
/// a different sweep every run. Xorshift64, which is four lines and has no
/// dependency.
struct Rng(u64);

impl Rng {
    fn next(&mut self) -> u64 {
        self.0 ^= self.0 << 13;
        self.0 ^= self.0 >> 7;
        self.0 ^= self.0 << 17;
        self.0
    }

    fn upto(&mut self, past: usize) -> usize {
        (self.next() % past as u64) as usize
    }
}

/// Thousands of pairs over a small alphabet, at every start: two, three and
/// four symbols, because that is where periodic factorizations and near misses
/// are dense, and needles cut out of the haystack as often as not.
#[test]
fn a_find_agrees_with_rust_over_pseudorandom_runs() {
    let mut rng = Rng(0x9E37_79B9_7F4A_7C15);
    let mut checked = 0;
    for alphabet in [2usize, 3, 4] {
        for _ in 0..4_000 {
            let n = 1 + rng.upto(64);
            let haystack: Vec<u8> = (0..n).map(|_| b'a' + rng.upto(alphabet) as u8).collect();
            let m = 1 + rng.upto(n.min(12));
            let needle: Vec<u8> = if rng.upto(2) == 0 {
                let at = rng.upto(n - m + 1);
                haystack[at..at + m].to_vec()
            } else {
                (0..m).map(|_| b'a' + rng.upto(alphabet) as u8).collect()
            };
            let from = rng.upto(n + 1);
            assert_eq!(
                found(&haystack, &needle, from).0,
                rust_find(&haystack, &needle, from),
                "haystack {haystack:?}, needle {needle:?}, from {from}"
            );
            checked += 1;
        }
    }
    assert_eq!(checked, 12_000);
}

/// A needle at offset 0, at the last offset it fits at, and equal to the
/// haystack — the three positions an off-by-one in the shift moves.
#[test]
fn a_find_answers_at_both_ends_and_for_the_whole() {
    let haystack = b"abcdefghij";
    assert_eq!(found(haystack, b"abc", 0).0, 0);
    assert_eq!(found(haystack, b"hij", 0).0, 7);
    assert_eq!(found(haystack, haystack, 0).0, 0);
    assert_eq!(found(haystack, b"hijk", 0).0, -1);
    assert_eq!(found(haystack, b"j", 0).0, 9);
    assert_eq!(found(haystack, b"", 10).0, 10);
    assert_eq!(found(haystack, b"a", 10).0, -1);
}

/// The same answer however the turns are sliced, which is the property a
/// safepoint between two of them rests on. Every budget from one turn to
/// past the whole search, over pairs whose preparation and search both
/// take several — including the periodic case, whose memory is the state
/// most easily lost across a stop.
#[test]
fn a_stopped_matcher_answers_what_an_unstopped_one_does() {
    let haystack: Vec<u8> = {
        let mut out = Vec::new();
        for _ in 0..20 {
            out.extend_from_slice(b"aaaaaaab");
        }
        out.extend_from_slice(b"aabaabaab");
        out.extend_from_slice(&b"abcab".repeat(9));
        out
    };
    let needles: Vec<&[u8]> = vec![
        b"aabaab",
        b"aaaaaaab",
        b"aaab",
        b"zzz",
        b"b",
        b"abcababcab",
        b"abcabd",
    ];
    for needle in needles {
        let whole = found(&haystack, needle, 0).0;
        for turns in 1..=40u64 {
            let mut matcher = Matcher::new(haystack.len(), needle.len(), 0);
            let mut steps = 0;
            let got = loop {
                steps += 1;
                assert!(steps < 1_000_000, "a stepped matcher made no progress");
                if let Some(answer) =
                    matcher.run(turns, |at| needle[at], |at| window_of(&haystack, at))
                {
                    break answer;
                }
            };
            assert_eq!(got, whole, "needle {needle:?} at {turns} turn(s) a step");
        }
    }
}

/// The phase changes once the needle has been prepared, and a fuel bound's
/// test reads that to say which phase a stopped run was in.
#[test]
fn a_matcher_leaves_preparation_before_it_reads_the_haystack() {
    let haystack = [7u8; 400];
    let needle = [3u8; 90];
    let mut matcher = Matcher::new(haystack.len(), needle.len(), 0);
    assert!(matcher.preparing());
    let mut turns = 0;
    while matcher.preparing() {
        turns += 1;
        assert!(turns < 1_000, "preparation did not finish");
        matcher.run(1, |at| needle[at], |at| window_of(&haystack, at));
    }
    // Preparation is bounded by the needle and by nothing else: it has not
    // looked at the haystack, and it is over well inside `5m`.
    assert!(matcher.charge() <= 5 * needle.len() as u64);
}

/// The charge stays within its bound over a spread of shapes, periodic and
/// not, matching and not, at several starts.
#[test]
fn a_search_is_charged_within_its_bound() {
    let shapes: Vec<(Vec<u8>, Vec<u8>)> = vec![
        (vec![b'B'; 4096], vec![b'A'; 300]),
        (vec![b'a'; 4096], vec![b'a'; 300]),
        (b"ab".repeat(2048), b"ab".repeat(150)),
        (b"abcab".repeat(800), b"abcab".repeat(40)),
        (b"aaaaaaab".repeat(500), b"aaaaaaaa".to_vec()),
        (
            (0..4096u32).map(|at| (at % 251) as u8).collect(),
            vec![250u8, 0, 1],
        ),
        (vec![b'x'; 1000], vec![b'x'; 1000]),
    ];
    for (haystack, needle) in shapes {
        for from in [0usize, 1, 17] {
            if needle.len() > haystack.len() - from {
                continue;
            }
            let (_, turns) = found(&haystack, &needle, from);
            let bound = Matcher::bound(haystack.len(), needle.len(), from);
            assert!(
                turns <= bound,
                "m={} n={} from={from}: {turns} turn(s) past {bound}",
                needle.len(),
                haystack.len()
            );
            // And the charge is really proportional rather than a
            // constant: a search of four thousand units cannot be a
            // handful of turns.
            assert!(turns > 0, "a search that examined nothing");
        }
    }
}

/// A search that runs to the end of a haystack it never matches in grows
/// with the haystack and stays inside the bound.
#[test]
fn a_whole_scan_is_charged_in_proportion_to_what_it_walked() {
    let same = vec![b'A'; 40];
    let distinct: Vec<u8> = (0..40u8).map(|at| b'a' + at).collect();
    let mut walked = Vec::new();
    for n in [1_000usize, 4_000, 16_000] {
        let haystack = vec![b'B'; n];
        for needle in [&same, &distinct] {
            let (answer, turns) = found(&haystack, needle, 0);
            assert_eq!(answer, -1);
            assert!(turns > 0, "a search that examined nothing");
            assert!(
                turns <= Matcher::bound(n, needle.len(), 0),
                "n={n}, m={}: {turns} turn(s)",
                needle.len()
            );
        }
        walked.push(found(&haystack, &same, 0).1);
    }
    // Linear in the haystack and not better: sixteen times the haystack is
    // about sixteen times the turns.
    let (small, large) = (walked[0], walked[2]);
    assert!(
        large > small * 12 && large < small * 20,
        "{small} turn(s) at n=1,000 against {large} at n=16,000"
    );
}

/// The search in one call answers what a stepped one does.
#[test]
fn a_find_in_one_call_agrees() {
    for (haystack, needle) in [("banana", "nan"), ("banana", "x"), ("", ""), ("aab", "ab")] {
        let (haystack, needle) = (haystack.as_bytes(), needle.as_bytes());
        for from in 0..=haystack.len() {
            assert_eq!(
                find_bytes(haystack, needle, from),
                rust_find(haystack, needle, from)
            );
        }
    }
}

/// A window is the rest of an eight-unit block, lowest first, and a unit past
/// the run is not one that is found in it.
#[test]
fn a_window_is_the_rest_of_its_block() {
    let run = [1u8, 2, 3, 4, 5, 6, 7, 8, 9, 10];
    assert_eq!(window_of(&run, 0), 0x0807_0605_0403_0201);
    assert_eq!(window_of(&run, 6), 0x0807);
    assert_eq!(window_of(&run, 8), 0x0a09);
    assert_eq!(window_of(&run, 10), 0, "nothing is left at the end of the run");
    assert_eq!(window_of(&[], 0), 0);
    assert_eq!(first_unit_at(0x0807_0605_0403_0201, 3, 8), Some(2));
    assert_eq!(first_unit_at(0x0807_0605_0403_0201, 9, 8), None);
    assert_eq!(first_unit_at(0x0a09, 0, 2), None);
}

#[test]
fn an_answer_is_given_again_for_nothing() {
    for needle in [&b"needle"[..], &b"absent"[..]] {
        let haystack = b"a needle in a haystack";
        let mut matcher = Matcher::new(haystack.len(), needle.len(), 0);
        let unit = |at: usize| needle[at];
        let window = |at: usize| window_of(haystack, at);
        let first = matcher.run(u64::MAX, unit, window).expect("the turns do not run out");
        let charged = matcher.charge();
        for turns in [0, 1, 1000] {
            assert_eq!(matcher.run(turns, unit, window), Some(first));
            assert_eq!(matcher.charge(), charged);
        }
    }
}

#[test]
fn nothing_before_the_start_is_read() {
    let haystack = b"needles and a needle in a haystack of needles";
    let needle = b"needle";
    for from in 0..haystack.len() - needle.len() {
        let mut matcher = Matcher::new(haystack.len(), needle.len(), from);
        let unit = |at: usize| needle[at];
        let window = |at: usize| {
            assert!(from <= at && at < haystack.len(), "{at} is read, and the search begins at {from}");
            window_of(haystack, at)
        };
        let answer = matcher.run(u64::MAX, unit, window);
        assert_eq!(answer, Some(rust_find(haystack, needle, from)));
    }
}

#[test]
fn the_haystack_is_not_read_while_preparing() {
    for needle in [&b"abaabaa"[..], &b"needle"[..], &b"aaaa"[..]] {
        let haystack = b"abaabaabaabaa needle aaaa";
        let mut matcher = Matcher::new(haystack.len(), needle.len(), 0);
        let mut turns = 0;
        while matcher.preparing() {
            let before = matcher.charge();
            let looks = std::cell::Cell::new(0);
            let answer = matcher.run(
                1,
                |at| needle[at],
                |at| {
                    looks.set(looks.get() + 1);
                    window_of(haystack, at)
                },
            );
            if matcher.preparing() {
                assert_eq!(looks.get(), 0, "the haystack is read at turn {before}");
                assert_eq!(answer, None);
            }
            turns += 1;
            assert!(turns <= 5 * needle.len());
        }
    }
}
