//! The search engine: scanning the sparse image for a byte pattern, a
//! literal ASCII text or a regular expression, reporting absolute match
//! addresses in ascending order. Matches never span a chunk boundary, so a
//! pattern crossing a gap never matches.

use vstd::prelude::*;
use vstd::string::StringSliceAdditionalSpecFns;

verus! {

use crate::intelhex::{covers, chunks_byte, lemma_chunks_byte_covers, lemma_chunks_byte_exists,
    chunks_wf, IntelHex};

/// What to search for: raw bytes, the bytes of an ASCII text, or a regular
/// expression over bytes.
#[derive(Debug, Clone, PartialEq, Eq)]
pub enum SearchType {
    Hex(Vec<u8>),
    Ascii(String),
    Regex(String),
}

/// Does the image hold a full occurrence of `pat` starting at address `a`?
/// An empty pattern never matches.
pub open spec fn is_match_at(ih: IntelHex, a: int, pat: Seq<u8>) -> bool {
    pat.len() > 0 && forall|k: int| 0 <= k < pat.len() ==> ih.spec_byte(a + k) == Some(pat[k])
}

/// A run of held addresses lies within a single chunk: chunks are separated
/// by at least one absent address, so held bytes cannot straddle two.
proof fn lemma_run_in_chunk(cs: Seq<(usize, Seq<u8>)>, i: int, a: int, m: int)
    requires
        chunks_wf(cs),
        0 <= i < cs.len(),
        covers(cs, i, a),
        m >= 1,
        forall|k: int| 0 <= k < m ==> (#[trigger] chunks_byte(cs, a + k)) is Some,
    ensures
        cs[i].0 <= a && a + m <= cs[i].0 + cs[i].1.len(),
    decreases m,
{
    if m > 1 {
        lemma_run_in_chunk(cs, i, a, m - 1);
        // One past a covered prefix is still inside the same chunk: were it
        // exactly the chunk end, no chunk at all would cover it.
        if a + m > cs[i].0 + cs[i].1.len() {
            let e = cs[i].0 + cs[i].1.len();
            assert(chunks_byte(cs, e) is Some) by {
                assert(a + (m - 1) == e);
            }
            lemma_chunks_byte_exists(cs, e);
            let j = choose|j: int|
                0 <= j < cs.len() && covers(cs, j, e) && chunks_byte(cs, e) == Some(
                    cs[j].1[e - cs[j].0],
                );
            if j < i {
                assert(cs[j].0 + cs[j].1.len() < cs[i].0);
            } else if j > i {
                assert(cs[i].0 + cs[i].1.len() < cs[j].0);
            }
            assert(false);
        }
    }
}

/// Compare `pat` against the bytes of `data` starting at `off`.
fn window_eq(data: &Vec<u8>, off: usize, pat: &[u8]) -> (r: bool)
    requires
        off + pat@.len() <= data@.len(),
    ensures
        r == (forall|k: int| 0 <= k < pat@.len() ==> data@[off + k] == pat@[k]),
{
    let m = pat.len();
    let n = data.len();
    let mut k: usize = 0;
    while k < m
        invariant
            0 <= k <= m,
            m == pat@.len(),
            n == data@.len(),
            off + m <= n,
            forall|q: int| 0 <= q < k ==> data@[off + q] == pat@[q],
        decreases m - k,
    {
        if data[off + k] != pat[k] {
            return false;
        }
        k = k + 1;
    }
    true
}

/// Slide a fixed window across each chunk independently, reporting every
/// absolute address where the pattern occurs whole, in ascending order.
/// A match never crosses a chunk boundary or a gap.
pub fn search_bytes(ih: &IntelHex, pattern: &[u8]) -> (r: Vec<usize>)
    requires
        ih.wf(),
    ensures
        forall|k: int| 0 <= k < r@.len() ==> is_match_at(*ih, (#[trigger] r@[k]) as int, pattern@),
        forall|k: int| 0 <= k < r@.len() - 1 ==> (#[trigger] r@[k]) < r@[k + 1],
        forall|a: int|
            is_match_at(*ih, a, pattern@) ==> exists|k: int|
                0 <= k < r@.len() && (#[trigger] r@[k]) == a,
{
    let ghost cs = ih.chunks();
    let m = pattern.len();
    let mut out: Vec<usize> = Vec::new();
    if m == 0 {
        return out;
    }
    let mut i: usize = 0;
    proof {
        assert forall|a: int|
            is_match_at(*ih, a, pattern@) && (cs.len() == 0 || a < cs[0].0) implies false by {
            assert(ih.spec_byte(a + 0) == Some(pattern@[0]));
            lemma_chunks_byte_exists(cs, a);
            let j = choose|j: int|
                0 <= j < cs.len() && covers(cs, j, a) && chunks_byte(cs, a) == Some(
                    cs[j].1[a - cs[j].0],
                );
            if j > 0 {
                assert(cs[0].0 + cs[0].1.len() < cs[j].0);
                assert(cs[0].1.len() > 0);
            }
        }
    }
    while i < ih.buffer.len()
        invariant
            ih.wf(),
            cs == ih.chunks(),
            m == pattern@.len(),
            m >= 1,
            0 <= i <= cs.len(),
            forall|k: int|
                0 <= k < out@.len() ==> is_match_at(*ih, (#[trigger] out@[k]) as int, pattern@),
            forall|k: int| 0 <= k < out@.len() - 1 ==> (#[trigger] out@[k]) < out@[k + 1],
            i < cs.len() && out@.len() > 0 ==> (out@.last() as int) < cs[i as int].0,
            forall|a: int|
                is_match_at(*ih, a, pattern@) && (i as int == cs.len() || a < cs[i as int].0)
                    ==> exists|k: int| 0 <= k < out@.len() && (#[trigger] out@[k]) == a,
        decreases cs.len() - i,
    {
        let start = ih.buffer[i].0;
        let dlen = ih.buffer[i].1.len();
        proof {
            assert(cs[i as int].0 + cs[i as int].1.len() <= usize::MAX);
        }
        if dlen >= m {
            let last_off = dlen - m;
            let mut off: usize = 0;
            while off <= last_off
                invariant
                    ih.wf(),
                    cs == ih.chunks(),
                    m == pattern@.len(),
                    m >= 1,
                    (i as int) < cs.len(),
                    start as int == cs[i as int].0,
                    dlen == cs[i as int].1.len(),
                    start + dlen <= usize::MAX,
                    last_off == dlen - m,
                    0 <= off <= last_off + 1,
                    forall|k: int|
                        0 <= k < out@.len() ==> is_match_at(
                            *ih,
                            (#[trigger] out@[k]) as int,
                            pattern@,
                        ),
                    forall|k: int| 0 <= k < out@.len() - 1 ==> (#[trigger] out@[k]) < out@[k + 1],
                    out@.len() > 0 ==> (out@.last() as int) < cs[i as int].0 + off,
                    forall|a: int|
                        is_match_at(*ih, a, pattern@) && a < cs[i as int].0 + off ==> exists|
                            k: int,
                        | 0 <= k < out@.len() && (#[trigger] out@[k]) == a,
                decreases last_off + 1 - off,
            {
                let hit = window_eq(&ih.buffer[i].1, off, pattern);
                let ghost out_before = out@;
                if hit {
                    proof {
                        assert forall|k: int|
                            0 <= k < pattern@.len() implies ih.spec_byte(start + off + k) == Some(
                            pattern@[k],
                        ) by {
                            assert(covers(cs, i as int, start + off + k));
                            lemma_chunks_byte_covers(cs, i as int, start + off + k);
                        }
                    }
                    out.push(start + off);
                }
                off = off + 1;
                proof {
                    assert forall|a: int|
                        is_match_at(*ih, a, pattern@) && a < cs[i as int].0 + off implies (
                    exists|k: int| 0 <= k < out@.len() && (#[trigger] out@[k]) == a) by {
                        if a == cs[i as int].0 + off - 1 {
                            // A match here means the window compares equal.
                            assert(ih.spec_byte(a + 0) == Some(pattern@[0]));
                            assert(ih.spec_byte(a) is Some);
                            lemma_chunks_byte_exists(cs, a);
                            let j = choose|j: int|
                                0 <= j < cs.len() && covers(cs, j, a) && chunks_byte(cs, a)
                                    == Some(cs[j].1[a - cs[j].0]);
                            assert(j == i as int) by {
                                if j < i as int {
                                    assert(cs[j].0 + cs[j].1.len() < cs[i as int].0);
                                } else if j > i as int {
                                    assert(cs[i as int].0 + cs[i as int].1.len() < cs[j].0);
                                }
                            }
                            assert forall|k: int|
                                0 <= k < m implies (#[trigger] chunks_byte(cs, a + k)) is Some by {
                                assert(ih.spec_byte(a + k) == Some(pattern@[k]));
                            }
                            lemma_run_in_chunk(cs, i as int, a, m as int);
                            assert forall|q: int|
                                0 <= q < pattern@.len() implies cs[i as int].1[a - cs[i as int].0
                                + q] == pattern@[q] by {
                                assert(covers(cs, i as int, a + q));
                                lemma_chunks_byte_covers(cs, i as int, a + q);
                            }
                            assert(out@.last() == a);
                        } else {
                            let k0 = choose|k: int|
                                0 <= k < out_before.len() && (#[trigger] out_before[k]) == a;
                            assert(out@[k0] == out_before[k0]);
                        }
                    }
                }
            }
        }
        i = i + 1;
        proof {
            assert forall|a: int|
                is_match_at(*ih, a, pattern@) && (i as int == cs.len() || a < cs[i as int].0)
                implies (exists|k: int| 0 <= k < out@.len() && (#[trigger] out@[k]) == a) by {
                let lo = cs[i as int - 1].0;
                let hi = cs[i as int - 1].0 + cs[i as int - 1].1.len();
                if a >= lo + (if cs[i as int - 1].1.len() >= m as int {
                    cs[i as int - 1].1.len() - m + 1
                } else {
                    0int
                }) {
                    // No whole occurrence fits between here and the next
                    // chunk: its last byte would fall on an absent address.
                    assert(ih.spec_byte(a + 0) == Some(pattern@[0]));
                    assert(ih.spec_byte(a) is Some);
                    lemma_chunks_byte_exists(cs, a);
                    let j = choose|j: int|
                        0 <= j < cs.len() && covers(cs, j, a) && chunks_byte(cs, a) == Some(
                            cs[j].1[a - cs[j].0],
                        );
                    assert(j == i as int - 1) by {
                        if j < i as int - 1 {
                            assert(cs[j].0 + cs[j].1.len() < cs[i as int - 1].0);
                        } else if j > i as int - 1 {
                            if (i as int) < cs.len() && j >= i as int {
                                if j > i as int {
                                    assert(cs[i as int].0 + cs[i as int].1.len() < cs[j].0);
                                }
                            }
                        }
                    }
                    assert forall|k: int|
                        0 <= k < m implies (#[trigger] chunks_byte(cs, a + k)) is Some by {
                        assert(ih.spec_byte(a + k) == Some(pattern@[k]));
                    }
                    lemma_run_in_chunk(cs, i as int - 1, a, m as int);
                    assert(false);
                }
            }
        }
    }
    out
}

// ===================== regular expressions =====================

/// Where the successive non-overlapping matches of a regular expression
/// start within a byte haystack; an invalid pattern has no matches.
pub uninterp spec fn regex_match_starts(pattern: Seq<char>, hay: Seq<u8>) -> Seq<usize>;

/// Does the pattern compile as a byte regular expression?
pub uninterp spec fn regex_is_valid(pattern: Seq<char>) -> bool;

/// Relies on regex::bytes::Regex::new and Regex::find_iter: whether the
/// pattern compiles, and where its successive non-overlapping matches
/// start, depend on the pattern and the haystack alone; a pattern that
/// does not compile yields no matches; the reported starts are strictly
/// increasing positions within the haystack.
#[verifier::external_body]
fn regex_find_starts(pattern: &str, hay: &Vec<u8>) -> (r: Vec<usize>)
    ensures
        r@ == regex_match_starts(pattern@, hay@),
        !regex_is_valid(pattern@) ==> r@ == Seq::<usize>::empty(),
        forall|k: int| 0 <= k < r@.len() ==> (#[trigger] r@[k]) <= hay@.len(),
        forall|k: int| 0 <= k < r@.len() - 1 ==> (#[trigger] r@[k]) < r@[k + 1],
{
    match regex::bytes::Regex::new(pattern) {
        Ok(re) => re.find_iter(hay).map(|m| m.start()).collect(),
        Err(_) => Vec::new(),
    }
}

/// The absolute match addresses a regular expression search reports: each
/// chunk searched independently, each in-chunk start translated by the
/// chunk's base address, in chunk order.
pub open spec fn spec_regex_results(cs: Seq<(usize, Seq<u8>)>, pat: Seq<char>) -> Seq<usize>
    decreases cs.len(),
{
    if cs.len() == 0 {
        Seq::<usize>::empty()
    } else {
        regex_match_starts(pat, cs[0].1).map_values(|s: usize| ((cs[0].0 + s) as usize))
            + spec_regex_results(cs.drop_first(), pat)
    }
}

/// Run a regular expression over each chunk's bytes independently and
/// report absolute match addresses; an invalid pattern yields no matches
/// rather than an error. Matches never span chunks.
pub fn search_regex(ih: &IntelHex, pattern: &str) -> (r: Vec<usize>)
    requires
        ih.wf(),
    ensures
        r@ == spec_regex_results(ih.chunks(), pattern@),
        !regex_is_valid(pattern@) ==> r@ == Seq::<usize>::empty(),
{
    let ghost cs = ih.chunks();
    let mut out: Vec<usize> = Vec::new();
    let mut i: usize = 0;
    proof {
        assert(cs.skip(0) =~= cs);
    }
    while i < ih.buffer.len()
        invariant
            ih.wf(),
            cs == ih.chunks(),
            0 <= i <= cs.len(),
            !regex_is_valid(pattern@) ==> out@ == Seq::<usize>::empty(),
            out@ + spec_regex_results(cs.skip(i as int), pattern@) == spec_regex_results(
                cs,
                pattern@,
            ),
        decreases cs.len() - i,
    {
        proof {
            assert(cs[i as int].0 + cs[i as int].1.len() <= usize::MAX);
            assert(cs.skip(i as int)[0] == cs[i as int]);
            assert(cs.skip(i as int).drop_first() =~= cs.skip(i as int + 1));
        }
        let start = ih.buffer[i].0;
        let rs = regex_find_starts(pattern, &ih.buffer[i].1);
        let ghost out0 = out@;
        let ghost translated = regex_match_starts(pattern@, cs[i as int].1).map_values(
            |s: usize| ((cs[i as int].0 + s) as usize),
        );
        let mut k: usize = 0;
        while k < rs.len()
            invariant
                ih.wf(),
                cs == ih.chunks(),
                (i as int) < cs.len(),
                start as int == cs[i as int].0,
                start + cs[i as int].1.len() <= usize::MAX,
                rs@ == regex_match_starts(pattern@, cs[i as int].1),
                !regex_is_valid(pattern@) ==> rs@ == Seq::<usize>::empty() && out0 == Seq::<
                    usize,
                >::empty(),
                forall|q: int| 0 <= q < rs@.len() ==> (#[trigger] rs@[q]) <= cs[i as int].1.len(),
                translated == regex_match_starts(pattern@, cs[i as int].1).map_values(
                    |s: usize| ((cs[i as int].0 + s) as usize),
                ),
                0 <= k <= rs@.len(),
                out@ =~= out0 + translated.take(k as int),
            decreases rs@.len() - k,
        {
            let s = rs[k];
            out.push(start + s);
            k = k + 1;
            proof {
                assert(out@ =~= out0 + translated.take(k as int));
            }
        }
        proof {
            assert(translated.take(rs@.len() as int) =~= translated);
            assert(out@ =~= out0 + translated);
        }
        i = i + 1;
    }
    proof {
        assert(cs.skip(cs.len() as int) =~= Seq::<(usize, Seq<u8>)>::empty());
        assert(out@ =~= spec_regex_results(cs, pattern@));
    }
    out
}

// ===================== entry-list search =====================

/// Does the pattern equal the bytes of the `pat.len()` consecutive entries
/// starting at entry index `i`?
pub open spec fn entries_match_at(h: Seq<(usize, u8)>, pat: Seq<u8>, i: int) -> bool {
    forall|j: int| 0 <= j < pat.len() ==> (#[trigger] h[i + j]).1 == pat[j]
}

/// The addresses of all entry-window matches from entry index `i` on, in
/// ascending index order: the naive reading the fast scan must reproduce.
pub open spec fn entry_matches_from(h: Seq<(usize, u8)>, pat: Seq<u8>, i: int) -> Seq<usize>
    decreases h.len() - i + 1,
{
    if i > h.len() - pat.len() {
        Seq::<usize>::empty()
    } else if entries_match_at(h, pat, i) {
        seq![h[i].0] + entry_matches_from(h, pat, i + 1)
    } else {
        entry_matches_from(h, pat, i + 1)
    }
}

/// The largest index strictly below `upto` where the pattern holds `b`, or
/// -1 if there is none.
pub open spec fn last_occurrence(pat: Seq<u8>, b: u8, upto: int) -> int
    decreases upto,
{
    if upto <= 0 {
        -1
    } else if pat[upto - 1] == b {
        upto - 1
    } else {
        last_occurrence(pat, b, upto - 1)
    }
}

/// The bad-character distance: how far the window may jump when its last
/// byte is `b` — to align `b` with its last occurrence before the final
/// pattern position, or past the whole window if there is none.
pub open spec fn bad_distance(pat: Seq<u8>, b: u8) -> int {
    if last_occurrence(pat, b, pat.len() - 1) == -1 {
        pat.len() as int
    } else {
        pat.len() - 1 - last_occurrence(pat, b, pat.len() - 1)
    }
}

/// A byte occurring before the final pattern position bounds its
/// bad-character distance.
proof fn lemma_last_occurrence_bound(pat: Seq<u8>, b: u8, j: int, upto: int)
    requires
        0 <= j < upto <= pat.len(),
        pat[j] == b,
    ensures
        last_occurrence(pat, b, upto) >= j,
    decreases upto,
{
    if upto - 1 > j && pat[upto - 1] != b {
        lemma_last_occurrence_bound(pat, b, j, upto - 1);
    }
}

/// Dropping non-matching window positions does not change the matches
/// still to come.
proof fn lemma_entry_matches_skip(h: Seq<(usize, u8)>, pat: Seq<u8>, i: int, s: int)
    requires
        0 <= i <= s,
        forall|t: int| i <= t < s ==> !entries_match_at(h, pat, t) || t > h.len() - pat.len(),
    ensures
        entry_matches_from(h, pat, i) == entry_matches_from(h, pat, s),
    decreases s - i,
{
    if i < s {
        if i > h.len() - pat.len() {
            assert(entry_matches_from(h, pat, i) =~= Seq::<usize>::empty());
            lemma_entry_matches_skip(h, pat, i + 1, s);
        } else {
            assert(!entries_match_at(h, pat, i));
            lemma_entry_matches_skip(h, pat, i + 1, s);
        }
    }
}

/// Compare the pattern against consecutive entry bytes starting at `i`.
fn entry_window_eq(h: &[(usize, u8)], i: usize, pat: &[u8]) -> (r: bool)
    requires
        i + pat@.len() <= h@.len(),
    ensures
        r == entries_match_at(h@, pat@, i as int),
{
    let m = pat.len();
    let n = h.len();
    let mut k: usize = 0;
    while k < m
        invariant
            0 <= k <= m,
            m == pat@.len(),
            n == h@.len(),
            i + m <= n,
            forall|q: int| 0 <= q < k ==> (#[trigger] h@[i + q]).1 == pat@[q],
        decreases m - k,
    {
        if h[i + k].1 != pat[k] {
            proof {
                assert(h@[i + k].1 != pat@[k as int]);
            }
            return false;
        }
        k = k + 1;
    }
    true
}

/// Scan a flat (address, byte) entry list for the pattern with the
/// Boyer–Moore–Horspool bad-character rule, reporting the address of each
/// window of consecutive entries whose bytes equal the pattern — exactly
/// the matches the naive left-to-right scan would report. Patterns that
/// are empty, longer than 255 bytes or longer than the list find nothing.
#[verifier::rlimit(60)]
pub fn search_bmh(haystack: &[(usize, u8)], pattern: &[u8]) -> (r: Vec<usize>)
    ensures
        r@ == (if pattern@.len() == 0 || pattern@.len() > 255 || haystack@.len()
            < pattern@.len() {
            Seq::<usize>::empty()
        } else {
            entry_matches_from(haystack@, pattern@, 0)
        }),
{
    let m = pattern.len();
    let mut out: Vec<usize> = Vec::new();
    if m == 0 || m > 255 {
        return out;
    }
    let n = haystack.len();
    if n < m {
        return out;
    }
    // Build the bad-character table.
    let mut bad: Vec<u8> = Vec::new();
    let mut b: usize = 0;
    while b < 256
        invariant
            0 <= b <= 256,
            bad@.len() == b,
            1 <= m <= 255,
            m == pattern@.len(),
            forall|q: int| 0 <= q < b ==> (#[trigger] bad@[q]) == m,
        decreases 256 - b,
    {
        bad.push(m as u8);
        b = b + 1;
    }
    let mut idx: usize = 0;
    while idx < m - 1
        invariant
            0 <= idx <= m - 1,
            1 <= m <= 255,
            m == pattern@.len(),
            bad@.len() == 256,
            forall|q: int|
                0 <= q < 256 ==> (#[trigger] bad@[q]) as int == (if last_occurrence(
                    pattern@,
                    q as u8,
                    idx as int,
                ) == -1 {
                    m as int
                } else {
                    m - 1 - last_occurrence(pattern@, q as u8, idx as int)
                }),
        decreases m - 1 - idx,
    {
        let ghost bad_before = bad@;
        bad[pattern[idx] as usize] = (m - 1 - idx) as u8;
        idx = idx + 1;
        proof {
            assert forall|q: int|
                0 <= q < 256 implies (#[trigger] bad@[q]) as int == (if last_occurrence(
                pattern@,
                q as u8,
                idx as int,
            ) == -1 {
                m as int
            } else {
                m - 1 - last_occurrence(pattern@, q as u8, idx as int)
            }) by {
                if q == pattern@[idx - 1] as int {
                    assert(last_occurrence(pattern@, q as u8, idx as int) == idx - 1);
                } else {
                    assert(bad@[q] == bad_before[q]);
                    assert(last_occurrence(pattern@, q as u8, idx as int) == last_occurrence(
                        pattern@,
                        q as u8,
                        idx as int - 1,
                    ));
                }
            }
        }
    }
    proof {
        assert forall|q: int| 0 <= q < 256 implies 1 <= (#[trigger] bad@[q]) as int <= m by {
            if last_occurrence(pattern@, q as u8, m as int - 1) != -1 {
                lemma_last_occurrence_nonneg(pattern@, q as u8, m as int - 1);
            }
        }
    }
    // Slide the window, jumping by the bad-character distance on mismatch.
    let mut i: usize = 0;
    while i <= n - m
        invariant
            1 <= m <= 255,
            m == pattern@.len(),
            n == haystack@.len(),
            m <= n,
            bad@.len() == 256,
            forall|q: int|
                0 <= q < 256 ==> (#[trigger] bad@[q]) as int == bad_distance(pattern@, q as u8),
            forall|q: int| 0 <= q < 256 ==> 1 <= (#[trigger] bad@[q]) as int <= m,
            0 <= i,
            out@ + entry_matches_from(haystack@, pattern@, i as int) == entry_matches_from(
                haystack@,
                pattern@,
                0,
            ),
        decreases n - i,
    {
        let hit = entry_window_eq(haystack, i, pattern);
        if hit {
            out.push(haystack[i].0);
            proof {
                assert(entry_matches_from(haystack@, pattern@, i as int) == seq![
                    haystack@[i as int].0,
                ] + entry_matches_from(haystack@, pattern@, i as int + 1));
                assert(out@ + entry_matches_from(haystack@, pattern@, i as int + 1)
                    =~= out@.drop_last() + entry_matches_from(haystack@, pattern@, i as int));
            }
            i = i + 1;
        } else {
            let lb = haystack[i + m - 1].1;
            let skip = bad[lb as usize] as usize;
            proof {
                // No window starting inside the jump can match: it would
                // put the current last byte at a pattern position that the
                // bad-character distance already ruled out.
                assert forall|t: int|
                    i <= t < i + skip implies !entries_match_at(haystack@, pattern@, t) || t
                    > haystack@.len() - pattern@.len() by {
                    if t == i {
                        assert(!entries_match_at(haystack@, pattern@, t));
                    } else if t <= haystack@.len() - pattern@.len() && entries_match_at(
                        haystack@,
                        pattern@,
                        t,
                    ) {
                        let jstar = i + m - 1 - t;
                        assert(0 <= jstar < m - 1);
                        assert(haystack@[t + jstar].1 == pattern@[jstar]);
                        assert(pattern@[jstar] == lb);
                        lemma_last_occurrence_bound(pattern@, lb, jstar, m as int - 1);
                        assert(bad_distance(pattern@, lb) <= m - 1 - jstar);
                        assert(false);
                    }
                }
                lemma_entry_matches_skip(
                    haystack@,
                    pattern@,
                    i as int,
                    i as int + skip as int,
                );
            }
            i = i + skip;
        }
    }
    proof {
        assert(entry_matches_from(haystack@, pattern@, i as int) =~= Seq::<usize>::empty());
        assert(out@ =~= out@ + Seq::<usize>::empty());
    }
    out
}

proof fn lemma_last_occurrence_nonneg(pat: Seq<u8>, b: u8, upto: int)
    requires
        last_occurrence(pat, b, upto) != -1,
    ensures
        0 <= last_occurrence(pat, b, upto) < upto,
    decreases upto,
{
    if upto > 0 && pat[upto - 1] != b {
        lemma_last_occurrence_nonneg(pat, b, upto - 1);
    }
}

/// Search the image for a pattern: raw bytes and ASCII text slide a window
/// across each chunk, a regular expression runs per chunk; all match
/// addresses are absolute and reported in ascending chunk order.
pub fn search(ih: &IntelHex, search_type: &SearchType) -> (r: Vec<usize>)
    requires
        ih.wf(),
    ensures
        (match search_type {
            SearchType::Hex(p) => {
                &&& (forall|k: int|
                    0 <= k < r@.len() ==> is_match_at(*ih, (#[trigger] r@[k]) as int, p@))
                &&& (forall|k: int| 0 <= k < r@.len() - 1 ==> (#[trigger] r@[k]) < r@[k + 1])
                &&& (forall|a: int|
                    is_match_at(*ih, a, p@) ==> exists|k: int|
                        0 <= k < r@.len() && (#[trigger] r@[k]) == a)
            },
            SearchType::Ascii(s) => {
                &&& (forall|k: int|
                    0 <= k < r@.len() ==> is_match_at(
                        *ih,
                        (#[trigger] r@[k]) as int,
                        vstd::utf8::encode_utf8(s@),
                    ))
                &&& (forall|k: int| 0 <= k < r@.len() - 1 ==> (#[trigger] r@[k]) < r@[k + 1])
                &&& (forall|a: int|
                    is_match_at(*ih, a, vstd::utf8::encode_utf8(s@)) ==> exists|k: int|
                        0 <= k < r@.len() && (#[trigger] r@[k]) == a)
            },
            SearchType::Regex(p) => {
                &&& r@ == spec_regex_results(ih.chunks(), p@)
                &&& (!regex_is_valid(p@) ==> r@ == Seq::<usize>::empty())
            },
        }),
{
    match search_type {
        SearchType::Hex(p) => search_bytes(ih, p.as_slice()),
        SearchType::Ascii(s) => search_bytes(ih, s.as_str().as_bytes()),
        SearchType::Regex(p) => search_regex(ih, p.as_str()),
    }
}

} // verus!
