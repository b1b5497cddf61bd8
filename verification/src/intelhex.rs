//! The sparse memory image: an ordered collection of non-overlapping,
//! maximally merged contiguous byte runs keyed by start address, with
//! point/range reads, atomic updates, relocation, merging, loading from
//! Intel HEX text or flat binary bytes, and serialization back to either
//! form.

use vstd::prelude::*;

verus! {

use crate::error::{IntelHexError, IntelHexErrorKind};
use crate::record::{Record, RecordType};

/// One maximal contiguous run: its start address paired with its bytes.
pub type Chunk = (usize, Vec<u8>);

/// Does chunk `i` of `cs` hold a byte for address `addr`?
pub open spec fn covers(cs: Seq<(usize, Seq<u8>)>, i: int, addr: int) -> bool {
    cs[i].0 <= addr < cs[i].0 + cs[i].1.len()
}

/// The well-formedness of a chunk sequence: every chunk is non-empty, chunk
/// ends stay within the address type, and any two chunks in order are
/// separated by at least one absent address — non-overlapping and never
/// merely adjacent.
pub open spec fn chunks_wf(cs: Seq<(usize, Seq<u8>)>) -> bool {
    &&& forall|i: int| 0 <= i < cs.len() ==> (#[trigger] cs[i]).1.len() > 0
    &&& forall|i: int| 0 <= i < cs.len() ==> (#[trigger] cs[i]).0 + cs[i].1.len() <= usize::MAX
    &&& forall|i: int, j: int|
        #![trigger cs[i], cs[j]]
        0 <= i < j < cs.len() ==> cs[i].0 + cs[i].1.len() < cs[j].0
}

/// The byte the chunk sequence holds for an address, scanning chunks in
/// order: the partial-memory reading of the representation.
pub open spec fn chunks_byte(cs: Seq<(usize, Seq<u8>)>, addr: int) -> Option<u8>
    decreases cs.len(),
{
    if cs.len() == 0 {
        None
    } else if cs[0].0 <= addr < cs[0].0 + cs[0].1.len() {
        Some(cs[0].1[addr - cs[0].0])
    } else {
        chunks_byte(cs.drop_first(), addr)
    }
}

proof fn lemma_wf_drop_first(cs: Seq<(usize, Seq<u8>)>)
    requires
        chunks_wf(cs),
        cs.len() > 0,
    ensures
        chunks_wf(cs.drop_first()),
{
    assert(forall|i: int| 0 <= i < cs.drop_first().len() ==> cs.drop_first()[i] == cs[i + 1]);
}

/// If some chunk covers the address in a well-formed sequence, the memory
/// holds that chunk's byte there.
pub proof fn lemma_chunks_byte_covers(cs: Seq<(usize, Seq<u8>)>, i: int, addr: int)
    requires
        chunks_wf(cs),
        0 <= i < cs.len(),
        covers(cs, i, addr),
    ensures
        chunks_byte(cs, addr) == Some(cs[i].1[addr - cs[i].0]),
    decreases cs.len(),
{
    if i == 0 {
    } else {
        assert(cs[0].0 + cs[0].1.len() < cs[i].0);
        lemma_wf_drop_first(cs);
        assert(cs.drop_first()[i - 1] == cs[i]);
        lemma_chunks_byte_covers(cs.drop_first(), i - 1, addr);
    }
}

/// If no chunk covers the address, the memory holds nothing there.
pub proof fn lemma_chunks_byte_none(cs: Seq<(usize, Seq<u8>)>, addr: int)
    requires
        forall|i: int| 0 <= i < cs.len() ==> !covers(cs, i, addr),
    ensures
        chunks_byte(cs, addr) == None::<u8>,
    decreases cs.len(),
{
    if cs.len() > 0 {
        assert(!covers(cs, 0, addr));
        assert forall|i: int|
            0 <= i < cs.drop_first().len() implies !covers(cs.drop_first(), i, addr) by {
            assert(cs.drop_first()[i] == cs[i + 1]);
            assert(!covers(cs, i + 1, addr));
        }
        lemma_chunks_byte_none(cs.drop_first(), addr);
    }
}

/// A held byte always comes from some covering chunk.
pub proof fn lemma_chunks_byte_exists(cs: Seq<(usize, Seq<u8>)>, addr: int)
    requires
        chunks_byte(cs, addr) is Some,
    ensures
        exists|i: int|
            0 <= i < cs.len() && covers(cs, i, addr) && chunks_byte(cs, addr) == Some(
                cs[i].1[addr - cs[i].0],
            ),
    decreases cs.len(),
{
    if cs.len() == 0 {
    } else if cs[0].0 <= addr < cs[0].0 + cs[0].1.len() {
        assert(covers(cs, 0, addr));
    } else {
        lemma_chunks_byte_exists(cs.drop_first(), addr);
        let i = choose|i: int|
            0 <= i < cs.drop_first().len() && covers(cs.drop_first(), i, addr) && chunks_byte(
                cs.drop_first(),
                addr,
            ) == Some(cs.drop_first()[i].1[addr - cs.drop_first()[i].0]);
        assert(cs.drop_first()[i] == cs[i + 1]);
        assert(covers(cs, i + 1, addr) && chunks_byte(cs, addr) == Some(
            cs[i + 1].1[addr - cs[i + 1].0],
        ));
    }
}

/// What a batch of (address, value) writes leaves at address `a`, when the
/// byte there was `orig` before: the value of the last pair naming `a`, or
/// `orig` if none does.
pub open spec fn updated_byte(orig: Option<u8>, pairs: Seq<(usize, u8)>, a: int) -> Option<u8>
    decreases pairs.len(),
{
    if pairs.len() == 0 {
        orig
    } else if pairs.last().0 == a {
        Some(pairs.last().1)
    } else {
        updated_byte(orig, pairs.drop_last(), a)
    }
}

/// The extended linear address record line announcing a high address half.
pub open spec fn spec_ela_line(high: u16) -> Seq<u8> {
    crate::record::record_line(
        2,
        0,
        0x04,
        seq![(high as int / 256) as u8, (high as int % 256) as u8],
    )
}

/// The data record line carrying a payload at a 16-bit record address.
pub open spec fn spec_data_line(low: u16, payload: Seq<u8>) -> Seq<u8> {
    crate::record::record_line(payload.len() as u8, low, 0x00, payload)
}

/// The record lines one chunk contributes, and the high half left
/// announced afterwards: data records never exceed the payload limit and
/// never cross a 64 KiB boundary, and an extended linear address record
/// precedes a data record whenever the high half of its absolute address
/// differs from the one last announced.
pub open spec fn spec_emit_chunk(addr: int, data: Seq<u8>, mps: int, cur_high: Option<u16>) -> (
    Seq<u8>,
    Option<u16>,
)
    decreases data.len(),
{
    if data.len() == 0 || mps < 1 {
        (Seq::<u8>::empty(), cur_high)
    } else {
        let high = (((addr / 0x10000) % 0x10000) as u16);
        let low = ((addr % 0x10000) as u16);
        let ela: Seq<u8> = if cur_high != Some(high) {
            spec_ela_line(high) + seq![0x0Au8]
        } else {
            Seq::<u8>::empty()
        };
        let rem = 0x10000 - (low as int);
        let c1 = if mps <= data.len() {
            mps
        } else {
            data.len() as int
        };
        let csize = if c1 <= rem {
            c1
        } else {
            rem
        };
        let line = spec_data_line(low, data.take(csize)) + seq![0x0Au8];
        let rest = spec_emit_chunk(addr + csize, data.skip(csize), mps, Some(high));
        (ela + line + rest.0, rest.1)
    }
}

/// The record lines of a whole chunk sequence, threading the announced
/// high half from chunk to chunk.
pub open spec fn spec_emit_chunks(
    cs: Seq<(usize, Seq<u8>)>,
    mps: int,
    cur_high: Option<u16>,
) -> Seq<u8>
    decreases cs.len(),
{
    if cs.len() == 0 {
        Seq::<u8>::empty()
    } else {
        let first = spec_emit_chunk(cs[0].0 as int, cs[0].1, mps, cur_high);
        first.0 + spec_emit_chunks(cs.drop_first(), mps, first.1)
    }
}

/// The exact Intel HEX text of an image: the stored start record first and
/// verbatim, then every chunk's records in ascending address order, then
/// exactly one end-of-file record, with a line feed after every line but
/// the last.
pub open spec fn spec_hex_file(start: Option<Seq<u8>>, cs: Seq<(usize, Seq<u8>)>, mps: int) -> Seq<
    u8,
> {
    (match start {
        Some(s) => s + seq![0x0Au8],
        None => Seq::<u8>::empty(),
    }) + spec_emit_chunks(cs, mps, None) + crate::record::record_line(0, 0, 0x01, Seq::empty())
}

/// The part of an image a load manipulates: the partial memory, the running
/// extended-address offset, and the stored start record line.
pub struct LoadState {
    pub mem: Map<int, u8>,
    pub offset: int,
    pub start: Option<Seq<u8>>,
}

/// The outcome of folding hex lines into a load state: the state reached,
/// and the error that stopped the fold, if one did. On an error the state
/// is the one from just before the failing line.
pub struct LoadResult {
    pub state: LoadState,
    pub err: Option<IntelHexError>,
}

/// A line with one optional trailing carriage return removed.
pub open spec fn strip_cr(line: Seq<u8>) -> Seq<u8> {
    if line.len() > 0 && line.last() == 0x0Du8 {
        line.drop_last()
    } else {
        line
    }
}

/// The segments of `raw` split on line feeds, `cur` being the partial
/// segment read so far.
pub open spec fn split_lines_rec(raw: Seq<u8>, cur: Seq<u8>) -> Seq<Seq<u8>>
    decreases raw.len(),
{
    if raw.len() == 0 {
        seq![cur]
    } else if raw[0] == 0x0Au8 {
        seq![cur] + split_lines_rec(raw.drop_first(), Seq::empty())
    } else {
        split_lines_rec(raw.drop_first(), cur.push(raw[0]))
    }
}

/// The segments of `raw` split on line feeds.
pub open spec fn split_lines(raw: Seq<u8>) -> Seq<Seq<u8>> {
    split_lines_rec(raw, Seq::empty())
}

/// Does the memory hold nothing anywhere on `[addr, addr + len)`?
pub open spec fn run_free(mem: Map<int, u8>, addr: int, len: int) -> bool {
    forall|a: int| addr <= a < addr + len ==> !mem.dom().contains(a)
}

/// The memory extended with a run of bytes at `addr`.
pub open spec fn mem_with_run(mem: Map<int, u8>, addr: int, data: Seq<u8>) -> Map<int, u8> {
    Map::new(
        |a: int| mem.dom().contains(a) || (addr <= a < addr + data.len()),
        |a: int|
            if addr <= a < addr + data.len() {
                data[a - addr]
            } else {
                mem[a]
            },
    )
}

/// How one decoded record advances a load: data extends the memory (whole
/// runs only — any overlap with held bytes is fatal), extended address
/// records move the running offset, a start record is stored verbatim once,
/// and an end-of-file record does nothing.
pub open spec fn spec_apply_record(
    st: LoadState,
    rv: crate::record::RecordV,
    line: Seq<u8>,
    n: usize,
) -> Result<LoadState, IntelHexError> {
    match rv.rtype {
        RecordType::Data => {
            let addr = rv.address as int + st.offset;
            if rv.data.len() == 0 {
                Ok(st)
            } else if addr + rv.data.len() > usize::MAX {
                Err(
                    IntelHexError::ParseRecordError(
                        IntelHexErrorKind::RecordAddressOverlap(addr as usize),
                        n,
                    ),
                )
            } else if !run_free(st.mem, addr, rv.data.len() as int) {
                Err(
                    IntelHexError::ParseRecordError(
                        IntelHexErrorKind::RecordAddressOverlap(addr as usize),
                        n,
                    ),
                )
            } else {
                Ok(LoadState { mem: mem_with_run(st.mem, addr, rv.data), ..st })
            }
        },
        RecordType::EndOfFile => Ok(st),
        RecordType::ExtendedSegmentAddress => Ok(
            LoadState { offset: (rv.data[0] as int * 256 + rv.data[1] as int) * 16, ..st },
        ),
        RecordType::ExtendedLinearAddress => Ok(
            LoadState { offset: (rv.data[0] as int * 256 + rv.data[1] as int) * 65536, ..st },
        ),
        RecordType::StartSegmentAddress | RecordType::StartLinearAddress => {
            if st.start is Some {
                Err(IntelHexError::ParseRecordError(IntelHexErrorKind::DuplicateStartAddress, n))
            } else {
                Ok(LoadState { start: Some(line), ..st })
            }
        },
    }
}

/// How one non-empty line advances a load: decode it, then fold the record
/// in; a decode failure is fatal and carries the line index `n`.
pub open spec fn spec_apply_line(st: LoadState, line: Seq<u8>, n: usize) -> Result<
    LoadState,
    IntelHexError,
> {
    match crate::record::spec_parse_record(line) {
        Err(k) => Err(IntelHexError::ParseRecordError(k, n)),
        Ok(rv) => spec_apply_record(st, rv, line, n),
    }
}

/// Folding a list of line segments into a load state: carriage returns are
/// stripped, blank segments are skipped, and the first failure stops the
/// fold. `count` is the number of segments already consumed, blank or not,
/// so a failing line reports its 1-based position in the source.
pub open spec fn spec_load_lines(lines: Seq<Seq<u8>>, st: LoadState, count: int) -> LoadResult
    decreases lines.len(),
{
    if lines.len() == 0 {
        LoadResult { state: st, err: None }
    } else {
        let line = strip_cr(lines[0]);
        if line.len() == 0 {
            spec_load_lines(lines.drop_first(), st, count + 1)
        } else {
            match spec_apply_line(st, line, ((count + 1) as usize)) {
                Err(e) => LoadResult { state: st, err: Some(e) },
                Ok(st2) => spec_load_lines(lines.drop_first(), st2, count + 1),
            }
        }
    }
}

/// A record a successful decode returns has the declared payload length and
/// the per-type shape the format demands.
pub proof fn lemma_parse_ok_shape(line: Seq<u8>)
    requires
        crate::record::spec_parse_record(line) is Ok,
    ensures
        ({
            let rv = crate::record::spec_parse_record(line)->Ok_0;
            &&& rv.data.len() == rv.length as int
            &&& (rv.rtype == RecordType::EndOfFile ==> rv.length == 0)
            &&& ((rv.rtype == RecordType::ExtendedSegmentAddress || rv.rtype
                == RecordType::ExtendedLinearAddress) ==> rv.length == 2)
            &&& ((rv.rtype == RecordType::StartSegmentAddress || rv.rtype
                == RecordType::StartLinearAddress) ==> rv.length == 4)
            &&& (rv.rtype != RecordType::Data ==> rv.address == 0)
            &&& line.len() > 0
            &&& line[0] == 0x3Au8
            &&& (forall|i: int|
                1 <= i < line.len() ==> crate::record::is_hex_digit(#[trigger] line[i]))
        }),
{
    assert forall|i: int|
        1 <= i < line.len() implies crate::record::is_hex_digit(#[trigger] line[i]) by {
        assert(line.skip(1)[i - 1] == line[i]);
    }
}

/// The merge-insert step: `ns` arises from `cs` by replacing the chunks
/// with indices in `[p, s)` — the run's immediate neighbours, absorbed by
/// the merge — with one merged chunk at `p` carrying the absorbed
/// neighbours' bytes around the newly inserted run. Then `ns` is
/// well-formed, holds the new run, and holds every other address unchanged.
#[verifier::rlimit(60)]
proof fn lemma_merged_insert(
    cs: Seq<(usize, Seq<u8>)>,
    ns: Seq<(usize, Seq<u8>)>,
    p: int,
    s: int,
    start0: usize,
    addr: usize,
    new_end: int,
    pview: Seq<u8>,
    dview: Seq<u8>,
    nview: Seq<u8>,
)
    requires
        chunks_wf(cs),
        0 <= p <= s <= cs.len(),
        ns.len() == p + 1 + (cs.len() - s),
        new_end == addr + dview.len(),
        dview.len() > 0,
        ns[p].0 == start0,
        ns[p].1 =~= pview + dview + nview,
        start0 + pview.len() == addr,
        start0 + ns[p].1.len() <= usize::MAX,
        forall|j: int| 0 <= j < p ==> ns[j] == cs[j],
        forall|j: int| p < j < ns.len() ==> ns[j] == cs[j - p - 1 + s],
        pview.len() > 0 ==> p < s && cs[p].0 == start0 && cs[p].1 == pview,
        pview.len() == 0 ==> start0 == addr,
        nview.len() > 0 ==> p < s && cs[s - 1].0 == new_end && cs[s - 1].1 == nview,
        s - p == (if pview.len() > 0 {
            1int
        } else {
            0int
        }) + (if nview.len() > 0 {
            1int
        } else {
            0int
        }),
        forall|j: int| 0 <= j < p ==> cs[j].0 + cs[j].1.len() < start0,
        forall|j: int| s <= j < cs.len() ==> start0 + ns[p].1.len() < cs[j].0,
        forall|a: int| addr <= a < new_end ==> chunks_byte(cs, a) == None::<u8>,
    ensures
        chunks_wf(ns),
        forall|k: int| 0 <= k < dview.len() ==> chunks_byte(ns, addr + k) == Some(dview[k]),
        forall|a: int| !(addr <= a < new_end) ==> chunks_byte(ns, a) == chunks_byte(cs, a),
{
    let estar = start0 + ns[p].1.len();
    let mview = ns[p].1;
    assert(estar == new_end + nview.len());
    assert(chunks_wf(ns)) by {
        assert forall|j: int| 0 <= j < ns.len() implies (#[trigger] ns[j]).1.len() > 0 by {
            if j < p {
                assert(cs[j].1.len() > 0);
            } else if j > p {
                assert(ns[j] == cs[j - p - 1 + s]);
                assert(cs[j - p - 1 + s].1.len() > 0);
            }
        }
        assert forall|j: int|
            0 <= j < ns.len() implies (#[trigger] ns[j]).0 + ns[j].1.len() <= usize::MAX by {
            if j < p {
                assert(cs[j].0 + cs[j].1.len() <= usize::MAX);
            } else if j > p {
                assert(ns[j] == cs[j - p - 1 + s]);
                assert(cs[j - p - 1 + s].0 + cs[j - p - 1 + s].1.len() <= usize::MAX);
            }
        }
        assert forall|j: int, k: int|
            #![trigger ns[j], ns[k]]
            0 <= j < k < ns.len() implies ns[j].0 + ns[j].1.len() < ns[k].0 by {
            if j < p && k < p {
                assert(cs[j].0 + cs[j].1.len() < cs[k].0);
            } else if j < p && k == p {
                assert(cs[j].0 + cs[j].1.len() < start0);
            } else if j < p && k > p {
                assert(cs[j].0 + cs[j].1.len() < start0);
                assert(estar < cs[k - p - 1 + s].0);
            } else if j == p {
                assert(estar < cs[k - p - 1 + s].0);
            } else {
                assert(cs[j - p - 1 + s].0 + cs[j - p - 1 + s].1.len() < cs[k - p - 1 + s].0);
            }
        }
    }
    assert forall|k: int|
        0 <= k < dview.len() implies chunks_byte(ns, addr + k) == Some(dview[k]) by {
        assert(covers(ns, p, addr + k));
        lemma_chunks_byte_covers(ns, p, addr + k);
        assert(mview[addr + k - start0] == dview[k]);
    }
    assert forall|a: int|
        !(addr <= a < new_end) implies chunks_byte(ns, a) == chunks_byte(cs, a) by {
        if start0 <= a < addr {
            assert(covers(ns, p, a));
            lemma_chunks_byte_covers(ns, p, a);
            assert(mview[a - start0] == pview[a - start0]);
            assert(pview.len() > 0);
            assert(covers(cs, p, a));
            lemma_chunks_byte_covers(cs, p, a);
        } else if new_end <= a < estar {
            assert(covers(ns, p, a));
            lemma_chunks_byte_covers(ns, p, a);
            assert(mview[a - start0] == nview[a - new_end]);
            assert(nview.len() > 0);
            assert(covers(cs, s - 1, a));
            lemma_chunks_byte_covers(cs, s - 1, a);
        } else {
            assert(!covers(ns, p, a));
            match chunks_byte(cs, a) {
                Some(_) => {
                    lemma_chunks_byte_exists(cs, a);
                    let j = choose|j: int|
                        0 <= j < cs.len() && covers(cs, j, a) && chunks_byte(cs, a) == Some(
                            cs[j].1[a - cs[j].0],
                        );
                    assert(j < p || j >= s) by {
                        if p <= j < s {
                            if pview.len() > 0 && j == p {
                                assert(covers(ns, p, a));
                            } else {
                                assert(nview.len() > 0 && j == s - 1);
                                assert(covers(ns, p, a));
                            }
                        }
                    }
                    if j < p {
                        assert(covers(ns, j, a));
                        lemma_chunks_byte_covers(ns, j, a);
                    } else {
                        assert(ns[j - s + p + 1] == cs[j]);
                        assert(covers(ns, j - s + p + 1, a));
                        lemma_chunks_byte_covers(ns, j - s + p + 1, a);
                    }
                },
                None => {
                    assert forall|j: int| 0 <= j < ns.len() implies !covers(ns, j, a) by {
                        if j < p {
                            if covers(ns, j, a) {
                                lemma_chunks_byte_covers(cs, j, a);
                            }
                        } else if j > p {
                            assert(ns[j] == cs[j - p - 1 + s]);
                            if covers(ns, j, a) {
                                lemma_chunks_byte_covers(cs, j - p - 1 + s, a);
                            }
                        }
                    }
                    lemma_chunks_byte_none(ns, a);
                },
            }
        }
    }
}

/// Replacing one chunk's bytes by equally many changes the memory only on
/// the span that chunk covers, and preserves well-formedness.
proof fn lemma_update_chunk_data(cs: Seq<(usize, Seq<u8>)>, i: int, nd: Seq<u8>)
    requires
        chunks_wf(cs),
        0 <= i < cs.len(),
        nd.len() == cs[i].1.len(),
    ensures
        chunks_wf(cs.update(i, (cs[i].0, nd))),
        forall|a: int|
            chunks_byte(cs.update(i, (cs[i].0, nd)), a) == (if covers(cs, i, a) {
                Some(nd[a - cs[i].0])
            } else {
                chunks_byte(cs, a)
            }),
{
    let ns = cs.update(i, (cs[i].0, nd));
    assert forall|j: int| 0 <= j < cs.len() implies #[trigger] ns[j].0 == cs[j].0 && ns[j].1.len()
        == cs[j].1.len() by {
        if j != i {
            assert(ns[j] == cs[j]);
        }
    }
    assert(chunks_wf(ns)) by {
        assert forall|j: int| 0 <= j < ns.len() implies (#[trigger] ns[j]).1.len() > 0 by {
            assert(cs[j].1.len() > 0);
        }
        assert forall|j: int|
            0 <= j < ns.len() implies (#[trigger] ns[j]).0 + ns[j].1.len() <= usize::MAX by {
            assert(cs[j].0 + cs[j].1.len() <= usize::MAX);
        }
        assert forall|j: int, k: int|
            #![trigger ns[j], ns[k]]
            0 <= j < k < ns.len() implies ns[j].0 + ns[j].1.len() < ns[k].0 by {
            assert(cs[j].0 + cs[j].1.len() < cs[k].0);
        }
    }
    assert forall|a: int|
        chunks_byte(ns, a) == (if covers(cs, i, a) {
            Some(nd[a - cs[i].0])
        } else {
            chunks_byte(cs, a)
        }) by {
        if covers(cs, i, a) {
            assert(covers(ns, i, a));
            lemma_chunks_byte_covers(ns, i, a);
        } else {
            match chunks_byte(cs, a) {
                Some(_) => {
                    lemma_chunks_byte_exists(cs, a);
                    let j = choose|j: int|
                        0 <= j < cs.len() && covers(cs, j, a) && chunks_byte(cs, a) == Some(
                            cs[j].1[a - cs[j].0],
                        );
                    assert(j != i);
                    assert(ns[j] == cs[j]);
                    assert(covers(ns, j, a));
                    lemma_chunks_byte_covers(ns, j, a);
                },
                None => {
                    assert forall|j: int| 0 <= j < ns.len() implies !covers(ns, j, a) by {
                        if covers(ns, j, a) {
                            assert(covers(cs, j, a));
                            assert(j != i);
                            lemma_chunks_byte_covers(cs, j, a);
                        }
                    }
                    lemma_chunks_byte_none(ns, a);
                },
            }
        }
    }
}

/// The sparse memory image of an Intel HEX file: maximally merged contiguous
/// byte runs in ascending address order, plus the metadata that travels with
/// the file.
#[derive(Debug, Clone)]
pub struct IntelHex {
    /// Path the image was loaded from, as the loader reported it.
    pub filepath: String,
    /// Size in bytes of the encoded source file.
    pub size: usize,
    /// The verbatim encoded line of a Start Segment/Linear Address record,
    /// passed through unmodified.
    pub start_addr: Option<Vec<u8>>,
    /// How many payload bytes one emitted data record may carry (1–255).
    pub max_payload_size: usize,
    /// Running additive offset set by extended address records during a load.
    pub offset: usize,
    /// The chunks, sorted by start address.
    pub buffer: Vec<Chunk>,
}

impl Default for IntelHex {
    fn default() -> (r: IntelHex)
        ensures
            r.wf(),
            r.chunks().len() == 0,
            r.size == 0,
            r.start_addr is None,
            r.max_payload_size == 16,
            r.offset == 0,
    {
        IntelHex::new()
    }
}

impl IntelHex {
    /// The mathematical reading of the chunk store.
    pub open spec fn chunks(self) -> Seq<(usize, Seq<u8>)> {
        self.buffer@.map_values(|p: Chunk| (p.0, p.1@))
    }

    /// The internal invariant: well-formed chunks, a payload size within
    /// 1–255, and an extended-address offset within what the format can
    /// express.
    /// A stored start record is a plausible record line: the start marker
    /// followed by hex digits only. What a load stores always is.
    pub open spec fn start_wf(self) -> bool {
        match self.start_addr {
            Some(v) => v@.len() > 0 && v@[0] == 0x3Au8 && (forall|i: int|
                1 <= i < v@.len() ==> crate::record::is_hex_digit(#[trigger] v@[i])),
            None => true,
        }
    }

    pub open spec fn wf(self) -> bool {
        &&& chunks_wf(self.chunks())
        &&& 1 <= self.spec_max_payload_size() <= 255
        &&& self.spec_offset() <= 0xFFFF0000
        &&& self.start_wf()
    }

    /// The byte the image holds at an address, if any.
    pub open spec fn spec_byte(self, addr: int) -> Option<u8> {
        chunks_byte(self.chunks(), addr)
    }

    /// Does the image hold a byte at this address?
    pub open spec fn defined_at(self, addr: int) -> bool {
        self.spec_byte(addr) is Some
    }

    /// The payload-size setting, for contracts.
    pub open spec fn spec_max_payload_size(self) -> usize {
        self.max_payload_size
    }

    /// The running extended-address offset, for contracts.
    pub open spec fn spec_offset(self) -> usize {
        self.offset
    }

    /// Creates an empty image: no data, no start record, default payload
    /// size of 16.
    pub fn new() -> (r: IntelHex)
        ensures
            r.wf(),
            r.chunks().len() == 0,
            r.size == 0,
            r.start_addr is None,
            r.spec_max_payload_size() == 16,
            r.spec_offset() == 0,
            r.filepath@.len() == 0,
            forall|a: int| !r.defined_at(a),
    {
        let r = IntelHex {
            filepath: String::new(),
            size: 0,
            start_addr: None,
            max_payload_size: 16,
            offset: 0,
            buffer: Vec::new(),
        };
        proof {
            assert(r.chunks() =~= Seq::<(usize, Seq<u8>)>::empty());
            assert(forall|a: int| chunks_byte(r.chunks(), a) == Option::<u8>::None);
        }
        r
    }

    /// Clears loaded data, restoring the freshly created state except for
    /// the payload-size setting, which survives.
    pub fn clear(&mut self)
        ensures
            final(self).wf(),
            final(self).chunks().len() == 0,
            final(self).size == 0,
            final(self).start_addr is None,
            final(self).spec_max_payload_size() == if 1 <= old(self).spec_max_payload_size()
                <= 255 {
                old(self).spec_max_payload_size()
            } else {
                final(self).spec_max_payload_size()
            },
            final(self).spec_offset() == 0,
            final(self).filepath@.len() == 0,
            forall|a: int| !final(self).defined_at(a),
    {
        self.filepath = String::new();
        self.size = 0;
        self.start_addr = None;
        self.offset = 0;
        if self.max_payload_size < 1 || self.max_payload_size > 255 {
            self.max_payload_size = 16;
        }
        self.buffer = Vec::new();
        proof {
            assert(self.chunks() =~= Seq::<(usize, Seq<u8>)>::empty());
            assert(forall|a: int| chunks_byte(self.chunks(), a) == Option::<u8>::None);
        }
    }

    /// Index of the last chunk starting at or below `addr`, if any.
    fn find_pred(&self, addr: usize) -> (r: Option<usize>)
        ensures
            match r {
                Some(i) => {
                    &&& (i as int) < self.chunks().len()
                    &&& self.chunks()[i as int].0 <= addr
                    &&& forall|j: int| i < j < self.chunks().len() ==> self.chunks()[j].0 > addr
                },
                None => forall|j: int| 0 <= j < self.chunks().len() ==> self.chunks()[j].0 > addr,
            },
    {
        let mut i: usize = self.buffer.len();
        while i > 0
            invariant
                i <= self.buffer@.len(),
                forall|j: int| i <= j < self.chunks().len() ==> self.chunks()[j].0 > addr,
            decreases i,
        {
            if self.buffer[i - 1].0 <= addr {
                return Some(i - 1);
            }
            i = i - 1;
        }
        None
    }

    /// Read the byte at an address: `Some` exactly where the image holds
    /// data.
    pub fn read_byte(&self, address: usize) -> (r: Option<u8>)
        requires
            self.wf(),
        ensures
            r == self.spec_byte(address as int),
    {
        match self.find_pred(address) {
            Some(i) => {
                let start = self.buffer[i].0;
                let len = self.buffer[i].1.len();
                if address < start + len {
                    let b = self.buffer[i].1[address - start];
                    proof {
                        lemma_chunks_byte_covers(self.chunks(), i as int, address as int);
                    }
                    Some(b)
                } else {
                    proof {
                        assert forall|j: int|
                            0 <= j < self.chunks().len() implies !covers(
                            self.chunks(),
                            j,
                            address as int,
                        ) by {
                            if j < i {
                                assert(self.chunks()[j].0 + self.chunks()[j].1.len()
                                    < self.chunks()[i as int].0);
                            }
                        }
                        lemma_chunks_byte_none(self.chunks(), address as int);
                    }
                    None
                }
            },
            None => {
                proof {
                    lemma_chunks_byte_none(self.chunks(), address as int);
                }
                None
            },
        }
    }

    /// Read the byte at an address. The historical name of [`Self::read_byte`].
    pub fn get_byte(&self, address: usize) -> (r: Option<u8>)
        requires
            self.wf(),
        ensures
            r == self.spec_byte(address as int),
    {
        self.read_byte(address)
    }

    /// The smallest address holding data, if any.
    pub fn get_min_addr(&self) -> (r: Option<usize>)
        requires
            self.wf(),
        ensures
            match r {
                Some(m) => self.defined_at(m as int) && forall|a: int|
                    a < m ==> !self.defined_at(a),
                None => forall|a: int| !self.defined_at(a),
            },
    {
        if self.buffer.len() == 0 {
            proof {
                assert forall|a: int| !self.defined_at(a) by {
                    lemma_chunks_byte_none(self.chunks(), a);
                }
            }
            None
        } else {
            let m = self.buffer[0].0;
            proof {
                lemma_chunks_byte_covers(self.chunks(), 0, m as int);
                assert forall|a: int| a < m implies !self.defined_at(a) by {
                    assert forall|j: int|
                        0 <= j < self.chunks().len() implies !covers(self.chunks(), j, a) by {
                        if j > 0 {
                            assert(self.chunks()[0].0 + self.chunks()[0].1.len()
                                < self.chunks()[j].0);
                        }
                    }
                    lemma_chunks_byte_none(self.chunks(), a);
                }
            }
            Some(m)
        }
    }

    /// The largest address holding data, if any.
    pub fn get_max_addr(&self) -> (r: Option<usize>)
        requires
            self.wf(),
        ensures
            match r {
                Some(m) => self.defined_at(m as int) && forall|a: int|
                    a > m ==> !self.defined_at(a),
                None => forall|a: int| !self.defined_at(a),
            },
    {
        if self.buffer.len() == 0 {
            proof {
                assert forall|a: int| !self.defined_at(a) by {
                    lemma_chunks_byte_none(self.chunks(), a);
                }
            }
            None
        } else {
            let last = self.buffer.len() - 1;
            let start = self.buffer[last].0;
            let len = self.buffer[last].1.len();
            proof {
                assert(self.chunks()[last as int].1.len() > 0);
                assert(self.chunks()[last as int].0 + self.chunks()[last as int].1.len()
                    <= usize::MAX);
            }
            let m = start + (len - 1);
            proof {
                let li = last as int;
                lemma_chunks_byte_covers(self.chunks(), li, m as int);
                assert forall|a: int| a > m implies !self.defined_at(a) by {
                    assert forall|j: int|
                        0 <= j < self.chunks().len() implies !covers(self.chunks(), j, a) by {
                        if j < li {
                            assert(self.chunks()[j].0 + self.chunks()[j].1.len()
                                < self.chunks()[li].0);
                        }
                    }
                    lemma_chunks_byte_none(self.chunks(), a);
                }
            }
            Some(m)
        }
    }

    /// Does some single chunk hold the whole span `[start, start + len)`?
    pub open spec fn span_in_one_chunk(self, start: int, len: int) -> bool {
        exists|i: int|
            0 <= i < self.chunks().len() && self.chunks()[i].0 <= start && start + len
                <= self.chunks()[i].0 + self.chunks()[i].1.len()
    }

    /// Read the bytes at a list of addresses, in order. `None` as soon as
    /// any listed address holds no data.
    pub fn get_buffer_slice(&self, addr_vec: &[usize]) -> (r: Option<Vec<u8>>)
        requires
            self.wf(),
        ensures
            match r {
                Some(v) => {
                    &&& v@.len() == addr_vec@.len()
                    &&& forall|k: int|
                        0 <= k < addr_vec@.len() ==> self.spec_byte(addr_vec@[k] as int) == Some(
                            v@[k],
                        )
                },
                None => exists|k: int|
                    0 <= k < addr_vec@.len() && !self.defined_at(addr_vec@[k] as int),
            },
    {
        let mut out: Vec<u8> = Vec::new();
        let mut k: usize = 0;
        while k < addr_vec.len()
            invariant
                self.wf(),
                0 <= k <= addr_vec@.len(),
                out@.len() == k,
                forall|j: int|
                    0 <= j < k ==> self.spec_byte(addr_vec@[j] as int) == Some(out@[j]),
            decreases addr_vec@.len() - k,
        {
            match self.read_byte(addr_vec[k]) {
                Some(b) => {
                    out.push(b);
                },
                None => {
                    return None;
                },
            }
            k = k + 1;
        }
        Some(out)
    }

    /// Read `len` bytes starting at `start_addr`, succeeding exactly when
    /// the whole span lies inside one contiguous chunk: a span that crosses
    /// a chunk boundary or a gap fails as a unit.
    pub fn read_range(&self, start_addr: usize, len: usize) -> (r: Option<Vec<u8>>)
        requires
            self.wf(),
            start_addr + len <= usize::MAX,
        ensures
            match r {
                Some(v) => {
                    &&& self.span_in_one_chunk(start_addr as int, len as int)
                    &&& v@.len() == len
                    &&& forall|k: int|
                        0 <= k < len ==> self.spec_byte(start_addr + k) == Some(v@[k])
                },
                None => !self.span_in_one_chunk(start_addr as int, len as int),
            },
    {
        match self.find_pred(start_addr) {
            Some(i) => {
                let chunk_start = self.buffer[i].0;
                let chunk_len = self.buffer[i].1.len();
                proof {
                    assert(self.chunks()[i as int].0 + self.chunks()[i as int].1.len()
                        <= usize::MAX);
                }
                if start_addr + len <= chunk_start + chunk_len {
                    let off = start_addr - chunk_start;
                    let mut v: Vec<u8> = Vec::new();
                    let mut k: usize = 0;
                    while k < len
                        invariant
                            self.wf(),
                            0 <= k <= len,
                            (i as int) < self.chunks().len(),
                            chunk_start == self.chunks()[i as int].0,
                            chunk_len == self.chunks()[i as int].1.len(),
                            off == start_addr - chunk_start,
                            chunk_start <= start_addr,
                            start_addr + len <= chunk_start + chunk_len,
                            start_addr + len <= usize::MAX,
                            v@.len() == k,
                            forall|j: int|
                                0 <= j < k ==> self.spec_byte(start_addr + j) == Some(v@[j]),
                        decreases len - k,
                    {
                        let b = self.buffer[i].1[off + k];
                        proof {
                            assert(covers(self.chunks(), i as int, start_addr + k));
                            lemma_chunks_byte_covers(self.chunks(), i as int, start_addr + k);
                        }
                        v.push(b);
                        k = k + 1;
                    }
                    proof {
                        assert(self.span_in_one_chunk(start_addr as int, len as int));
                    }
                    Some(v)
                } else {
                    proof {
                        assert forall|j: int|
                            !(0 <= j < self.chunks().len() && self.chunks()[j].0 <= start_addr
                                && start_addr + len <= self.chunks()[j].0
                                + self.chunks()[j].1.len()) by {
                            if 0 <= j < self.chunks().len() && self.chunks()[j].0 <= start_addr {
                                if j < i {
                                    assert(self.chunks()[j].0 + self.chunks()[j].1.len()
                                        < self.chunks()[i as int].0);
                                }
                            }
                        }
                    }
                    None
                }
            },
            None => {
                proof {
                    assert forall|j: int|
                        !(0 <= j < self.chunks().len() && self.chunks()[j].0 <= start_addr
                            && start_addr + len <= self.chunks()[j].0
                            + self.chunks()[j].1.len()) by {}
                }
                None
            },
        }
    }

    /// Read a range gap-tolerantly: one entry per address, the byte where
    /// data exists and an explicit empty marker where it does not. The only
    /// read that crosses chunks.
    pub fn read_range_safe(&self, start_addr: usize, len: usize) -> (r: Vec<Option<u8>>)
        requires
            self.wf(),
            start_addr + len <= usize::MAX,
        ensures
            r@.len() == len,
            forall|k: int| 0 <= k < len ==> r@[k] == self.spec_byte(start_addr + k),
    {
        let mut result: Vec<Option<u8>> = Vec::new();
        let end_addr = start_addr + len;
        let mut current = start_addr;
        while current < end_addr
            invariant
                self.wf(),
                start_addr <= current <= end_addr,
                end_addr == start_addr + len,
                end_addr <= usize::MAX,
                result@.len() == current - start_addr,
                forall|k: int|
                    0 <= k < result@.len() ==> result@[k] == self.spec_byte(start_addr + k),
            decreases end_addr - current,
        {
            let pred = self.find_pred(current);
            let mut in_chunk = false;
            let mut idx: usize = 0;
            match pred {
                Some(i) => {
                    proof {
                        assert(self.chunks()[i as int].0 + self.chunks()[i as int].1.len()
                            <= usize::MAX);
                    }
                    if current < self.buffer[i].0 + self.buffer[i].1.len() {
                        in_chunk = true;
                        idx = i;
                    }
                },
                None => {},
            }
            if in_chunk {
                let i = idx;
                let chunk_start = self.buffer[i].0;
                let chunk_end = chunk_start + self.buffer[i].1.len();
                let stop = if chunk_end < end_addr {
                    chunk_end
                } else {
                    end_addr
                };
                while current < stop
                    invariant
                        self.wf(),
                        (i as int) < self.chunks().len(),
                        chunk_start == self.chunks()[i as int].0,
                        chunk_end == chunk_start + self.chunks()[i as int].1.len(),
                        chunk_start <= current <= stop,
                        stop <= chunk_end,
                        stop <= end_addr,
                        start_addr <= current,
                        end_addr == start_addr + len,
                        end_addr <= usize::MAX,
                        result@.len() == current - start_addr,
                        forall|k: int|
                            0 <= k < result@.len() ==> result@[k] == self.spec_byte(
                                start_addr + k,
                            ),
                    decreases stop - current,
                {
                    let b = self.buffer[i].1[current - chunk_start];
                    proof {
                        assert(covers(self.chunks(), i as int, current as int));
                        lemma_chunks_byte_covers(self.chunks(), i as int, current as int);
                    }
                    result.push(Some(b));
                    current = current + 1;
                }
            } else {
                // A gap: no byte until the next chunk begins.
                let next_start = match pred {
                    Some(i) => {
                        let blen = self.buffer.len();
                        proof {
                            assert(self.chunks().len() == self.buffer@.len());
                            assert((i as int) < blen as int);
                            if i as int + 1 < self.chunks().len() {
                                assert(self.chunks()[i as int + 1].0 > current);
                            }
                        }
                        if i + 1 < blen {
                            let ns = self.buffer[i + 1].0;
                            if ns < end_addr {
                                ns
                            } else {
                                end_addr
                            }
                        } else {
                            end_addr
                        }
                    },
                    None => {
                        proof {
                            if self.chunks().len() > 0 {
                                assert(self.chunks()[0].0 > current);
                            }
                        }
                        if self.buffer.len() > 0 {
                            let ns = self.buffer[0].0;
                            if ns < end_addr {
                                if ns > current {
                                    ns
                                } else {
                                    end_addr
                                }
                            } else {
                                end_addr
                            }
                        } else {
                            end_addr
                        }
                    },
                };
                let ghost pred_g = pred;
                proof {
                    assert forall|a: int| current <= a < next_start implies self.spec_byte(a)
                        == None::<u8> by {
                        assert forall|j: int|
                            0 <= j < self.chunks().len() implies !covers(self.chunks(), j, a) by {
                            match pred_g {
                                Some(i) => {
                                    if j <= i as int {
                                        if j < i as int {
                                            assert(self.chunks()[j].0 + self.chunks()[j].1.len()
                                                < self.chunks()[i as int].0);
                                        }
                                    } else {
                                        if i + 1 < self.chunks().len() {
                                            if j > i + 1 {
                                                assert(self.chunks()[i as int + 1].0
                                                    + self.chunks()[i as int + 1].1.len()
                                                    < self.chunks()[j].0);
                                            }
                                        }
                                    }
                                },
                                None => {
                                    if j > 0 {
                                        assert(self.chunks()[0].0 + self.chunks()[0].1.len()
                                            < self.chunks()[j].0);
                                    }
                                },
                            }
                        }
                        lemma_chunks_byte_none(self.chunks(), a);
                    }
                }
                while current < next_start
                    invariant
                        start_addr <= current <= next_start,
                        next_start <= end_addr,
                        end_addr == start_addr + len,
                        end_addr <= usize::MAX,
                        result@.len() == current - start_addr,
                        forall|a: int|
                            current <= a < next_start ==> self.spec_byte(a) == None::<u8>,
                        forall|k: int|
                            0 <= k < result@.len() ==> result@[k] == self.spec_byte(
                                start_addr + k,
                            ),
                    decreases next_start - current,
                {
                    result.push(None);
                    current = current + 1;
                }
            }
        }
        result
    }

    /// Every field but the chunk store equal, and the chunk geometry (how
    /// many chunks, where each starts, how long each is) equal too.
    pub open spec fn same_shape(self, other: IntelHex) -> bool {
        &&& self.filepath == other.filepath
        &&& self.size == other.size
        &&& self.start_addr == other.start_addr
        &&& self.max_payload_size == other.max_payload_size
        &&& self.offset == other.offset
        &&& self.chunks().len() == other.chunks().len()
        &&& forall|j: int|
            0 <= j < other.chunks().len() ==> (#[trigger] self.chunks()[j]).0
                == other.chunks()[j].0 && self.chunks()[j].1.len() == other.chunks()[j].1.len()
    }

    /// Overwrite the byte at an address that already holds data; no chunk
    /// restructuring. An address in a gap is rejected and nothing changes.
    pub fn update_byte(&mut self, address: usize, value: u8) -> (r: Result<(), IntelHexError>)
        requires
            old(self).wf(),
        ensures
            final(self).wf(),
            r is Ok <==> old(self).defined_at(address as int),
            !old(self).defined_at(address as int) ==> *final(self) == *old(self) && r == (Err::<
                (),
                IntelHexError,
            >(IntelHexError::UpdateError(IntelHexErrorKind::InvalidAddress(address)))),
            old(self).defined_at(address as int) ==> {
                &&& final(self).spec_byte(address as int) == Some(value)
                &&& forall|a: int|
                    a != address ==> final(self).spec_byte(a) == old(self).spec_byte(a)
                &&& final(self).same_shape(*old(self))
            },
    {
        let found = match self.find_pred(address) {
            Some(i) => {
                let start = self.buffer[i].0;
                proof {
                    assert(self.chunks()[i as int].0 + self.chunks()[i as int].1.len()
                        <= usize::MAX);
                }
                if address < start + self.buffer[i].1.len() {
                    Some(i)
                } else {
                    proof {
                        assert forall|j: int|
                            0 <= j < self.chunks().len() implies !covers(
                            self.chunks(),
                            j,
                            address as int,
                        ) by {
                            if j < i {
                                assert(self.chunks()[j].0 + self.chunks()[j].1.len()
                                    < self.chunks()[i as int].0);
                            }
                        }
                        lemma_chunks_byte_none(self.chunks(), address as int);
                    }
                    None
                }
            },
            None => {
                proof {
                    lemma_chunks_byte_none(self.chunks(), address as int);
                }
                None
            },
        };
        match found {
            Some(i) => {
                let ghost oldcs = self.chunks();
                proof {
                    assert(covers(oldcs, i as int, address as int));
                    lemma_chunks_byte_covers(oldcs, i as int, address as int);
                }
                let (start, mut data) = self.buffer.remove(i);
                let off = address - start;
                data[off] = value;
                let ghost nd = data@;
                self.buffer.insert(i, (start, data));
                proof {
                    assert(self.buffer@ =~= old(self).buffer@.update(
                        i as int,
                        (start, self.buffer@[i as int].1),
                    ));
                    assert(self.chunks() =~= oldcs.update(i as int, (start, nd)));
                    lemma_update_chunk_data(oldcs, i as int, nd);
                    assert(self.spec_byte(address as int) == Some(value));
                    assert forall|a: int|
                        a != address implies self.spec_byte(a) == old(self).spec_byte(a) by {
                        if covers(oldcs, i as int, a) {
                            lemma_chunks_byte_covers(oldcs, i as int, a);
                            assert(nd[a - start] == oldcs[i as int].1[a - start]);
                        }
                    }
                    assert(self.same_shape(*old(self))) by {
                        assert forall|j: int|
                            0 <= j < old(self).chunks().len() implies (
                            #[trigger] self.chunks()[j]).0 == old(self).chunks()[j].0
                            && self.chunks()[j].1.len() == old(self).chunks()[j].1.len() by {
                            if j != i {
                                assert(self.chunks()[j] == oldcs[j]);
                            }
                        }
                    }
                }
                Ok(())
            },
            None => Err(IntelHexError::UpdateError(IntelHexErrorKind::InvalidAddress(address))),
        }
    }

    /// Overwrite a contiguous span of bytes, atomically: unless the whole
    /// span lies inside one existing chunk, nothing changes and the call is
    /// rejected. No chunk is created and none crossed.
    pub fn update_range(&mut self, start_addr: usize, data: &[u8]) -> (r: Result<
        (),
        IntelHexError,
    >)
        requires
            old(self).wf(),
            start_addr + data@.len() <= usize::MAX,
        ensures
            final(self).wf(),
            r is Ok <==> old(self).span_in_one_chunk(start_addr as int, data@.len() as int),
            r is Err ==> *final(self) == *old(self) && r == (Err::<(), IntelHexError>(
                IntelHexError::UpdateError(IntelHexErrorKind::InvalidAddress(start_addr)),
            )),
            r is Ok ==> {
                &&& forall|k: int|
                    0 <= k < data@.len() ==> final(self).spec_byte(start_addr + k) == Some(
                        data@[k],
                    )
                &&& forall|a: int|
                    !(start_addr <= a < start_addr + data@.len()) ==> final(self).spec_byte(a)
                        == old(self).spec_byte(a)
                &&& final(self).same_shape(*old(self))
            },
    {
        let len = data.len();
        let found = match self.find_pred(start_addr) {
            Some(i) => {
                let chunk_start = self.buffer[i].0;
                proof {
                    assert(self.chunks()[i as int].0 + self.chunks()[i as int].1.len()
                        <= usize::MAX);
                }
                if start_addr + len <= chunk_start + self.buffer[i].1.len() {
                    proof {
                        assert(self.span_in_one_chunk(start_addr as int, len as int));
                    }
                    Some(i)
                } else {
                    proof {
                        assert forall|j: int|
                            !(0 <= j < self.chunks().len() && self.chunks()[j].0 <= start_addr
                                && start_addr + len <= self.chunks()[j].0
                                + self.chunks()[j].1.len()) by {
                            if 0 <= j < self.chunks().len() && self.chunks()[j].0 <= start_addr {
                                if j < i {
                                    assert(self.chunks()[j].0 + self.chunks()[j].1.len()
                                        < self.chunks()[i as int].0);
                                }
                            }
                        }
                    }
                    None
                }
            },
            None => {
                proof {
                    assert forall|j: int|
                        !(0 <= j < self.chunks().len() && self.chunks()[j].0 <= start_addr
                            && start_addr + len <= self.chunks()[j].0
                            + self.chunks()[j].1.len()) by {}
                }
                None
            },
        };
        match found {
            Some(i) => {
                let ghost oldcs = self.chunks();
                let (chunk_start, mut cdata) = self.buffer.remove(i);
                let ghost oldd = cdata@;
                let off = start_addr - chunk_start;
                let mut k: usize = 0;
                while k < len
                    invariant
                        0 <= k <= len,
                        len == data@.len(),
                        off + len <= usize::MAX,
                        off + len <= cdata@.len(),
                        cdata@.len() == oldd.len(),
                        forall|j: int|
                            0 <= j < cdata@.len() ==> cdata@[j] == (if off <= j < off + k {
                                data@[j - off]
                            } else {
                                oldd[j]
                            }),
                    decreases len - k,
                {
                    cdata[off + k] = data[k];
                    k = k + 1;
                }
                let ghost nd = cdata@;
                self.buffer.insert(i, (chunk_start, cdata));
                proof {
                    assert(self.chunks() =~= oldcs.update(i as int, (chunk_start, nd)));
                    lemma_update_chunk_data(oldcs, i as int, nd);
                    assert forall|j: int|
                        0 <= j < data@.len() implies self.spec_byte(start_addr + j) == Some(
                        data@[j],
                    ) by {
                        assert(covers(oldcs, i as int, start_addr + j));
                        assert(nd[start_addr + j - chunk_start] == data@[j]);
                    }
                    assert forall|a: int|
                        !(start_addr <= a < start_addr + data@.len()) implies self.spec_byte(a)
                        == old(self).spec_byte(a) by {
                        if covers(oldcs, i as int, a) {
                            lemma_chunks_byte_covers(oldcs, i as int, a);
                            assert(nd[a - chunk_start] == oldd[a - chunk_start]);
                        }
                    }
                    assert(self.same_shape(*old(self))) by {
                        assert forall|j: int|
                            0 <= j < old(self).chunks().len() implies (
                            #[trigger] self.chunks()[j]).0 == old(self).chunks()[j].0
                            && self.chunks()[j].1.len() == old(self).chunks()[j].1.len() by {
                            if j != i {
                                assert(self.chunks()[j] == oldcs[j]);
                            }
                        }
                    }
                }
                Ok(())
            },
            None => Err(IntelHexError::UpdateError(IntelHexErrorKind::InvalidAddress(start_addr))),
        }
    }

    /// Every field but the chunk store equal.
    pub open spec fn same_meta(self, other: IntelHex) -> bool {
        &&& self.filepath == other.filepath
        &&& self.size == other.size
        &&& self.start_addr == other.start_addr
        &&& self.max_payload_size == other.max_payload_size
        &&& self.offset == other.offset
    }

    /// Insert a run of bytes at an address, keeping chunks maximally merged:
    /// a run that touches the end of the chunk before it extends that chunk,
    /// one that touches the start of the chunk after it is prepended to it,
    /// one that touches both bridges them into a single chunk, and one that
    /// touches neither becomes a new chunk. A run that overlaps existing
    /// data is rejected whole and nothing changes.
    #[verifier::rlimit(80)]
    pub fn insert_data(&mut self, addr: usize, data: &[u8]) -> (r: Result<(), IntelHexErrorKind>)
        requires
            old(self).wf(),
            addr + data@.len() <= usize::MAX,
        ensures
            final(self).wf(),
            r is Ok <==> (forall|a: int|
                addr <= a < addr + data@.len() ==> !old(self).defined_at(a)),
            r is Err ==> *final(self) == *old(self) && r == (Err::<(), IntelHexErrorKind>(
                IntelHexErrorKind::RecordAddressOverlap(addr),
            )),
            r is Ok ==> {
                &&& forall|k: int|
                    0 <= k < data@.len() ==> final(self).spec_byte(addr + k) == Some(data@[k])
                &&& forall|a: int|
                    !(addr <= a < addr + data@.len()) ==> final(self).spec_byte(a) == old(
                        self,
                    ).spec_byte(a)
                &&& final(self).same_meta(*old(self))
            },
    {
        let dlen = data.len();
        if dlen == 0 {
            return Ok(());
        }
        let new_end = addr + dlen;
        let ghost cs = self.chunks();
        let blen = self.buffer.len();
        proof {
            assert(cs.len() == self.buffer@.len());
        }
        let pred = self.find_pred(addr);
        let (can_append, ins) = match pred {
            Some(i) => {
                let start = self.buffer[i].0;
                proof {
                    assert(cs[i as int].0 + cs[i as int].1.len() <= usize::MAX);
                    assert((i as int) < blen as int);
                }
                let end = start + self.buffer[i].1.len();
                if addr < end {
                    proof {
                        assert(covers(cs, i as int, addr as int));
                        lemma_chunks_byte_covers(cs, i as int, addr as int);
                        assert(old(self).defined_at(addr as int));
                    }
                    return Err(IntelHexErrorKind::RecordAddressOverlap(addr));
                }
                (end == addr, i + 1)
            },
            None => (false, 0usize),
        };
        let can_prepend = if ins < blen {
            let nstart = self.buffer[ins].0;
            if nstart < new_end {
                proof {
                    assert(self.chunks()[ins as int].1.len() > 0);
                    assert(covers(cs, ins as int, nstart as int));
                    lemma_chunks_byte_covers(cs, ins as int, nstart as int);
                    assert(addr <= nstart < addr + data@.len());
                    assert(old(self).defined_at(nstart as int));
                }
                return Err(IntelHexErrorKind::RecordAddressOverlap(addr));
            }
            nstart == new_end
        } else {
            false
        };
        // The whole run lies in a gap.
        proof {
            assert forall|a: int| addr <= a < new_end implies !old(self).defined_at(a) by {
                assert forall|j: int| 0 <= j < cs.len() implies !covers(cs, j, a) by {
                    match pred {
                        Some(i) => {
                            if j < i as int {
                                assert(cs[j].0 + cs[j].1.len() < cs[i as int].0);
                            } else if j == i as int {
                            } else if j as int >= ins as int {
                                if j > ins as int {
                                    assert(cs[ins as int].0 + cs[ins as int].1.len() < cs[j].0);
                                    assert(cs[ins as int].1.len() > 0);
                                }
                            }
                        },
                        None => {
                            if j > 0 {
                                assert(cs[0].0 + cs[0].1.len() < cs[j].0);
                                assert(cs[0].1.len() > 0);
                            }
                        },
                    }
                }
                lemma_chunks_byte_none(cs, a);
            }
        }
        let mut start0: usize = addr;
        let mut merged: Vec<u8>;
        let mut pos: usize = ins;
        let ghost mut pview: Seq<u8> = Seq::empty();
        if can_append {
            let (ps, pdata) = self.buffer.remove(ins - 1);
            proof {
                pview = pdata@;
            }
            start0 = ps;
            merged = pdata;
            pos = ins - 1;
        } else {
            merged = Vec::new();
        }
        merged.extend_from_slice(data);
        let ghost mut nview: Seq<u8> = Seq::empty();
        if can_prepend {
            let (_ns, mut ndata) = self.buffer.remove(pos);
            proof {
                nview = ndata@;
            }
            merged.append(&mut ndata);
        }
        let ghost mview = merged@;
        self.buffer.insert(pos, (start0, merged));
        let ghost ns = self.chunks();
        proof {
            let p = pos as int;
            let s = ins as int + (if can_prepend {
                1int
            } else {
                0int
            });
            // Structure of the new chunk sequence.
            assert(ns.len() == p + 1 + (cs.len() - s));
            assert(ns[p].0 == start0 && ns[p].1 == mview);
            assert(forall|j: int| 0 <= j < p ==> ns[j] == cs[j]);
            assert(forall|j: int| p < j < ns.len() ==> ns[j] == cs[j - p - 1 + s]);
            // Content of the merged chunk.
            assert(mview =~= pview + data@ + nview);
            assert(start0 + pview.len() == addr);
            assert(can_append ==> p < s && cs[p].0 == start0 && cs[p].1 == pview);
            assert(can_append ==> pview.len() > 0) by {
                if can_append {
                    assert(cs[p].1.len() > 0);
                }
            }
            assert(!can_append ==> start0 == addr && pview.len() == 0);
            assert(can_prepend ==> p < s && cs[s - 1].0 == new_end && cs[s - 1].1 == nview);
            assert(can_prepend ==> nview.len() > 0) by {
                if can_prepend {
                    assert(cs[s - 1].1.len() > 0);
                }
            }
            assert(!can_prepend ==> nview.len() == 0);
            assert(start0 + mview.len() <= usize::MAX) by {
                if can_prepend {
                    assert(cs[s - 1].0 + cs[s - 1].1.len() <= usize::MAX);
                }
            }
            // Separation around the merged chunk.
            assert forall|j: int| 0 <= j < p implies cs[j].0 + cs[j].1.len() < start0 by {
                if can_append {
                    assert(cs[j].0 + cs[j].1.len() < cs[p].0);
                } else {
                    if j < ins as int - 1 {
                        assert(cs[j].0 + cs[j].1.len() < cs[ins as int - 1].0);
                        assert(cs[ins as int - 1].1.len() > 0);
                    }
                }
            }
            assert forall|j: int| s <= j < cs.len() implies start0 + mview.len() < cs[j].0 by {
                if can_prepend {
                    assert(cs[s - 1].0 + cs[s - 1].1.len() < cs[j].0);
                } else {
                    assert(cs[j].0 >= cs[ins as int].0);
                    assert(cs[ins as int].0 > new_end);
                }
            }
            assert forall|a: int| addr <= a < new_end implies chunks_byte(cs, a)
                == None::<u8> by {
                assert(!old(self).defined_at(a));
            }
            lemma_merged_insert(
                cs,
                ns,
                p,
                s,
                start0,
                addr,
                new_end as int,
                pview,
                data@,
                nview,
            );
        }
        Ok(())
    }

    /// Overwrite bytes at a batch of (address, value) pairs, atomically:
    /// every address is checked first, and if any lies in a gap, no write at
    /// all takes effect. When several pairs name the same address, the last
    /// one wins.
    pub fn update_buffer_slice(&mut self, update_map: &[(usize, u8)]) -> (r: Result<
        (),
        IntelHexError,
    >)
        requires
            old(self).wf(),
        ensures
            final(self).wf(),
            r is Ok <==> (forall|k: int|
                0 <= k < update_map@.len() ==> old(self).defined_at(
                    (#[trigger] update_map@[k]).0 as int,
                )),
            r is Err ==> *final(self) == *old(self) && (exists|k: int|
                {
                    &&& 0 <= k < update_map@.len()
                    &&& !old(self).defined_at((#[trigger] update_map@[k]).0 as int)
                    &&& (forall|j: int|
                        0 <= j < k ==> old(self).defined_at((#[trigger] update_map@[j]).0 as int))
                    &&& r == (Err::<(), IntelHexError>(
                        IntelHexError::UpdateError(
                            IntelHexErrorKind::InvalidAddress(update_map@[k].0),
                        ),
                    ))
                }),
            r is Ok ==> {
                &&& forall|a: int|
                    final(self).spec_byte(a) == updated_byte(
                        old(self).spec_byte(a),
                        update_map@,
                        a,
                    )
                &&& final(self).same_shape(*old(self))
            },
    {
        let mut k: usize = 0;
        while k < update_map.len()
            invariant
                self.wf(),
                *self == *old(self),
                0 <= k <= update_map@.len(),
                forall|j: int|
                    0 <= j < k ==> self.defined_at((#[trigger] update_map@[j]).0 as int),
            decreases update_map@.len() - k,
        {
            let (addr, _v) = update_map[k];
            if self.read_byte(addr).is_none() {
                return Err(IntelHexError::UpdateError(IntelHexErrorKind::InvalidAddress(addr)));
            }
            k = k + 1;
        }
        let ghost orig = *self;
        let mut k2: usize = 0;
        proof {
            assert(forall|a: int|
                self.spec_byte(a) == updated_byte(
                    orig.spec_byte(a),
                    update_map@.subrange(0, 0),
                    a,
                ));
        }
        while k2 < update_map.len()
            invariant
                self.wf(),
                orig.wf(),
                0 <= k2 <= update_map@.len(),
                forall|j: int|
                    0 <= j < update_map@.len() ==> orig.defined_at(
                        (#[trigger] update_map@[j]).0 as int,
                    ),
                forall|a: int| self.defined_at(a) <==> orig.defined_at(a),
                forall|a: int|
                    self.spec_byte(a) == updated_byte(
                        orig.spec_byte(a),
                        update_map@.subrange(0, k2 as int),
                        a,
                    ),
                self.same_shape(orig),
            decreases update_map@.len() - k2,
        {
            let (addr, value) = update_map[k2];
            let ghost before = *self;
            let _res = self.update_byte(addr, value);
            proof {
                assert(before.defined_at(addr as int));
                assert(update_map@.subrange(0, k2 as int).push(update_map@[k2 as int])
                    =~= update_map@.subrange(0, k2 as int + 1));
                assert(update_map@.subrange(0, k2 as int + 1).last() == update_map@[k2 as int]);
                assert(update_map@.subrange(0, k2 as int + 1).drop_last() =~= update_map@.subrange(
                    0,
                    k2 as int,
                ));
                assert forall|a: int|
                    self.spec_byte(a) == updated_byte(
                        orig.spec_byte(a),
                        update_map@.subrange(0, k2 as int + 1),
                        a,
                    ) by {
                    if a == addr {
                        assert(self.spec_byte(a) == Some(value));
                    } else {
                        assert(self.spec_byte(a) == before.spec_byte(a));
                    }
                }
                assert forall|a: int| self.defined_at(a) <==> orig.defined_at(a) by {
                    if a == addr {
                        assert(self.spec_byte(a) == Some(value));
                    }
                }
            }
            k2 = k2 + 1;
        }
        proof {
            assert(update_map@.subrange(0, update_map@.len() as int) =~= update_map@);
        }
        Ok(())
    }

    /// Set how many payload bytes one emitted data record carries
    /// (default 16). Zero is rejected and leaves the setting unchanged.
    pub fn set_max_payload_size(&mut self, size: u8) -> (r: Result<(), IntelHexError>)
        requires
            old(self).wf(),
        ensures
            final(self).wf(),
            r is Ok <==> size != 0,
            size != 0 ==> *final(self) == (IntelHex {
                max_payload_size: size as usize,
                ..*old(self)
            }),
            size == 0 ==> *final(self) == *old(self) && r == (Err::<(), IntelHexError>(
                IntelHexError::UpdateError(IntelHexErrorKind::RecordInvalidPayloadLength),
            )),
    {
        if size == 0 {
            return Err(IntelHexError::UpdateError(IntelHexErrorKind::RecordInvalidPayloadLength));
        }
        self.max_payload_size = size as usize;
        Ok(())
    }

    /// The byte at an address, defaulting to zero off the domain.
    pub open spec fn spec_byte_or(self, a: int) -> u8 {
        match self.spec_byte(a) {
            Some(b) => b,
            None => 0u8,
        }
    }

    /// The image's loader-facing state: its partial memory, running offset
    /// and stored start record.
    pub open spec fn load_state(self) -> LoadState {
        LoadState {
            mem: Map::new(|a: int| self.defined_at(a), |a: int| self.spec_byte_or(a)),
            offset: self.offset as int,
            start: match self.start_addr {
                Some(v) => Some(v@),
                None => None,
            },
        }
    }

    /// Fold one non-empty, already carriage-return-stripped line into the
    /// image, as [`spec_apply_line`] says; `n` is its 1-based index among
    /// the non-empty lines.
    fn apply_line(&mut self, line: &Vec<u8>, n: usize) -> (r: Result<(), IntelHexError>)
        requires
            old(self).wf(),
            line@.len() > 0,
            n >= 1,
        ensures
            final(self).wf(),
            final(self).size == old(self).size,
            final(self).filepath == old(self).filepath,
            final(self).max_payload_size == old(self).max_payload_size,
            match spec_apply_line(old(self).load_state(), line@, n) {
                Ok(st2) => r is Ok && final(self).load_state() == st2,
                Err(e) => r == Err::<(), IntelHexError>(e) && *final(self) == *old(self),
            },
    {
        let record = match Record::parse(line.as_slice()) {
            Ok(rec) => rec,
            Err(k) => {
                return Err(IntelHexError::ParseRecordError(k, n));
            },
        };
        proof {
            lemma_parse_ok_shape(line@);
        }
        let ghost st = old(self).load_state();
        match record.rtype {
            RecordType::Data => {
                let addr = record.address as usize + self.offset;
                if record.data.len() == 0 {
                    proof {
                        assert(spec_apply_record(st, record@, line@, n) == Ok::<
                            LoadState,
                            IntelHexError,
                        >(st));
                    }
                    Ok(())
                } else if addr > usize::MAX - record.data.len() {
                    Err(
                        IntelHexError::ParseRecordError(
                            IntelHexErrorKind::RecordAddressOverlap(addr),
                            n,
                        ),
                    )
                } else {
                    let res = self.insert_data(addr, record.data.as_slice());
                    match res {
                        Ok(()) => {
                            proof {
                                assert(run_free(st.mem, addr as int, record@.data.len() as int))
                                    by {
                                    assert forall|a: int|
                                        addr <= a < addr + record@.data.len() implies !st.mem.dom().contains(
                                        a,
                                    ) by {
                                        assert(!old(self).defined_at(a));
                                    }
                                }
                                let st2 = LoadState {
                                    mem: mem_with_run(st.mem, addr as int, record@.data),
                                    ..st
                                };
                                assert(self.load_state().mem =~= st2.mem) by {
                                    assert forall|a: int|
                                        self.defined_at(a) == st2.mem.dom().contains(a) by {
                                        if addr <= a < addr + record@.data.len() {
                                            assert(self.spec_byte(a) == Some(
                                                record@.data[a - addr],
                                            ));
                                        }
                                    }
                                    assert forall|a: int|
                                        st2.mem.dom().contains(a) implies self.load_state().mem[a]
                                        == st2.mem[a] by {
                                        if addr <= a < addr + record@.data.len() {
                                            assert(self.spec_byte(a) == Some(
                                                record@.data[a - addr],
                                            ));
                                        }
                                    }
                                }
                                assert(self.load_state() == st2);
                            }
                            Ok(())
                        },
                        Err(k) => {
                            proof {
                                assert(!run_free(st.mem, addr as int, record@.data.len() as int))
                                    by {
                                    let a = choose|a: int|
                                        addr <= a < addr + record@.data.len() && old(
                                            self,
                                        ).defined_at(a);
                                    assert(st.mem.dom().contains(a));
                                }
                            }
                            Err(IntelHexError::ParseRecordError(k, n))
                        },
                    }
                }
            },
            RecordType::EndOfFile => {
                proof {
                    assert(self.load_state() == st);
                }
                Ok(())
            },
            RecordType::ExtendedSegmentAddress => {
                self.offset = (record.data[0] as usize * 256 + record.data[1] as usize) * 16;
                proof {
                    assert(self.load_state() == (LoadState {
                        offset: (record@.data[0] as int * 256 + record@.data[1] as int) * 16,
                        ..st
                    })) by {
                        assert(self.load_state().mem =~= st.mem);
                    }
                }
                Ok(())
            },
            RecordType::ExtendedLinearAddress => {
                self.offset = (record.data[0] as usize * 256 + record.data[1] as usize) * 65536;
                proof {
                    assert(self.load_state() == (LoadState {
                        offset: (record@.data[0] as int * 256 + record@.data[1] as int) * 65536,
                        ..st
                    })) by {
                        assert(self.load_state().mem =~= st.mem);
                    }
                }
                Ok(())
            },
            RecordType::StartSegmentAddress | RecordType::StartLinearAddress => {
                if self.start_addr.is_some() {
                    Err(IntelHexError::ParseRecordError(IntelHexErrorKind::DuplicateStartAddress, n))
                } else {
                    let mut copy: Vec<u8> = Vec::new();
                    copy.extend_from_slice(line.as_slice());
                    proof {
                        assert(copy@ =~= line@);
                    }
                    self.start_addr = Some(copy);
                    proof {
                        assert(self.load_state() == (LoadState { start: Some(line@), ..st })) by {
                            assert(self.load_state().mem =~= st.mem);
                        }
                    }
                    Ok(())
                }
            },
        }
    }

    /// Consume one raw line segment, the `count + 1`-th of its source:
    /// strip one trailing carriage return, skip it when blank, else fold it
    /// in under its 1-based source position.
    fn consume_line(&mut self, line: Vec<u8>, count: usize) -> (r: Result<(), IntelHexError>)
        requires
            old(self).wf(),
            strip_cr(line@).len() > 0 ==> count < usize::MAX,
        ensures
            final(self).wf(),
            final(self).size == old(self).size,
            final(self).filepath == old(self).filepath,
            final(self).max_payload_size == old(self).max_payload_size,
            ({
                let stripped = strip_cr(line@);
                if stripped.len() == 0 {
                    &&& r is Ok
                    &&& final(self).load_state() == old(self).load_state()
                } else {
                    match spec_apply_line(
                        old(self).load_state(),
                        stripped,
                        (count + 1) as usize,
                    ) {
                        Ok(st2) => r is Ok && final(self).load_state() == st2,
                        Err(e) => r == Err::<(), IntelHexError>(e)
                            && final(self).load_state() == old(self).load_state(),
                    }
                }
            }),
    {
        let mut line = line;
        let ghost orig = line@;
        if line.len() > 0 && line[line.len() - 1] == 0x0Du8 {
            line.pop();
        }
        proof {
            assert(line@ == strip_cr(orig));
        }
        if line.len() == 0 {
            proof {
                assert(self.load_state() == old(self).load_state());
            }
            return Ok(());
        }
        let n = count + 1;
        self.apply_line(&line, n)
    }

    /// Parse whole Intel HEX text and fold every line into the image, as
    /// [`spec_load_lines`] says: lines split on line feeds, an optional
    /// trailing carriage return tolerated, blank lines skipped, and the
    /// first bad line fatal with its 1-based source line reported.
    #[verifier::rlimit(100)]
    pub fn parse(&mut self, raw_bytes: &[u8]) -> (r: Result<(), IntelHexError>)
        requires
            old(self).wf(),
        ensures
            final(self).wf(),
            final(self).size == old(self).size,
            final(self).filepath == old(self).filepath,
            final(self).max_payload_size == old(self).max_payload_size,
            ({
                let out = spec_load_lines(split_lines(raw_bytes@), old(self).load_state(), 0);
                &&& (match out.err {
                    Some(e) => r == Err::<(), IntelHexError>(e),
                    None => r is Ok,
                })
                &&& final(self).load_state() == out.state
            }),
    {
        let ghost st0 = old(self).load_state();
        let ghost full = spec_load_lines(split_lines(raw_bytes@), st0, 0);
        let mut cur: Vec<u8> = Vec::new();
        let mut count: usize = 0;
        let mut i: usize = 0;
        proof {
            assert(raw_bytes@.skip(0) =~= raw_bytes@);
        }
        while i < raw_bytes.len()
            invariant
                self.wf(),
                self.size == old(self).size,
                self.filepath == old(self).filepath,
                self.max_payload_size == old(self).max_payload_size,
                0 <= i <= raw_bytes@.len(),
                count as int + cur@.len() <= i as int,
                st0 == old(self).load_state(),
                full == spec_load_lines(split_lines(raw_bytes@), st0, 0),
                spec_load_lines(
                    split_lines_rec(raw_bytes@.skip(i as int), cur@),
                    self.load_state(),
                    count as int,
                ) == full,
            decreases raw_bytes@.len() - i,
        {
            let b = raw_bytes[i];
            proof {
                assert(raw_bytes@.skip(i as int).drop_first() =~= raw_bytes@.skip(i as int + 1));
            }
            if b == 0x0Au8 {
                let ghost orig = cur@;
                proof {
                    assert(split_lines_rec(raw_bytes@.skip(i as int), orig) == seq![orig]
                        + split_lines_rec(raw_bytes@.skip(i as int + 1), Seq::empty()));
                    assert((seq![orig] + split_lines_rec(raw_bytes@.skip(i as int + 1), Seq::empty()))[0]
                        == orig);
                    assert((seq![orig] + split_lines_rec(
                        raw_bytes@.skip(i as int + 1),
                        Seq::empty(),
                    )).drop_first() =~= split_lines_rec(raw_bytes@.skip(i as int + 1), Seq::empty()));
                }
                let line = cur;
                cur = Vec::new();
                let ghost st_before = self.load_state();
                let ghost count0 = count as int;
                let ghost rest = split_lines_rec(raw_bytes@.skip(i as int + 1), Seq::empty());
                let ghost lines = seq![orig] + rest;
                let res = self.consume_line(line, count);
                count = count + 1;
                proof {
                    assert(lines[0] == orig);
                    assert(lines.drop_first() =~= rest);
                    assert(spec_load_lines(lines, st_before, count0) == full);
                    if strip_cr(orig).len() == 0 {
                        assert(spec_load_lines(lines, st_before, count0) == spec_load_lines(
                            rest,
                            st_before,
                            count0 + 1,
                        ));
                    } else {
                        match spec_apply_line(st_before, strip_cr(orig), ((count0 + 1) as usize)) {
                            Ok(st2) => {
                                assert(spec_load_lines(lines, st_before, count0)
                                    == spec_load_lines(rest, st2, count0 + 1));
                                assert(self.load_state() == st2);
                            },
                            Err(e2) => {
                                assert(spec_load_lines(lines, st_before, count0) == (LoadResult {
                                    state: st_before,
                                    err: Some(e2),
                                }));
                            },
                        }
                    }
                }
                match res {
                    Ok(()) => {},
                    Err(e) => {
                        proof {
                            assert(full.err == Some(e));
                            assert(full.state == self.load_state());
                        }
                        return Err(e);
                    },
                }
            } else {
                cur.push(b);
                proof {
                    assert(split_lines_rec(raw_bytes@.skip(i as int), cur@.drop_last())
                        == split_lines_rec(raw_bytes@.skip(i as int + 1), cur@)) by {
                        assert(cur@.drop_last().push(b) =~= cur@);
                    }
                }
            }
            i = i + 1;
        }
        proof {
            assert(raw_bytes@.skip(i as int) =~= Seq::<u8>::empty());
            assert(split_lines_rec(raw_bytes@.skip(i as int), cur@) == seq![cur@]);
            assert(seq![cur@].drop_first() =~= Seq::<Seq<u8>>::empty());
        }
        let ghost orig = cur@;
        let ghost st_before = self.load_state();
        let ghost count0 = count as int;
        let ghost lines = seq![orig];
        proof {
            if strip_cr(cur@).len() > 0 {
                assert(cur@.len() > 0);
            }
        }
        let res = self.consume_line(cur, count);
        proof {
            assert(lines[0] == orig);
            assert(lines.drop_first() =~= Seq::<Seq<u8>>::empty());
            assert(spec_load_lines(lines, st_before, count0) == full);
            if strip_cr(orig).len() == 0 {
                assert(spec_load_lines(lines, st_before, count0) == spec_load_lines(
                    Seq::<Seq<u8>>::empty(),
                    st_before,
                    count0 + 1,
                ));
            } else {
                match spec_apply_line(st_before, strip_cr(orig), ((count0 + 1) as usize)) {
                    Ok(st2) => {
                        assert(spec_load_lines(lines, st_before, count0) == spec_load_lines(
                            Seq::<Seq<u8>>::empty(),
                            st2,
                            count0 + 1,
                        ));
                        assert(self.load_state() == st2);
                    },
                    Err(e2) => {
                        assert(spec_load_lines(lines, st_before, count0) == (LoadResult {
                            state: st_before,
                            err: Some(e2),
                        }));
                    },
                }
            }
        }
        match res {
            Ok(()) => {},
            Err(e) => {
                proof {
                    assert(full.err == Some(e));
                    assert(full.state == self.load_state());
                }
                return Err(e);
            },
        }
        proof {
            assert(full.err is None);
            assert(full.state == self.load_state());
        }
        Ok(())
    }

    /// The load state of an image holding nothing.
    pub open spec fn empty_load_state() -> LoadState {
        LoadState { mem: Map::empty(), offset: 0, start: None }
    }

    /// Clear the image, then parse Intel HEX text into it; the byte count
    /// of the text becomes the recorded source size.
    pub fn load_hex(&mut self, raw_bytes: &[u8]) -> (r: Result<(), IntelHexError>)
        requires
            old(self).wf(),
        ensures
            final(self).wf(),
            final(self).size == raw_bytes@.len(),
            final(self).max_payload_size == old(self).max_payload_size,
            ({
                let out = spec_load_lines(
                    split_lines(raw_bytes@),
                    IntelHex::empty_load_state(),
                    0,
                );
                &&& (match out.err {
                    Some(e) => r == Err::<(), IntelHexError>(e),
                    None => r is Ok,
                })
                &&& final(self).load_state() == out.state
            }),
    {
        self.clear();
        self.size = raw_bytes.len();
        proof {
            assert(self.load_state().mem =~= Map::<int, u8>::empty());
            assert(self.load_state() == IntelHex::empty_load_state());
        }
        self.parse(raw_bytes)
    }

    /// Create an image from Intel HEX text.
    pub fn from_hex(raw_bytes: &[u8]) -> (r: Result<IntelHex, IntelHexError>)
        ensures
            ({
                let out = spec_load_lines(
                    split_lines(raw_bytes@),
                    IntelHex::empty_load_state(),
                    0,
                );
                match r {
                    Ok(ih) => {
                        &&& out.err is None
                        &&& ih.wf()
                        &&& ih.load_state() == out.state
                        &&& ih.size == raw_bytes@.len()
                        &&& ih.max_payload_size == 16
                    },
                    Err(e) => out.err == Some(e),
                }
            }),
    {
        let mut ih = IntelHex::new();
        match ih.load_hex(raw_bytes) {
            Ok(()) => Ok(ih),
            Err(e) => Err(e),
        }
    }

    /// Clear the image, then load flat binary bytes as one contiguous run
    /// at a base address.
    pub fn load_bin(&mut self, data: &[u8], base_address: usize)
        requires
            old(self).wf(),
            base_address + data@.len() <= usize::MAX,
        ensures
            final(self).wf(),
            final(self).size == data@.len(),
            final(self).start_addr is None,
            final(self).max_payload_size == old(self).max_payload_size,
            forall|k: int|
                0 <= k < data@.len() ==> final(self).spec_byte(base_address + k) == Some(
                    data@[k],
                ),
            forall|a: int|
                !(base_address <= a < base_address + data@.len()) ==> final(self).spec_byte(a)
                    == None::<u8>,
    {
        self.clear();
        self.size = data.len();
        let res = self.insert_data(base_address, data);
        proof {
            assert(res is Ok);
        }
    }

    /// Create an image from flat binary bytes at a base address.
    pub fn from_bin(data: &[u8], base_address: usize) -> (r: IntelHex)
        requires
            base_address + data@.len() <= usize::MAX,
        ensures
            r.wf(),
            r.size == data@.len(),
            r.start_addr is None,
            r.max_payload_size == 16,
            forall|k: int|
                0 <= k < data@.len() ==> r.spec_byte(base_address + k) == Some(data@[k]),
            forall|a: int|
                !(base_address <= a < base_address + data@.len()) ==> r.spec_byte(a)
                    == None::<u8>,
    {
        let mut ih = IntelHex::new();
        ih.load_bin(data, base_address);
        ih
    }

    /// Parse text into an existing image without clearing it first; the
    /// hook benchmarks use to reach the parser, result discarded.
    pub fn bench_priv_parse(ih: &mut IntelHex, raw_bytes: &[u8])
        requires
            old(ih).wf(),
        ensures
            final(ih).wf(),
            final(ih).size == old(ih).size,
            final(ih).filepath == old(ih).filepath,
            final(ih).max_payload_size == old(ih).max_payload_size,
            final(ih).load_state() == spec_load_lines(
                split_lines(raw_bytes@),
                old(ih).load_state(),
                0,
            ).state,
    {
        let _res = ih.parse(raw_bytes);
    }

    /// The chunks as (start address, bytes) pairs in ascending address
    /// order: a copy of the store's own shape.
    pub fn iter(&self) -> (r: Vec<(usize, Vec<u8>)>)
        requires
            self.wf(),
        ensures
            r@.len() == self.chunks().len(),
            forall|i: int|
                0 <= i < r@.len() ==> (#[trigger] r@[i]).0 == self.chunks()[i].0 && r@[i].1@
                    == self.chunks()[i].1,
    {
        let mut out: Vec<(usize, Vec<u8>)> = Vec::new();
        let mut i: usize = 0;
        while i < self.buffer.len()
            invariant
                self.wf(),
                0 <= i <= self.chunks().len(),
                out@.len() == i,
                forall|j: int|
                    0 <= j < i ==> (#[trigger] out@[j]).0 == self.chunks()[j].0 && out@[j].1@
                        == self.chunks()[j].1,
            decreases self.chunks().len() - i,
        {
            let start = self.buffer[i].0;
            let d = self.buffer[i].1.clone();
            proof {
                assert(d@ =~= self.chunks()[i as int].1) by {
                    assert(forall|q: int|
                        0 <= q < d@.len() ==> vstd::pervasive::cloned::<u8>(
                            self.buffer@[i as int].1@[q],
                            #[trigger] d@[q],
                        ));
                }
            }
            out.push((start, d));
            i = i + 1;
        }
        out
    }

    /// Every (address, byte) pair the image holds, in ascending address
    /// order, gaps skipped.
    pub fn bytes(&self) -> (r: Vec<(usize, u8)>)
        requires
            self.wf(),
        ensures
            forall|k: int|
                0 <= k < r@.len() ==> self.spec_byte((#[trigger] r@[k]).0 as int) == Some(
                    r@[k].1,
                ),
            forall|k: int| 0 <= k < r@.len() - 1 ==> (#[trigger] r@[k]).0 < r@[k + 1].0,
            forall|a: int|
                self.defined_at(a) ==> exists|k: int|
                    0 <= k < r@.len() && (#[trigger] r@[k]).0 == a,
    {
        let ghost cs = self.chunks();
        let mut out: Vec<(usize, u8)> = Vec::new();
        let mut i: usize = 0;
        proof {
            assert forall|a: int|
                self.defined_at(a) && (cs.len() == 0 || a < cs[0].0) implies false by {
                lemma_chunks_byte_exists(cs, a);
                let j = choose|j: int|
                    0 <= j < cs.len() && covers(cs, j, a) && chunks_byte(cs, a) == Some(
                        cs[j].1[a - cs[j].0],
                    );
                if j > 0 {
                    assert(cs[0].0 + cs[0].1.len() < cs[j].0);
                    assert(cs[0].1.len() > 0);
                }
            }
        }
        while i < self.buffer.len()
            invariant
                self.wf(),
                cs == self.chunks(),
                0 <= i <= cs.len(),
                forall|k: int|
                    0 <= k < out@.len() ==> self.spec_byte((#[trigger] out@[k]).0 as int)
                        == Some(out@[k].1),
                forall|k: int| 0 <= k < out@.len() - 1 ==> (#[trigger] out@[k]).0 < out@[k + 1].0,
                i < cs.len() && out@.len() > 0 ==> (out@.last().0 as int) < cs[i as int].0,
                forall|a: int|
                    self.defined_at(a) && (i as int == cs.len() || a < cs[i as int].0)
                        ==> exists|k: int| 0 <= k < out@.len() && (#[trigger] out@[k]).0 == a,
            decreases cs.len() - i,
        {
            let start = self.buffer[i].0;
            let dlen = self.buffer[i].1.len();
            proof {
                assert(cs[i as int].0 + cs[i as int].1.len() <= usize::MAX);
            }
            let mut j: usize = 0;
            while j < dlen
                invariant
                    self.wf(),
                    cs == self.chunks(),
                    (i as int) < cs.len(),
                    start as int == cs[i as int].0,
                    dlen == cs[i as int].1.len(),
                    start + dlen <= usize::MAX,
                    0 <= j <= dlen,
                    forall|k: int|
                        0 <= k < out@.len() ==> self.spec_byte((#[trigger] out@[k]).0 as int)
                            == Some(out@[k].1),
                    forall|k: int|
                        0 <= k < out@.len() - 1 ==> (#[trigger] out@[k]).0 < out@[k + 1].0,
                    out@.len() > 0 ==> (out@.last().0 as int) < cs[i as int].0 + j,
                    j > 0 ==> out@.len() > 0 && (out@.last().0 as int) == cs[i as int].0 + j - 1,
                    forall|a: int|
                        self.defined_at(a) && a < cs[i as int].0 + j ==> exists|k: int|
                            0 <= k < out@.len() && (#[trigger] out@[k]).0 == a,
                decreases dlen - j,
            {
                let b = self.buffer[i].1[j];
                proof {
                    assert(covers(cs, i as int, start + j));
                    lemma_chunks_byte_covers(cs, i as int, start + j);
                }
                let ghost out_before = out@;
                out.push((start + j, b));
                j = j + 1;
                proof {
                    assert forall|a: int|
                        self.defined_at(a) && a < cs[i as int].0 + j implies (exists|k: int|
                        0 <= k < out@.len() && (#[trigger] out@[k]).0 == a) by {
                        if a == cs[i as int].0 + j - 1 {
                            assert((out@[out@.len() - 1]).0 == a);
                        } else {
                            let k0 = choose|k: int|
                                0 <= k < out_before.len() && (#[trigger] out_before[k]).0 == a;
                            assert(out@[k0] == out_before[k0]);
                        }
                    }
                }
            }
            i = i + 1;
            proof {
                assert forall|a: int|
                    self.defined_at(a) && (i as int == cs.len() || a < cs[i as int].0) implies (
                exists|k: int| 0 <= k < out@.len() && (#[trigger] out@[k]).0 == a) by {
                    if a >= cs[i as int - 1].0 + cs[i as int - 1].1.len() {
                        // Between the chunk just finished and the next one
                        // (or past the last) nothing is defined.
                        assert forall|q: int| 0 <= q < cs.len() implies !covers(cs, q, a) by {
                            if q < i as int - 1 {
                                assert(cs[q].0 + cs[q].1.len() < cs[i as int - 1].0);
                            } else if q > i as int - 1 {
                                if (i as int) < cs.len() && q > i as int {
                                    assert(cs[i as int].0 + cs[i as int].1.len() < cs[q].0);
                                }
                            }
                        }
                        lemma_chunks_byte_none(cs, a);
                    }
                }
            }
        }
        out
    }

    /// Every (address, byte) pair the image holds, consuming the image.
    pub fn into_bytes(self) -> (r: Vec<(usize, u8)>)
        requires
            self.wf(),
        ensures
            forall|k: int|
                0 <= k < r@.len() ==> self.spec_byte((#[trigger] r@[k]).0 as int) == Some(
                    r@[k].1,
                ),
            forall|k: int| 0 <= k < r@.len() - 1 ==> (#[trigger] r@[k]).0 < r@[k + 1].0,
            forall|a: int|
                self.defined_at(a) ==> exists|k: int|
                    0 <= k < r@.len() && (#[trigger] r@[k]).0 == a,
    {
        self.bytes()
    }

    /// The image's address-to-byte mapping as sorted pairs. The historical
    /// name of [`Self::bytes`].
    pub fn to_btree_map(&self) -> (r: Vec<(usize, u8)>)
        requires
            self.wf(),
        ensures
            forall|k: int|
                0 <= k < r@.len() ==> self.spec_byte((#[trigger] r@[k]).0 as int) == Some(
                    r@[k].1,
                ),
            forall|k: int| 0 <= k < r@.len() - 1 ==> (#[trigger] r@[k]).0 < r@[k + 1].0,
            forall|a: int|
                self.defined_at(a) ==> exists|k: int|
                    0 <= k < r@.len() && (#[trigger] r@[k]).0 == a,
    {
        self.bytes()
    }

    /// Merge another image's bytes into this one, the other image's byte
    /// winning wherever both hold one. The other image's start record is
    /// adopted only where this image has none; all other metadata stays.
    pub fn merge(&mut self, other: &IntelHex)
        requires
            old(self).wf(),
            other.wf(),
        ensures
            final(self).wf(),
            forall|a: int|
                final(self).spec_byte(a) == (if other.defined_at(a) {
                    other.spec_byte(a)
                } else {
                    old(self).spec_byte(a)
                }),
            final(self).size == old(self).size,
            final(self).filepath == old(self).filepath,
            final(self).max_payload_size == old(self).max_payload_size,
            final(self).offset == old(self).offset,
            final(self).load_state().start == (if old(self).start_addr is Some {
                old(self).load_state().start
            } else {
                other.load_state().start
            }),
    {
        let pairs = other.bytes();
        let ghost orig = *self;
        let mut k: usize = 0;
        while k < pairs.len()
            invariant
                self.wf(),
                other.wf(),
                orig.wf(),
                0 <= k <= pairs@.len(),
                forall|q: int|
                    0 <= q < pairs@.len() ==> other.spec_byte((#[trigger] pairs@[q]).0 as int)
                        == Some(pairs@[q].1),
                forall|a: int|
                    other.defined_at(a) ==> exists|q: int|
                        0 <= q < pairs@.len() && (#[trigger] pairs@[q]).0 == a,
                forall|a: int|
                    (exists|q: int| 0 <= q < k && (#[trigger] pairs@[q]).0 == a)
                        ==> self.spec_byte(a) == other.spec_byte(a),
                forall|a: int|
                    !(exists|q: int| 0 <= q < k && (#[trigger] pairs@[q]).0 == a)
                        ==> self.spec_byte(a) == orig.spec_byte(a),
                self.size == orig.size,
                self.filepath == orig.filepath,
                self.max_payload_size == orig.max_payload_size,
                self.offset == orig.offset,
                self.start_addr == orig.start_addr,
            decreases pairs@.len() - k,
        {
            let (a0, b0) = pairs[k];
            proof {
                assert(other.spec_byte(a0 as int) == Some(pairs@[k as int].1));
                lemma_chunks_byte_exists(other.chunks(), a0 as int);
                let j = choose|j: int|
                    0 <= j < other.chunks().len() && covers(other.chunks(), j, a0 as int)
                        && chunks_byte(other.chunks(), a0 as int) == Some(
                        other.chunks()[j].1[a0 - other.chunks()[j].0],
                    );
                assert(other.chunks()[j].0 + other.chunks()[j].1.len() <= usize::MAX);
                assert(a0 as int + 1 <= usize::MAX);
            }
            let ghost before = *self;
            if self.read_byte(a0).is_some() {
                let res = self.update_byte(a0, b0);
                proof {
                    assert(res is Ok);
                }
            } else {
                let mut one: Vec<u8> = Vec::new();
                one.push(b0);
                let res = self.insert_data(a0, one.as_slice());
                proof {
                    assert(res is Ok);
                    assert(self.spec_byte(a0 as int) == Some(b0)) by {
                        assert(self.spec_byte(a0 as int + 0) == Some(one@[0]));
                    }
                }
            }
            k = k + 1;
            proof {
                assert forall|a: int|
                    (exists|q: int| 0 <= q < k && (#[trigger] pairs@[q]).0 == a) implies self.spec_byte(
                    a,
                ) == other.spec_byte(a) by {
                    if a == a0 as int {
                        assert(self.spec_byte(a) == Some(b0));
                    } else {
                        let q = choose|q: int| 0 <= q < k && (#[trigger] pairs@[q]).0 == a;
                        assert(q < k - 1);
                        assert(self.spec_byte(a) == before.spec_byte(a));
                    }
                }
                assert forall|a: int|
                    !(exists|q: int| 0 <= q < k && (#[trigger] pairs@[q]).0 == a) implies self.spec_byte(
                    a,
                ) == orig.spec_byte(a) by {
                    assert(a != a0 as int) by {
                        if a == a0 as int {
                            assert(pairs@[k - 1].0 == a);
                        }
                    }
                    assert(self.spec_byte(a) == before.spec_byte(a));
                }
            }
        }
        proof {
            assert forall|a: int|
                self.spec_byte(a) == (if other.defined_at(a) {
                    other.spec_byte(a)
                } else {
                    orig.spec_byte(a)
                }) by {
                if other.defined_at(a) {
                } else {
                    if exists|q: int| 0 <= q < pairs@.len() && (#[trigger] pairs@[q]).0 == a {
                        let q = choose|q: int|
                            0 <= q < pairs@.len() && (#[trigger] pairs@[q]).0 == a;
                        assert(other.spec_byte(pairs@[q].0 as int) == Some(pairs@[q].1));
                    }
                }
            }
        }
        if self.start_addr.is_none() {
            match &other.start_addr {
                Some(v) => {
                    let mut copy: Vec<u8> = Vec::new();
                    copy.extend_from_slice(v.as_slice());
                    proof {
                        assert(copy@ =~= v@);
                    }
                    self.start_addr = Some(copy);
                    proof {
                        assert(self.load_state().start == other.load_state().start) by {
                            assert(copy@ == v@);
                        }
                    }
                },
                None => {},
            }
        }
    }

    /// Flatten the image into raw bytes from its lowest to its highest
    /// address, filling every gap with the given byte. An empty image gives
    /// no bytes; nothing is padded past the last held byte.
    pub fn write_bin(&self, gap_fill: u8) -> (r: Vec<u8>)
        requires
            self.wf(),
        ensures
            self.chunks().len() == 0 ==> r@.len() == 0,
            self.chunks().len() > 0 ==> {
                let min = self.chunks()[0].0 as int;
                let max = self.chunks()[self.chunks().len() - 1].0
                    + self.chunks()[self.chunks().len() - 1].1.len() - 1;
                &&& r@.len() == max - min + 1
                &&& forall|k: int|
                    0 <= k < r@.len() ==> r@[k] == (match self.spec_byte(min + k) {
                        Some(b) => b,
                        None => gap_fill,
                    })
            },
    {
        let mut out: Vec<u8> = Vec::new();
        if self.buffer.len() == 0 {
            return out;
        }
        let ghost cs = self.chunks();
        let min = self.buffer[0].0;
        let mut cursor = min;
        let mut i: usize = 0;
        while i < self.buffer.len()
            invariant
                self.wf(),
                cs == self.chunks(),
                cs.len() > 0,
                min as int == cs[0].0,
                0 <= i <= cs.len(),
                cursor as int == (if i == 0 {
                    min as int
                } else {
                    cs[i as int - 1].0 + cs[i as int - 1].1.len()
                }),
                i < cs.len() ==> cursor as int <= cs[i as int].0,
                out@.len() == cursor - min,
                forall|k: int|
                    0 <= k < out@.len() ==> out@[k] == (match self.spec_byte(min + k) {
                        Some(b) => b,
                        None => gap_fill,
                    }),
            decreases cs.len() - i,
        {
            let start = self.buffer[i].0;
            let dlen = self.buffer[i].1.len();
            proof {
                assert(cs[i as int].0 + cs[i as int].1.len() <= usize::MAX);
                if i > 0 {
                    assert(cs[i as int - 1].0 + cs[i as int - 1].1.len() < cs[i as int].0);
                }
                assert forall|a: int| cursor <= a < start implies self.spec_byte(a)
                    == None::<u8> by {
                    assert forall|q: int| 0 <= q < cs.len() implies !covers(cs, q, a) by {
                        if i > 0 {
                            if q < i as int - 1 {
                                assert(cs[q].0 + cs[q].1.len() < cs[i as int - 1].0);
                            } else if q > i as int {
                                assert(cs[i as int].0 + cs[i as int].1.len() < cs[q].0);
                            }
                        } else {
                            if q > 0 {
                                assert(cs[0].0 + cs[0].1.len() < cs[q].0);
                            }
                        }
                    }
                    lemma_chunks_byte_none(cs, a);
                }
            }
            while cursor < start
                invariant
                    self.wf(),
                    cs == self.chunks(),
                    cs.len() > 0,
                    min as int == cs[0].0,
                    min <= cursor <= start,
                    start <= usize::MAX,
                    out@.len() == cursor - min,
                    forall|a: int| cursor <= a < start ==> self.spec_byte(a) == None::<u8>,
                    forall|k: int|
                        0 <= k < out@.len() ==> out@[k] == (match self.spec_byte(min + k) {
                            Some(b) => b,
                            None => gap_fill,
                        }),
                decreases start - cursor,
            {
                out.push(gap_fill);
                cursor = cursor + 1;
            }
            let mut j: usize = 0;
            while j < dlen
                invariant
                    self.wf(),
                    cs == self.chunks(),
                    (i as int) < cs.len(),
                    min as int == cs[0].0,
                    start as int == cs[i as int].0,
                    dlen == cs[i as int].1.len(),
                    start + dlen <= usize::MAX,
                    min <= start,
                    0 <= j <= dlen,
                    cursor as int == start + j,
                    out@.len() == cursor - min,
                    forall|k: int|
                        0 <= k < out@.len() ==> out@[k] == (match self.spec_byte(min + k) {
                            Some(b) => b,
                            None => gap_fill,
                        }),
                decreases dlen - j,
            {
                let b = self.buffer[i].1[j];
                proof {
                    assert(covers(cs, i as int, start + j));
                    lemma_chunks_byte_covers(cs, i as int, start + j);
                }
                out.push(b);
                cursor = cursor + 1;
                j = j + 1;
            }
            i = i + 1;
        }
        proof {
            assert(cs[cs.len() - 1].1.len() > 0);
        }
        out
    }

    /// Serialize the image as Intel HEX text, byte for byte as
    /// [`spec_hex_file`] lays it out: the stored start record verbatim
    /// first, then each chunk split into data records of at most
    /// `max_payload_size` bytes that never cross a 64 KiB boundary, with
    /// extended linear address records announcing each new high address
    /// half, and a final end-of-file record with no trailing line feed.
    #[verifier::rlimit(100)]
    pub fn write_hex(&self) -> (r: String)
        requires
            self.wf(),
        ensures
            r@ == crate::record::ascii_chars(
                spec_hex_file(
                    self.load_state().start,
                    self.chunks(),
                    self.max_payload_size as int,
                ),
            ),
    {
        let ghost cs = self.chunks();
        let ghost mps = self.max_payload_size as int;
        let mut out: Vec<u8> = Vec::new();
        match &self.start_addr {
            Some(s) => {
                out.extend_from_slice(s.as_slice());
                out.push(0x0Au8);
            },
            None => {},
        }
        let ghost prefix0: Seq<u8> = match self.load_state().start {
            Some(s) => s + seq![0x0Au8],
            None => Seq::<u8>::empty(),
        };
        proof {
            assert(out@ =~= prefix0);
            assert forall|q: int| 0 <= q < out@.len() implies out@[q] < 0x80 by {
                match self.start_addr {
                    Some(v) => {
                        if 1 <= q < v@.len() {
                            assert(crate::record::is_hex_digit(v@[q]));
                        }
                    },
                    None => {},
                }
            }
        }
        let ghost total = prefix0 + spec_emit_chunks(cs, mps, None);
        let mut cur_high: Option<u16> = None;
        let mut i: usize = 0;
        proof {
            assert(cs.skip(0) =~= cs);
        }
        while i < self.buffer.len()
            invariant
                self.wf(),
                cs == self.chunks(),
                mps == self.max_payload_size as int,
                total == prefix0 + spec_emit_chunks(cs, mps, None),
                0 <= i <= cs.len(),
                forall|q: int| 0 <= q < out@.len() ==> out@[q] < 0x80,
                out@ + spec_emit_chunks(cs.skip(i as int), mps, cur_high) == total,
            decreases cs.len() - i,
        {
            let chunk_start = self.buffer[i].0;
            let dlen = self.buffer[i].1.len();
            proof {
                assert(cs[i as int].0 + cs[i as int].1.len() <= usize::MAX);
                assert(cs.skip(i as int)[0] == cs[i as int]);
                assert(cs.skip(i as int).drop_first() =~= cs.skip(i as int + 1));
            }
            let ghost entry_high = cur_high;
            let ghost chunk_out = spec_emit_chunk(cs[i as int].0 as int, cs[i as int].1, mps, entry_high);
            proof {
                assert(spec_emit_chunks(cs.skip(i as int), mps, entry_high) == chunk_out.0
                    + spec_emit_chunks(cs.skip(i as int + 1), mps, chunk_out.1));
                assert(cs[i as int].1.skip(0) =~= cs[i as int].1);
            }
            let mut off: usize = 0;
            while off < dlen
                invariant
                    self.wf(),
                    cs == self.chunks(),
                    mps == self.max_payload_size as int,
                    (i as int) < cs.len(),
                    chunk_start as int == cs[i as int].0,
                    dlen == cs[i as int].1.len(),
                    chunk_start + dlen <= usize::MAX,
                    0 <= off <= dlen,
                    forall|q: int| 0 <= q < out@.len() ==> out@[q] < 0x80,
                    chunk_out == spec_emit_chunk(
                        cs[i as int].0 as int,
                        cs[i as int].1,
                        mps,
                        entry_high,
                    ),
                    out@ + spec_emit_chunk(
                        cs[i as int].0 + off,
                        cs[i as int].1.skip(off as int),
                        mps,
                        cur_high,
                    ).0 + spec_emit_chunks(cs.skip(i as int + 1), mps, chunk_out.1) == total,
                    spec_emit_chunk(
                        cs[i as int].0 + off,
                        cs[i as int].1.skip(off as int),
                        mps,
                        cur_high,
                    ).1 == chunk_out.1,
                decreases dlen - off,
            {
                let addr = chunk_start + off;
                let high: u16 = (((addr / 0x10000) % 0x10000) as u16);
                let low: u16 = ((addr % 0x10000) as u16);
                let ghost d_off = cs[i as int].1.skip(off as int);
                let ghost step = spec_emit_chunk(addr as int, d_off, mps, cur_high);
                let emit_ela = match cur_high {
                    Some(h) => h != high,
                    None => true,
                };
                if emit_ela {
                    let mut ela_data: Vec<u8> = Vec::new();
                    ela_data.push((high / 256) as u8);
                    ela_data.push((high % 256) as u8);
                    proof {
                        assert(ela_data@ =~= seq![
                            (high as int / 256) as u8,
                            (high as int % 256) as u8,
                        ]);
                    }
                    let mut ela_line = crate::record::emit_line(2, 0, 0x04, ela_data.as_slice());
                    out.append(&mut ela_line);
                    out.push(0x0Au8);
                    cur_high = Some(high);
                }
                // How many bytes this record can carry: the payload limit,
                // what remains of the chunk, and what remains below the
                // next 64 KiB boundary.
                let rem_seg = 0x10000usize - (low as usize);
                let mut csize = self.max_payload_size;
                if dlen - off < csize {
                    csize = dlen - off;
                }
                if rem_seg < csize {
                    csize = rem_seg;
                }
                let payload = &self.buffer[i].1[off..off + csize];
                proof {
                    assert(payload@ =~= d_off.take(csize as int));
                }
                let mut line = crate::record::emit_line(csize as u8, low, 0x00, payload);
                out.append(&mut line);
                out.push(0x0Au8);
                proof {
                    assert(d_off.skip(csize as int) =~= cs[i as int].1.skip(
                        off as int + csize as int,
                    ));
                }
                off = off + csize;
            }
            proof {
                assert(cs[i as int].1.skip(dlen as int) =~= Seq::<u8>::empty());
                assert(spec_emit_chunk(
                    cs[i as int].0 + dlen,
                    cs[i as int].1.skip(dlen as int),
                    mps,
                    cur_high,
                ).0 =~= Seq::<u8>::empty());
            }
            i = i + 1;
        }
        proof {
            assert(cs.skip(cs.len() as int) =~= Seq::<(usize, Seq<u8>)>::empty());
            assert(spec_emit_chunks(cs.skip(cs.len() as int), mps, cur_high)
                =~= Seq::<u8>::empty());
            assert(out@ =~= total);
        }
        let empty: Vec<u8> = Vec::new();
        let mut eof = crate::record::emit_line(0, 0, 0x01, empty.as_slice());
        out.append(&mut eof);
        proof {
            assert(out@ =~= spec_hex_file(self.load_state().start, cs, mps));
        }
        crate::record::string_from_ascii(out)
    }

    /// The largest relocation start address the format can take on this
    /// host: the 32-bit ceiling, kept one below the address type's maximum
    /// so that one-past-the-end positions stay representable.
    pub open spec fn spec_addr_limit() -> int {
        if usize::MAX > 0xFFFF_FFFF {
            0xFFFF_FFFF
        } else {
            usize::MAX - 1
        }
    }

    fn addr_limit() -> (r: usize)
        ensures
            r as int == IntelHex::spec_addr_limit(),
    {
        if 0xFFFF_FFFFusize < usize::MAX {
            0xFFFF_FFFFusize
        } else {
            usize::MAX - 1
        }
    }

    /// Shift the whole image so that its lowest byte sits at a new start
    /// address, failing on an empty image, on a start address beyond the
    /// format's ceiling, and on a shift that would push the highest byte
    /// past the ceiling — in which case the error reports the largest
    /// start address that would have fit. On a host whose address type is
    /// 64 bits the ceiling is the format's own 32-bit maximum; on a 32-bit
    /// host it sits one lower, because a one-past-the-end position must
    /// stay representable in the address type.
    pub fn relocate(&mut self, new_start_address: usize) -> (r: Result<(), IntelHexError>)
        requires
            old(self).wf(),
        ensures
            final(self).wf(),
            old(self).chunks().len() == 0 ==> *final(self) == *old(self) && r == (Err::<
                (),
                IntelHexError,
            >(IntelHexError::UpdateError(IntelHexErrorKind::IntelHexInstanceEmpty))),
            ({
                let cs = old(self).chunks();
                let min = cs[0].0 as int;
                let max = cs[cs.len() - 1].0 + cs[cs.len() - 1].1.len() - 1;
                let span = max - min;
                let limit = IntelHex::spec_addr_limit();
                &&& (cs.len() > 0 && new_start_address > limit ==> *final(self) == *old(self)
                    && r == (Err::<(), IntelHexError>(
                    IntelHexError::UpdateError(
                        IntelHexErrorKind::InvalidAddress(new_start_address),
                    ),
                )))
                &&& (cs.len() > 0 && new_start_address <= limit && span > limit
                    - new_start_address ==> *final(self) == *old(self) && r == (Err::<
                    (),
                    IntelHexError,
                >(IntelHexError::UpdateError(
                    IntelHexErrorKind::RelocateAddressOverflow(
                        if span <= limit {
                            (limit - span) as usize
                        } else {
                            0
                        },
                    ),
                ))))
                &&& (cs.len() > 0 && new_start_address <= limit && span <= limit
                    - new_start_address ==> {
                    &&& r is Ok
                    &&& final(self).same_meta(*old(self))
                    &&& (forall|a: int|
                        final(self).spec_byte(a + (new_start_address - min))
                            == old(self).spec_byte(a))
                    &&& (forall|a: int|
                        !(new_start_address <= a <= new_start_address + span)
                            ==> final(self).spec_byte(a) == None::<u8>)
                })
            }),
    {
        if self.buffer.len() == 0 {
            return Err(IntelHexError::UpdateError(IntelHexErrorKind::IntelHexInstanceEmpty));
        }
        let min = self.buffer[0].0;
        let last = self.buffer.len() - 1;
        proof {
            assert(self.chunks()[last as int].1.len() > 0);
            assert(self.chunks()[last as int].0 + self.chunks()[last as int].1.len()
                <= usize::MAX);
            if last > 0 {
                assert(self.chunks()[0].0 + self.chunks()[0].1.len()
                    < self.chunks()[last as int].0);
            }
        }
        let max = self.buffer[last].0 + (self.buffer[last].1.len() - 1);
        let limit = IntelHex::addr_limit();
        if new_start_address > limit {
            return Err(
                IntelHexError::UpdateError(IntelHexErrorKind::InvalidAddress(new_start_address)),
            );
        }
        let span = max - min;
        if span > limit - new_start_address {
            let max_allowed = if span <= limit {
                limit - span
            } else {
                0
            };
            return Err(
                IntelHexError::UpdateError(
                    IntelHexErrorKind::RelocateAddressOverflow(max_allowed),
                ),
            );
        }
        let ghost cs = self.chunks();
        let ghost off = new_start_address - min as int;
        let mut nb: Vec<Chunk> = Vec::new();
        let mut idx: usize = 0;
        while idx < self.buffer.len()
            invariant
                self.wf(),
                cs == self.chunks(),
                min as int == cs[0].0,
                0 <= idx <= cs.len(),
                forall|j: int| 0 <= j < cs.len() ==> min as int <= (#[trigger] cs[j]).0,
                forall|j: int|
                    0 <= j < cs.len() ==> (#[trigger] cs[j]).0 + cs[j].1.len() - 1 - min + new_start_address
                        <= IntelHex::spec_addr_limit(),
                nb@.len() == idx,
                forall|j: int|
                    0 <= j < idx ==> (#[trigger] nb@[j]).0 as int == cs[j].0 - min
                        + new_start_address && nb@[j].1@ == cs[j].1,
            decreases cs.len() - idx,
        {
            let start = self.buffer[idx].0;
            let d = self.buffer[idx].1.clone();
            proof {
                assert(d@ =~= self.chunks()[idx as int].1) by {
                    assert(forall|q: int|
                        0 <= q < d@.len() ==> vstd::pervasive::cloned::<u8>(
                            self.buffer@[idx as int].1@[q],
                            #[trigger] d@[q],
                        ));
                }
                assert(cs[idx as int].0 + cs[idx as int].1.len() - 1 - min + new_start_address
                    <= IntelHex::spec_addr_limit());
                assert(cs[idx as int].1.len() > 0);
            }
            let ns = start - min + new_start_address;
            nb.push((ns, d));
            idx = idx + 1;
        }
        let ghost oldself = *self;
        self.buffer = nb;
        proof {
            let ns2 = self.chunks();
            assert(ns2.len() == cs.len());
            assert(forall|j: int|
                0 <= j < cs.len() ==> (#[trigger] ns2[j]).0 == cs[j].0 - min + new_start_address
                    && ns2[j].1 == cs[j].1);
            assert(chunks_wf(ns2)) by {
                assert forall|j: int| 0 <= j < ns2.len() implies (#[trigger] ns2[j]).1.len()
                    > 0 by {
                    assert(cs[j].1.len() > 0);
                }
                assert forall|j: int|
                    0 <= j < ns2.len() implies (#[trigger] ns2[j]).0 + ns2[j].1.len()
                    <= usize::MAX by {
                    assert(cs[j].0 + cs[j].1.len() - 1 - min + new_start_address
                        <= IntelHex::spec_addr_limit());
                }
                assert forall|j: int, k: int|
                    #![trigger ns2[j], ns2[k]]
                    0 <= j < k < ns2.len() implies ns2[j].0 + ns2[j].1.len() < ns2[k].0 by {
                    assert(cs[j].0 + cs[j].1.len() < cs[k].0);
                    assert(min as int <= cs[j].0);
                }
            }
            assert forall|a: int| self.spec_byte(a + off) == oldself.spec_byte(a) by {
                match chunks_byte(cs, a) {
                    Some(_) => {
                        lemma_chunks_byte_exists(cs, a);
                        let j = choose|j: int|
                            0 <= j < cs.len() && covers(cs, j, a) && chunks_byte(cs, a) == Some(
                                cs[j].1[a - cs[j].0],
                            );
                        assert(min as int <= cs[j].0);
                        assert(covers(ns2, j, a + off));
                        lemma_chunks_byte_covers(ns2, j, a + off);
                        lemma_chunks_byte_covers(cs, j, a);
                    },
                    None => {
                        assert forall|j: int| #![trigger ns2[j]]
                            0 <= j < ns2.len() implies !covers(ns2, j, a + off) by {
                            if covers(ns2, j, a + off) {
                                assert(covers(cs, j, a));
                                lemma_chunks_byte_covers(cs, j, a);
                            }
                        }
                        lemma_chunks_byte_none(ns2, a + off);
                    },
                }
            }
            assert forall|a: int|
                !(new_start_address <= a <= new_start_address + (max - min)) implies self.spec_byte(
                a,
            ) == None::<u8> by {
                assert forall|j: int| 0 <= j < ns2.len() implies !covers(ns2, j, a) by {
                    if covers(ns2, j, a) {
                        assert(cs[j].0 >= min as int);
                        assert(cs[j].0 + cs[j].1.len() - 1 <= max as int) by {
                            if j < cs.len() - 1 {
                                assert(cs[j].0 + cs[j].1.len() < cs[cs.len() - 1].0);
                            }
                        }
                    }
                }
                lemma_chunks_byte_none(ns2, a);
            }
        }
        Ok(())
    }
}

} // verus!
