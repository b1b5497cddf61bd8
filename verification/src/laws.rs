//! The engine's cross-cutting guarantees, stated and proved over the same
//! models the function contracts use.

use vstd::prelude::*;

verus! {

use crate::error::IntelHexErrorKind;
use crate::intelhex::{covers, chunks_byte, lemma_chunks_byte_covers, IntelHex};
use crate::record::{RecordV, spec_parse_record, pair_val, is_hex_digit, payload_of,
    checksum_input, spec_checksum, header_bytes};
use crate::search::is_match_at;

/// No two chunks of a well-formed image are ever address-adjacent: each
/// ends strictly more than one position before the next begins, after
/// every operation that promises well-formedness.
pub proof fn lemma_chunks_never_adjacent(ih: IntelHex)
    requires
        ih.wf(),
    ensures
        forall|i: int|
            0 <= i < ih.chunks().len() - 1 ==> (#[trigger] ih.chunks()[i]).0
                + ih.chunks()[i].1.len() < ih.chunks()[i + 1].0,
{
    assert forall|i: int|
        0 <= i < ih.chunks().len() - 1 implies (#[trigger] ih.chunks()[i]).0
        + ih.chunks()[i].1.len() < ih.chunks()[i + 1].0 by {
        assert(ih.chunks()[i].0 + ih.chunks()[i].1.len() < ih.chunks()[i + 1].0);
    }
}

/// A pattern that would have to span a gap never matches: one absent
/// address under the window refutes the whole match.
pub proof fn lemma_no_match_across_gap(ih: IntelHex, a: int, pat: Seq<u8>, k0: int)
    requires
        0 <= k0 < pat.len(),
        !ih.defined_at(a + k0),
    ensures
        !is_match_at(ih, a, pat),
{
    assert(ih.spec_byte(a + k0) != Some(pat[k0]));
}

/// Flat binary round trip: a gapless image written as raw bytes and loaded
/// back at any base address reproduces the same byte content at the same
/// relative addresses, whatever the gap-fill byte was. The premises are
/// exactly what writing the image as binary and loading those bytes
/// promise.
pub proof fn lemma_bin_round_trip(
    ih: IntelHex,
    b: Seq<u8>,
    ih2: IntelHex,
    base: usize,
    min: int,
    fill: u8,
)
    requires
        ih.wf(),
        ih.chunks().len() == 1,
        min == ih.chunks()[0].0,
        b.len() == ih.chunks()[0].1.len(),
        forall|k: int|
            0 <= k < b.len() ==> (#[trigger] b[k]) == (match ih.spec_byte(min + k) {
                Some(x) => x,
                None => fill,
            }),
        forall|k: int| 0 <= k < b.len() ==> (#[trigger] ih2.spec_byte(base + k)) == Some(b[k]),
        forall|a: int| !(base <= a < base + b.len()) ==> (#[trigger] ih2.spec_byte(a)) == None::<u8>,
    ensures
        forall|k: int| 0 <= k < b.len() ==> (#[trigger] ih2.spec_byte(base + k)) == ih.spec_byte(min + k),
{
    assert forall|k: int| #![trigger b[k]]
        0 <= k < b.len() implies ih2.spec_byte(base + k) == ih.spec_byte(min + k) by {
        assert(covers(ih.chunks(), 0, min + k));
        lemma_chunks_byte_covers(ih.chunks(), 0, min + k);
    }
}

/// Checksum rejection: altering the checksum field of a valid record line
/// to any hex digits that decode to a different value makes decoding fail
/// with a checksum mismatch reporting the expected value (the one the rest
/// of the record calls for) and the actual altered value.
pub proof fn lemma_checksum_flip(line: Seq<u8>, line2: Seq<u8>)
    requires
        spec_parse_record(line) is Ok,
        line2.len() == line.len(),
        forall|i: int| 0 <= i < line.len() - 2 ==> line2[i] == (#[trigger] line[i]),
        is_hex_digit(line2[line.len() - 2]),
        is_hex_digit(line2[line.len() - 1]),
        pair_val(line2[line.len() - 2], line2[line.len() - 1]) != (spec_parse_record(
            line,
        )->Ok_0).checksum,
    ensures
        spec_parse_record(line2) == Err::<RecordV, IntelHexErrorKind>(
            IntelHexErrorKind::RecordChecksumMismatch(
                (spec_parse_record(line)->Ok_0).checksum,
                pair_val(line2[line.len() - 2], line2[line.len() - 1]),
            ),
        ),
{
    let rv = spec_parse_record(line)->Ok_0;
    let d = line.skip(1);
    let d2 = line2.skip(1);
    let n = line.len() as int;
    assert(line[0] == 0x3Au8 && d.len() >= 10);
    assert(line2[0] == line[0]);
    assert(forall|i: int| 0 <= i < d.len() ==> d[i] == line[i + 1]);
    assert(forall|i: int| 0 <= i < d2.len() ==> d2[i] == line2[i + 1]);
    assert forall|i: int| 0 <= i < d.len() - 2 implies d2[i] == d[i] by {
        assert(line2[i + 1] == line[i + 1]);
    }
    assert(d2[d2.len() - 2] == line2[n - 2] && d2[d2.len() - 1] == line2[n - 1]);
    // Every character of the altered line is still a hex digit.
    assert(forall|i: int| 0 <= i < d.len() ==> is_hex_digit(#[trigger] d[i]));
    assert forall|i: int| 0 <= i < d2.len() implies is_hex_digit(#[trigger] d2[i]) by {
        if i < d2.len() - 2 {
            assert(d2[i] == d[i]);
        }
    }
    // The fields in front of the checksum decode identically.
    assert(pair_val(d2[0], d2[1]) == pair_val(d[0], d[1]));
    let length = pair_val(d[0], d[1]);
    assert(d2.len() == 10 + 2 * (length as int));
    assert(d2.subrange(6, 8) =~= d.subrange(6, 8));
    let rtype = rv.rtype;
    assert(crate::record::RecordType::spec_parse(d.subrange(6, 8)) == Ok::<
        crate::record::RecordType,
        IntelHexErrorKind,
    >(rtype));
    assert(crate::record::quad_val(d2[2], d2[3], d2[4], d2[5]) == crate::record::quad_val(
        d[2],
        d[3],
        d[4],
        d[5],
    ));
    assert(payload_of(d2, length as int) =~= payload_of(d, length as int)) by {
        assert forall|k: int| #![trigger payload_of(d, length as int)[k]]
            0 <= k < length as int implies pair_val(d2[8 + 2 * k], d2[9 + 2 * k]) == pair_val(
            d[8 + 2 * k],
            d[9 + 2 * k],
        ) by {
            assert(8 + 2 * k < d.len() - 2 && 9 + 2 * k < d.len() - 2);
            assert(d2[8 + 2 * k] == d[8 + 2 * k] && d2[9 + 2 * k] == d[9 + 2 * k]);
        }
    }
    let c2 = pair_val(d2[d2.len() - 2], d2[d2.len() - 1]);
    let rv2 = RecordV {
        length,
        address: crate::record::quad_val(d[2], d[3], d[4], d[5]),
        rtype,
        data: payload_of(d, length as int),
        checksum: c2,
    };
    assert(checksum_input(rv2) =~= checksum_input(rv));
    assert(spec_checksum(checksum_input(rv2)) == rv.checksum);
    assert(spec_parse_record(line2) == Err::<RecordV, IntelHexErrorKind>(
        IntelHexErrorKind::RecordChecksumMismatch(rv.checksum, c2),
    ));
}

proof fn lemma_hex_of_bytes_shape(s: Seq<u8>)
    ensures
        crate::record::hex_of_bytes(s).len() == 2 * s.len(),
        forall|k: int|
            0 <= k < s.len() ==> crate::record::hex_of_bytes(s)[2 * k] == (
            #[trigger] crate::record::hexpair(s[k]))[0] && crate::record::hex_of_bytes(s)[2 * k
                + 1] == crate::record::hexpair(s[k])[1],
    decreases s.len(),
{
    if s.len() > 0 {
        lemma_hex_of_bytes_shape(s.drop_last());
        assert forall|k: int|
            0 <= k < s.len() implies crate::record::hex_of_bytes(s)[2 * k] == (
        #[trigger] crate::record::hexpair(s[k]))[0] && crate::record::hex_of_bytes(s)[2 * k + 1]
            == crate::record::hexpair(s[k])[1] by {
            if k < s.len() - 1 {
                assert(s.drop_last()[k] == s[k]);
                assert(crate::record::hex_of_bytes(s)[2 * k] == crate::record::hex_of_bytes(
                    s.drop_last(),
                )[2 * k]);
                assert(crate::record::hex_of_bytes(s)[2 * k + 1] == crate::record::hex_of_bytes(
                    s.drop_last(),
                )[2 * k + 1]);
            } else {
                assert(s[k] == s.last());
            }
        }
    }
}

/// The two digits of a hex pair are hex digits decoding back to the byte.
proof fn lemma_hexpair_decodes(b: u8)
    ensures
        is_hex_digit(crate::record::hexpair(b)[0]),
        is_hex_digit(crate::record::hexpair(b)[1]),
        pair_val(crate::record::hexpair(b)[0], crate::record::hexpair(b)[1]) == b,
{
    vstd::arithmetic::div_mod::lemma_fundamental_div_mod(b as int, 16);
}

/// Record round trip: decoding the exact text line that encodes a record
/// with a valid per-type shape yields that record back, its checksum the
/// one the other fields call for. With [`spec_parse_record`] the contract
/// of decoding and [`crate::record::record_line`] the form every emitted
/// line takes, this is the record-level half of the hex round trip.
pub proof fn lemma_record_round_trip(length: u8, address: u16, rtype: crate::record::RecordType,
    data: Seq<u8>)
    requires
        data.len() == length as int,
        rtype == crate::record::RecordType::Data || address == 0,
        rtype == crate::record::RecordType::EndOfFile ==> length == 0,
        (rtype == crate::record::RecordType::ExtendedSegmentAddress || rtype
            == crate::record::RecordType::ExtendedLinearAddress) ==> length == 2,
        (rtype == crate::record::RecordType::StartSegmentAddress || rtype
            == crate::record::RecordType::StartLinearAddress) ==> length == 4,
    ensures
        ({
            let line = crate::record::record_line(length, address, rtype.spec_code(), data);
            spec_parse_record(line) == Ok::<RecordV, IntelHexErrorKind>(
                RecordV {
                    length,
                    address,
                    rtype,
                    data,
                    checksum: spec_checksum(
                        header_bytes(length, address, rtype.spec_code()) + data,
                    ),
                },
            )
        }),
{
    reveal(crate::record::record_line);
    let code = rtype.spec_code();
    let hi = (address as int / 256) as u8;
    let lo = (address as int % 256) as u8;
    let cks = spec_checksum(header_bytes(length, address, code) + data);
    let line = crate::record::record_line(length, address, code, data);
    let hx = crate::record::hex_of_bytes(data);
    let d = line.skip(1);
    lemma_hex_of_bytes_shape(data);
    assert(line.len() == 11 + 2 * data.len());
    assert(line[0] == 0x3Au8);
    // Where each encoded field sits in the digit region.
    assert forall|i: int| 0 <= i < d.len() implies d[i] == line[i + 1] by {}
    assert(d.len() == 10 + 2 * (length as int));
    assert(d[0] == crate::record::hexpair(length)[0] && d[1] == crate::record::hexpair(
        length,
    )[1]);
    assert(d[2] == crate::record::hexpair(hi)[0] && d[3] == crate::record::hexpair(hi)[1]);
    assert(d[4] == crate::record::hexpair(lo)[0] && d[5] == crate::record::hexpair(lo)[1]);
    assert(d[6] == crate::record::hexpair(code)[0] && d[7] == crate::record::hexpair(code)[1]);
    assert forall|k: int|
        0 <= k < data.len() implies d[8 + 2 * k] == (#[trigger] crate::record::hexpair(
        data[k],
    ))[0] && d[9 + 2 * k] == crate::record::hexpair(data[k])[1] by {
        assert(d[8 + 2 * k] == hx[2 * k]);
        assert(d[9 + 2 * k] == hx[2 * k + 1]);
    }
    assert(d[d.len() - 2] == crate::record::hexpair(cks)[0] && d[d.len() - 1]
        == crate::record::hexpair(cks)[1]);
    // Every character is a hex digit.
    assert forall|i: int| 0 <= i < d.len() implies is_hex_digit(#[trigger] d[i]) by {
        if i < 2 {
            lemma_hexpair_decodes(length);
        } else if i < 4 {
            lemma_hexpair_decodes(hi);
        } else if i < 6 {
            lemma_hexpair_decodes(lo);
        } else if i < 8 {
            lemma_hexpair_decodes(code);
        } else if i < d.len() - 2 {
            let k = (i - 8) / 2;
            assert(0 <= k < data.len());
            lemma_hexpair_decodes(data[k]);
            assert(i == 8 + 2 * k || i == 9 + 2 * k);
        } else {
            lemma_hexpair_decodes(cks);
        }
    }
    // The fields decode back to what was encoded.
    lemma_hexpair_decodes(length);
    lemma_hexpair_decodes(hi);
    lemma_hexpair_decodes(lo);
    lemma_hexpair_decodes(code);
    lemma_hexpair_decodes(cks);
    assert(pair_val(d[0], d[1]) == length);
    assert(crate::record::quad_val(d[2], d[3], d[4], d[5]) == address) by {
        vstd::arithmetic::div_mod::lemma_fundamental_div_mod(address as int, 256);
    }
    assert(crate::record::RecordType::spec_parse(d.subrange(6, 8)) == Ok::<
        crate::record::RecordType,
        IntelHexErrorKind,
    >(rtype)) by {
        assert(d.subrange(6, 8) =~= crate::record::hexpair(code));
        match rtype {
            crate::record::RecordType::Data => {
                assert(crate::record::hexpair(0x00) =~= seq![0x30u8, 0x30u8]);
            },
            crate::record::RecordType::EndOfFile => {
                assert(crate::record::hexpair(0x01) =~= seq![0x30u8, 0x31u8]);
            },
            crate::record::RecordType::ExtendedSegmentAddress => {
                assert(crate::record::hexpair(0x02) =~= seq![0x30u8, 0x32u8]);
            },
            crate::record::RecordType::StartSegmentAddress => {
                assert(crate::record::hexpair(0x03) =~= seq![0x30u8, 0x33u8]);
            },
            crate::record::RecordType::ExtendedLinearAddress => {
                assert(crate::record::hexpair(0x04) =~= seq![0x30u8, 0x34u8]);
            },
            crate::record::RecordType::StartLinearAddress => {
                assert(crate::record::hexpair(0x05) =~= seq![0x30u8, 0x35u8]);
            },
        }
    }
    assert(payload_of(d, length as int) =~= data) by {
        assert forall|k: int| 0 <= k < data.len() implies payload_of(d, length as int)[k] == (
        #[trigger] data[k]) by {
            lemma_hexpair_decodes(data[k]);
        }
    }
    assert(pair_val(d[d.len() - 2], d[d.len() - 1]) == cks);
    let rv = RecordV { length, address, rtype, data, checksum: cks };
    assert(checksum_input(rv) == header_bytes(length, address, code) + data);
    assert(spec_parse_record(line) == Ok::<RecordV, IntelHexErrorKind>(rv));
}


/// The shape of an emitted record line: a start marker followed only by
/// hex digits, so it holds no line terminator anywhere.
proof fn lemma_record_line_chars(length: u8, address: u16, code: u8, data: Seq<u8>)
    requires
        data.len() == length as int,
    ensures
        ({
            let line = crate::record::record_line(length, address, code, data);
            &&& line.len() == 11 + 2 * data.len()
            &&& line[0] == 0x3Au8
            &&& (forall|i: int| 1 <= i < line.len() ==> is_hex_digit(#[trigger] line[i]))
        }),
{
    reveal(crate::record::record_line);
    let hi = (address as int / 256) as u8;
    let lo = (address as int % 256) as u8;
    let cks = spec_checksum(header_bytes(length, address, code) + data);
    let line = crate::record::record_line(length, address, code, data);
    let hx = crate::record::hex_of_bytes(data);
    lemma_hex_of_bytes_shape(data);
    assert(line.len() == 11 + 2 * data.len());
    let d = line.skip(1);
    assert(d[0] == crate::record::hexpair(length)[0] && d[1] == crate::record::hexpair(
        length,
    )[1]);
    assert(d[2] == crate::record::hexpair(hi)[0] && d[3] == crate::record::hexpair(hi)[1]);
    assert(d[4] == crate::record::hexpair(lo)[0] && d[5] == crate::record::hexpair(lo)[1]);
    assert(d[6] == crate::record::hexpair(code)[0] && d[7] == crate::record::hexpair(code)[1]);
    assert forall|k: int|
        0 <= k < data.len() implies d[8 + 2 * k] == (#[trigger] crate::record::hexpair(
        data[k],
    ))[0] && d[9 + 2 * k] == crate::record::hexpair(data[k])[1] by {
        assert(d[8 + 2 * k] == hx[2 * k]);
        assert(d[9 + 2 * k] == hx[2 * k + 1]);
    }
    assert(d[d.len() - 2] == crate::record::hexpair(cks)[0] && d[d.len() - 1]
        == crate::record::hexpair(cks)[1]);
    assert forall|i: int| 1 <= i < line.len() implies is_hex_digit(#[trigger] line[i]) by {
        let q = i - 1;
        assert(line[i] == d[q]);
        if q < 2 {
            lemma_hexpair_decodes(length);
        } else if q < 4 {
            lemma_hexpair_decodes(hi);
        } else if q < 6 {
            lemma_hexpair_decodes(lo);
        } else if q < 8 {
            lemma_hexpair_decodes(code);
        } else if q < d.len() - 2 {
            let k = (q - 8) / 2;
            assert(0 <= k < data.len());
            lemma_hexpair_decodes(data[k]);
            assert(q == 8 + 2 * k || q == 9 + 2 * k);
        } else {
            lemma_hexpair_decodes(cks);
        }
    }
}

/// Splitting a stream that begins with a terminator-free segment: the
/// segment joins the line being accumulated.
proof fn lemma_split_prefix(a: Seq<u8>, rest: Seq<u8>, cur: Seq<u8>)
    requires
        forall|i: int| 0 <= i < a.len() ==> (#[trigger] a[i]) != 0x0Au8,
    ensures
        crate::intelhex::split_lines_rec(a + rest, cur) == crate::intelhex::split_lines_rec(
            rest,
            cur + a,
        ),
    decreases a.len(),
{
    if a.len() == 0 {
        assert(a + rest =~= rest);
        assert(cur + a =~= cur);
    } else {
        assert((a + rest)[0] == a[0]);
        assert((a + rest).len() > 0);
        assert((a + rest).drop_first() =~= a.drop_first() + rest);
        assert forall|i: int|
            0 <= i < a.drop_first().len() implies (#[trigger] a.drop_first()[i]) != 0x0Au8 by {
            assert(a.drop_first()[i] == a[i + 1]);
        }
        lemma_split_prefix(a.drop_first(), rest, cur.push(a[0]));
        assert(cur.push(a[0]) + a.drop_first() =~= cur + a);
    }
}

/// Splitting a stream that begins with a line terminator: the accumulated
/// line closes.
proof fn lemma_split_newline(rest: Seq<u8>, cur: Seq<u8>)
    ensures
        crate::intelhex::split_lines_rec(seq![0x0Au8] + rest, cur) == seq![cur]
            + crate::intelhex::split_lines_rec(rest, Seq::empty()),
{
    assert((seq![0x0Au8] + rest)[0] == 0x0Au8);
    assert((seq![0x0Au8] + rest).drop_first() =~= rest);
}

/// Extending a memory by two abutting runs is extending it by their
/// concatenation.
proof fn lemma_mem_run_compose(m: Map<int, u8>, addr: int, d1: Seq<u8>, d2: Seq<u8>)
    ensures
        crate::intelhex::mem_with_run(
            crate::intelhex::mem_with_run(m, addr, d1),
            addr + d1.len(),
            d2,
        ) =~= crate::intelhex::mem_with_run(m, addr, d1 + d2),
{
}


/// The high half of an absolute address, as the serializer announces it.
pub open spec fn high_part(addr: int) -> u16 {
    (((addr / 0x10000) % 0x10000) as u16)
}

/// How many lines one chunk's emission contributes.
pub open spec fn lines_in_chunk(addr: int, data: Seq<u8>, mps: int, cur_high: Option<u16>) -> int
    decreases data.len(),
{
    if data.len() == 0 || mps < 1 {
        0
    } else {
        let high = high_part(addr);
        let low = ((addr % 0x10000) as u16);
        let rem = 0x10000 - (low as int);
        let c1 = if mps <= data.len() {
            mps
        } else {
            data.len() as int
        };
        let csize = if c1 <= rem {
            c1
        } else {
            rem
        };
        (if cur_high != Some(high) {
            1int
        } else {
            0int
        }) + 1 + lines_in_chunk(addr + csize, data.skip(csize), mps, Some(high))
    }
}

/// The offset a load state carries after an announced high half.
pub open spec fn offset_of_high(h: Option<u16>, fallback: int) -> int {
    match h {
        Some(hh) => hh as int * 0x10000,
        None => fallback,
    }
}

/// A line of start marker and hex digits holds no line feed and no
/// carriage return.
proof fn lemma_hex_line_clean(line: Seq<u8>)
    requires
        line.len() > 0,
        line[0] == 0x3Au8,
        forall|i: int| 1 <= i < line.len() ==> is_hex_digit(#[trigger] line[i]),
    ensures
        forall|i: int| 0 <= i < line.len() ==> (#[trigger] line[i]) != 0x0Au8,
        crate::intelhex::strip_cr(line) == line,
{
    assert forall|i: int| 0 <= i < line.len() implies (#[trigger] line[i]) != 0x0Au8 by {
        if i >= 1 {
            assert(is_hex_digit(line[i]));
        }
    }
    if line.len() > 1 {
        assert(is_hex_digit(line[line.len() - 1]));
    }
    assert(line.last() != 0x0Du8);
}

/// Folding one newline-terminated clean line advances the load by one
/// application.
proof fn lemma_fold_one_line(
    line: Seq<u8>,
    rest: Seq<u8>,
    st: crate::intelhex::LoadState,
    st2: crate::intelhex::LoadState,
    c: int,
)
    requires
        line.len() > 0,
        line[0] == 0x3Au8,
        forall|i: int| 1 <= i < line.len() ==> is_hex_digit(#[trigger] line[i]),
        crate::intelhex::spec_apply_line(st, line, ((c + 1) as usize)) == Ok::<
            crate::intelhex::LoadState,
            crate::error::IntelHexError,
        >(st2),
    ensures
        crate::intelhex::spec_load_lines(
            crate::intelhex::split_lines_rec(line + seq![0x0Au8] + rest, Seq::empty()),
            st,
            c,
        ) == crate::intelhex::spec_load_lines(
            crate::intelhex::split_lines_rec(rest, Seq::empty()),
            st2,
            c + 1,
        ),
{
    lemma_hex_line_clean(line);
    assert(line + seq![0x0Au8] + rest =~= line + (seq![0x0Au8] + rest));
    lemma_split_prefix(line, seq![0x0Au8] + rest, Seq::empty());
    assert(Seq::<u8>::empty() + line =~= line);
    lemma_split_newline(rest, line);
    let lines_after = crate::intelhex::split_lines_rec(rest, Seq::empty());
    assert((seq![line] + lines_after)[0] == line);
    assert((seq![line] + lines_after).drop_first() =~= lines_after);
}

/// Folding a final, unterminated clean line completes the load with that
/// line's one application.
proof fn lemma_fold_last_line(
    line: Seq<u8>,
    st: crate::intelhex::LoadState,
    st2: crate::intelhex::LoadState,
    c: int,
)
    requires
        line.len() > 0,
        line[0] == 0x3Au8,
        forall|i: int| 1 <= i < line.len() ==> is_hex_digit(#[trigger] line[i]),
        crate::intelhex::spec_apply_line(st, line, ((c + 1) as usize)) == Ok::<
            crate::intelhex::LoadState,
            crate::error::IntelHexError,
        >(st2),
    ensures
        crate::intelhex::spec_load_lines(
            crate::intelhex::split_lines_rec(line, Seq::empty()),
            st,
            c,
        ) == (crate::intelhex::LoadResult { state: st2, err: None }),
{
    lemma_hex_line_clean(line);
    assert(line + Seq::<u8>::empty() =~= line);
    lemma_split_prefix(line, Seq::empty(), Seq::empty());
    assert(Seq::<u8>::empty() + line =~= line);
    assert(crate::intelhex::split_lines_rec(Seq::<u8>::empty(), line) == seq![line]);
    assert(seq![line].drop_first() =~= Seq::<Seq<u8>>::empty());
    assert(crate::intelhex::spec_load_lines(Seq::<Seq<u8>>::empty(), st2, c + 1)
        == (crate::intelhex::LoadResult { state: st2, err: None }));
}

/// An extended linear address line folds to setting the running offset.
proof fn lemma_apply_ela(high: u16, st: crate::intelhex::LoadState, n: usize)
    ensures
        ({
            let eline = crate::intelhex::spec_ela_line(high);
            &&& eline.len() > 0
            &&& eline[0] == 0x3Au8
            &&& (forall|i: int| 1 <= i < eline.len() ==> is_hex_digit(#[trigger] eline[i]))
            &&& crate::intelhex::spec_apply_line(st, eline, n) == Ok::<
                crate::intelhex::LoadState,
                crate::error::IntelHexError,
            >(crate::intelhex::LoadState { offset: high as int * 0x10000, ..st })
        }),
{
    let hb = (high as int / 256) as u8;
    let lb = (high as int % 256) as u8;
    lemma_record_line_chars(2, 0, 0x04, seq![hb, lb]);
    lemma_record_round_trip(2, 0, crate::record::RecordType::ExtendedLinearAddress, seq![hb, lb]);
    let eline = crate::intelhex::spec_ela_line(high);
    let rv = spec_parse_record(eline)->Ok_0;
    assert(rv.data == seq![hb, lb]);
    assert((rv.data[0] as int * 256 + rv.data[1] as int) * 0x10000 == high as int * 0x10000) by {
        vstd::arithmetic::div_mod::lemma_fundamental_div_mod(high as int, 256);
    }
}

/// A data line folds to its payload entering the memory at the absolute
/// address the running offset and the record address name together.
proof fn lemma_apply_data(
    addr: int,
    payload: Seq<u8>,
    st: crate::intelhex::LoadState,
    n: usize,
)
    requires
        0 <= addr,
        1 <= payload.len() <= 255,
        addr + payload.len() <= 0x1_0000_0000,
        addr + payload.len() <= usize::MAX,
        st.offset == high_part(addr) as int * 0x10000,
        crate::intelhex::run_free(st.mem, addr, payload.len() as int),
    ensures
        ({
            let low = ((addr % 0x10000) as u16);
            let dline = crate::intelhex::spec_data_line(low, payload);
            &&& dline.len() > 0
            &&& dline[0] == 0x3Au8
            &&& (forall|i: int| 1 <= i < dline.len() ==> is_hex_digit(#[trigger] dline[i]))
            &&& crate::intelhex::spec_apply_line(st, dline, n) == Ok::<
                crate::intelhex::LoadState,
                crate::error::IntelHexError,
            >(crate::intelhex::LoadState {
                mem: crate::intelhex::mem_with_run(st.mem, addr, payload),
                ..st
            })
        }),
{
    let low = ((addr % 0x10000) as u16);
    let dline = crate::intelhex::spec_data_line(low, payload);
    lemma_record_line_chars(payload.len() as u8, low, 0x00, payload);
    lemma_record_round_trip(payload.len() as u8, low, crate::record::RecordType::Data, payload);
    let rv = spec_parse_record(dline)->Ok_0;
    assert(rv.address as int + st.offset == addr) by {
        vstd::arithmetic::div_mod::lemma_fundamental_div_mod(addr, 0x10000);
        assert(addr / 0x10000 < 0x10000);
        vstd::arithmetic::div_mod::lemma_small_mod((addr / 0x10000) as nat, 0x10000);
    }
}

/// The high half a chunk's emission leaves announced is always an
/// announced one when one was announced going in.
proof fn lemma_emit_high_some(addr: int, data: Seq<u8>, mps: int, h: u16)
    ensures
        crate::intelhex::spec_emit_chunk(addr, data, mps, Some(h)).1 is Some,
    decreases data.len(),
{
    if data.len() != 0 && mps >= 1 {
        let low = ((addr % 0x10000) as u16);
        let rem = 0x10000 - (low as int);
        let c1 = if mps <= data.len() {
            mps
        } else {
            data.len() as int
        };
        let csize = if c1 <= rem {
            c1
        } else {
            rem
        };
        lemma_emit_high_some(addr + csize, data.skip(csize), mps, high_part(addr));
    }
}

/// One emission step of a chunk: the optional extended linear address
/// line and one data record line fold into the memory gaining the
/// record's payload.
#[verifier::rlimit(100)]
proof fn lemma_refold_chunk_step(
    addr: int,
    data: Seq<u8>,
    mps: int,
    cur_high: Option<u16>,
    st: crate::intelhex::LoadState,
    tail: Seq<u8>,
    c: int,
)
    requires
        1 <= mps <= 255,
        0 <= addr,
        data.len() > 0,
        addr + data.len() <= 0x1_0000_0000,
        addr + data.len() <= usize::MAX,
        (match cur_high {
            Some(h) => st.offset == h as int * 0x10000,
            None => true,
        }),
        crate::intelhex::run_free(st.mem, addr, data.len() as int),
    ensures
        ({
            let high = high_part(addr);
            let low = ((addr % 0x10000) as u16);
            let rem = 0x10000 - (low as int);
            let c1 = if mps <= data.len() {
                mps
            } else {
                data.len() as int
            };
            let csize = if c1 <= rem {
                c1
            } else {
                rem
            };
            let rest = crate::intelhex::spec_emit_chunk(
                addr + csize,
                data.skip(csize),
                mps,
                Some(high),
            );
            let c1n = c + (if cur_high != Some(high) {
                1int
            } else {
                0int
            });
            crate::intelhex::spec_load_lines(
                crate::intelhex::split_lines_rec(
                    crate::intelhex::spec_emit_chunk(addr, data, mps, cur_high).0 + tail,
                    Seq::empty(),
                ),
                st,
                c,
            ) == crate::intelhex::spec_load_lines(
                crate::intelhex::split_lines_rec(rest.0 + tail, Seq::empty()),
                crate::intelhex::LoadState {
                    mem: crate::intelhex::mem_with_run(st.mem, addr, data.take(csize)),
                    offset: high_part(addr) as int * 0x10000,
                    start: st.start,
                },
                c1n + 1,
            )
        }),
{
    let emit = crate::intelhex::spec_emit_chunk(addr, data, mps, cur_high);
    let high = high_part(addr);
    let low = ((addr % 0x10000) as u16);
    let rem = 0x10000 - (low as int);
    let c1 = if mps <= data.len() {
        mps
    } else {
        data.len() as int
    };
    let csize = if c1 <= rem {
        c1
    } else {
        rem
    };
    let payload = data.take(csize);
    let dline = crate::intelhex::spec_data_line(low, payload);
    let rest = crate::intelhex::spec_emit_chunk(addr + csize, data.skip(csize), mps, Some(high));
    let st1 = crate::intelhex::LoadState { offset: high as int * 0x10000, ..st };
    let c1n = c + (if cur_high != Some(high) {
        1int
    } else {
        0int
    });
    let stream1 = dline + seq![0x0Au8] + (rest.0 + tail);
    if cur_high != Some(high) {
        let eline = crate::intelhex::spec_ela_line(high);
        lemma_apply_ela(high, st, ((c + 1) as usize));
        assert(emit.0 + tail =~= eline + seq![0x0Au8] + stream1);
        lemma_fold_one_line(eline, stream1, st, st1, c);
    } else {
        assert(st1 == st);
        assert(emit.0 + tail =~= stream1);
    }
    let st2 = crate::intelhex::LoadState {
        mem: crate::intelhex::mem_with_run(st1.mem, addr, payload),
        ..st1
    };
    lemma_apply_data(addr, payload, st1, ((c1n + 1) as usize));
    assert(stream1 =~= dline + seq![0x0Au8] + (rest.0 + tail));
    lemma_fold_one_line(dline, rest.0 + tail, st1, st2, c1n);
}

/// Refolding one chunk's emitted lines: starting from a state whose offset
/// agrees with the announced high half and whose memory is free on the
/// chunk's span, the fold consumes the chunk's lines without error, extends
/// the memory by exactly the chunk's run, and leaves the offset at the last
/// announced high half.
#[verifier::rlimit(100)]
proof fn lemma_refold_chunk(
    addr: int,
    data: Seq<u8>,
    mps: int,
    cur_high: Option<u16>,
    st: crate::intelhex::LoadState,
    tail: Seq<u8>,
    c: int,
)
    requires
        1 <= mps <= 255,
        0 <= addr,
        addr + data.len() <= 0x1_0000_0000,
        addr + data.len() <= usize::MAX,
        (match cur_high {
            Some(h) => st.offset == h as int * 0x10000,
            None => true,
        }),
        crate::intelhex::run_free(st.mem, addr, data.len() as int),
    ensures
        crate::intelhex::spec_load_lines(
            crate::intelhex::split_lines_rec(
                crate::intelhex::spec_emit_chunk(addr, data, mps, cur_high).0 + tail,
                Seq::empty(),
            ),
            st,
            c,
        ) == crate::intelhex::spec_load_lines(
            crate::intelhex::split_lines_rec(tail, Seq::empty()),
            crate::intelhex::LoadState {
                mem: crate::intelhex::mem_with_run(st.mem, addr, data),
                offset: offset_of_high(
                    crate::intelhex::spec_emit_chunk(addr, data, mps, cur_high).1,
                    st.offset,
                ),
                start: st.start,
            },
            c + lines_in_chunk(addr, data, mps, cur_high),
        ),
    decreases data.len(),
{
    let emit = crate::intelhex::spec_emit_chunk(addr, data, mps, cur_high);
    if data.len() == 0 {
        assert(emit.0 + tail =~= tail);
        assert(crate::intelhex::mem_with_run(st.mem, addr, data) =~= st.mem);
        assert((crate::intelhex::LoadState {
            mem: crate::intelhex::mem_with_run(st.mem, addr, data),
            offset: offset_of_high(emit.1, st.offset),
            start: st.start,
        }) == st);
    } else {
        let high = high_part(addr);
        let low = ((addr % 0x10000) as u16);
        let rem = 0x10000 - (low as int);
        let c1 = if mps <= data.len() {
            mps
        } else {
            data.len() as int
        };
        let csize = if c1 <= rem {
            c1
        } else {
            rem
        };
        let payload = data.take(csize);
        let rest = crate::intelhex::spec_emit_chunk(addr + csize, data.skip(csize), mps, Some(high));
        assert(emit.1 == rest.1);
        let c1n = c + (if cur_high != Some(high) {
            1int
        } else {
            0int
        });
        lemma_refold_chunk_step(addr, data, mps, cur_high, st, tail, c);
        let st2 = crate::intelhex::LoadState {
            mem: crate::intelhex::mem_with_run(st.mem, addr, payload),
            offset: high as int * 0x10000,
            start: st.start,
        };
        assert(crate::intelhex::run_free(st2.mem, addr + csize, data.skip(csize).len() as int))
            by {
            assert forall|a: int|
                addr + csize <= a < addr + csize + data.skip(csize).len() implies !st2.mem.dom().contains(
                a,
            ) by {
                assert(!st.mem.dom().contains(a));
            }
        }
        lemma_refold_chunk(addr + csize, data.skip(csize), mps, Some(high), st2, tail, c1n + 1);
        lemma_mem_run_compose(st.mem, addr, payload, data.skip(csize));
        assert(payload + data.skip(csize) =~= data);
        lemma_emit_high_some(addr + csize, data.skip(csize), mps, high);
        assert((crate::intelhex::LoadState {
            mem: crate::intelhex::mem_with_run(st2.mem, addr + csize, data.skip(csize)),
            offset: offset_of_high(rest.1, st2.offset),
            start: st2.start,
        }) == (crate::intelhex::LoadState {
            mem: crate::intelhex::mem_with_run(st.mem, addr, data),
            offset: offset_of_high(emit.1, st.offset),
            start: st.start,
        })) by {
            assert(crate::intelhex::mem_with_run(st2.mem, addr + csize, data.skip(csize))
                =~= crate::intelhex::mem_with_run(st.mem, addr, data));
        }
    }
}

/// The memory extended by every chunk's run, in order.
pub open spec fn mem_with_chunks(m: Map<int, u8>, cs: Seq<(usize, Seq<u8>)>) -> Map<int, u8>
    decreases cs.len(),
{
    if cs.len() == 0 {
        m
    } else {
        mem_with_chunks(
            crate::intelhex::mem_with_run(m, cs[0].0 as int, cs[0].1),
            cs.drop_first(),
        )
    }
}

/// The high half left announced after emitting every chunk.
pub open spec fn chunks_final_high(
    cs: Seq<(usize, Seq<u8>)>,
    mps: int,
    cur_high: Option<u16>,
) -> Option<u16>
    decreases cs.len(),
{
    if cs.len() == 0 {
        cur_high
    } else {
        chunks_final_high(
            cs.drop_first(),
            mps,
            crate::intelhex::spec_emit_chunk(cs[0].0 as int, cs[0].1, mps, cur_high).1,
        )
    }
}

/// How many lines the whole chunk sequence's emission contributes.
pub open spec fn lines_in_chunks(
    cs: Seq<(usize, Seq<u8>)>,
    mps: int,
    cur_high: Option<u16>,
) -> int
    decreases cs.len(),
{
    if cs.len() == 0 {
        0
    } else {
        lines_in_chunk(cs[0].0 as int, cs[0].1, mps, cur_high) + lines_in_chunks(
            cs.drop_first(),
            mps,
            crate::intelhex::spec_emit_chunk(cs[0].0 as int, cs[0].1, mps, cur_high).1,
        )
    }
}

/// A non-empty chunk's emission always leaves a high half announced.
proof fn lemma_emit_leaves_high(addr: int, data: Seq<u8>, mps: int, cur_high: Option<u16>)
    requires
        data.len() > 0,
        mps >= 1,
    ensures
        crate::intelhex::spec_emit_chunk(addr, data, mps, cur_high).1 is Some,
{
    let low = ((addr % 0x10000) as u16);
    let rem = 0x10000 - (low as int);
    let c1 = if mps <= data.len() {
        mps
    } else {
        data.len() as int
    };
    let csize = if c1 <= rem {
        c1
    } else {
        rem
    };
    lemma_emit_high_some(addr + csize, data.skip(csize), mps, high_part(addr));
}

/// Once a high half is announced it stays announced through any further
/// chunks.
proof fn lemma_chunks_final_high_some(cs: Seq<(usize, Seq<u8>)>, mps: int, h: u16)
    ensures
        chunks_final_high(cs, mps, Some(h)) is Some,
    decreases cs.len(),
{
    if cs.len() > 0 {
        let e = crate::intelhex::spec_emit_chunk(cs[0].0 as int, cs[0].1, mps, Some(h));
        lemma_emit_high_some(cs[0].0 as int, cs[0].1, mps, h);
        lemma_chunks_final_high_some(cs.drop_first(), mps, e.1->0);
    }
}

/// Refolding a whole chunk sequence's emitted lines: every chunk's run
/// enters the memory, no error occurs, and the offset follows the last
/// announced high half.
#[verifier::rlimit(100)]
proof fn lemma_refold_chunks(
    cs: Seq<(usize, Seq<u8>)>,
    mps: int,
    cur_high: Option<u16>,
    st: crate::intelhex::LoadState,
    tail: Seq<u8>,
    c: int,
)
    requires
        1 <= mps <= 255,
        crate::intelhex::chunks_wf(cs),
        forall|j: int|
            0 <= j < cs.len() ==> (#[trigger] cs[j]).0 + cs[j].1.len() <= 0x1_0000_0000,
        (match cur_high {
            Some(h) => st.offset == h as int * 0x10000,
            None => true,
        }),
        forall|j: int|
            0 <= j < cs.len() ==> crate::intelhex::run_free(
                st.mem,
                (#[trigger] cs[j]).0 as int,
                cs[j].1.len() as int,
            ),
    ensures
        crate::intelhex::spec_load_lines(
            crate::intelhex::split_lines_rec(
                crate::intelhex::spec_emit_chunks(cs, mps, cur_high) + tail,
                Seq::empty(),
            ),
            st,
            c,
        ) == crate::intelhex::spec_load_lines(
            crate::intelhex::split_lines_rec(tail, Seq::empty()),
            crate::intelhex::LoadState {
                mem: mem_with_chunks(st.mem, cs),
                offset: offset_of_high(chunks_final_high(cs, mps, cur_high), st.offset),
                start: st.start,
            },
            c + lines_in_chunks(cs, mps, cur_high),
        ),
    decreases cs.len(),
{
    if cs.len() == 0 {
        assert(crate::intelhex::spec_emit_chunks(cs, mps, cur_high) + tail =~= tail);
        assert((crate::intelhex::LoadState {
            mem: mem_with_chunks(st.mem, cs),
            offset: offset_of_high(chunks_final_high(cs, mps, cur_high), st.offset),
            start: st.start,
        }) == st);
    } else {
        let addr0 = cs[0].0 as int;
        let d0 = cs[0].1;
        let emit0 = crate::intelhex::spec_emit_chunk(addr0, d0, mps, cur_high);
        let restcs = cs.drop_first();
        assert(forall|i: int| 0 <= i < restcs.len() ==> restcs[i] == cs[i + 1]);
        let rest_bytes = crate::intelhex::spec_emit_chunks(restcs, mps, emit0.1);
        assert(crate::intelhex::spec_emit_chunks(cs, mps, cur_high) == emit0.0 + rest_bytes);
        assert(emit0.0 + rest_bytes + tail =~= emit0.0 + (rest_bytes + tail));
        assert(cs[0].0 + cs[0].1.len() <= usize::MAX);
        lemma_refold_chunk(addr0, d0, mps, cur_high, st, rest_bytes + tail, c);
        let st1 = crate::intelhex::LoadState {
            mem: crate::intelhex::mem_with_run(st.mem, addr0, d0),
            offset: offset_of_high(emit0.1, st.offset),
            start: st.start,
        };
        assert(crate::intelhex::chunks_wf(restcs)) by {
            assert(forall|i: int| 0 <= i < restcs.len() ==> restcs[i] == cs[i + 1]);
        }
        assert forall|j: int|
            0 <= j < restcs.len() implies (#[trigger] restcs[j]).0 + restcs[j].1.len()
            <= 0x1_0000_0000 by {
            assert(restcs[j] == cs[j + 1]);
        }
        assert(d0.len() > 0);
        lemma_emit_leaves_high(addr0, d0, mps, cur_high);
        assert forall|j: int|
            0 <= j < restcs.len() implies crate::intelhex::run_free(
            st1.mem,
            (#[trigger] restcs[j]).0 as int,
            restcs[j].1.len() as int,
        ) by {
            assert(restcs[j] == cs[j + 1]);
            assert(crate::intelhex::run_free(st.mem, cs[j + 1].0 as int, cs[j + 1].1.len() as int));
            assert(cs[0].0 + cs[0].1.len() < cs[j + 1].0);
            assert forall|a: int|
                cs[j + 1].0 <= a < cs[j + 1].0 + cs[j + 1].1.len() implies !st1.mem.dom().contains(
                a,
            ) by {
                assert(!st.mem.dom().contains(a));
            }
        }
        lemma_refold_chunks(restcs, mps, emit0.1, st1, tail, c + lines_in_chunk(addr0, d0, mps, cur_high));
        assert(mem_with_chunks(st.mem, cs) == mem_with_chunks(st1.mem, restcs));
        assert(chunks_final_high(cs, mps, cur_high) == chunks_final_high(restcs, mps, emit0.1));
        assert(offset_of_high(chunks_final_high(restcs, mps, emit0.1), st1.offset)
            == offset_of_high(chunks_final_high(cs, mps, cur_high), st.offset)) by {
            lemma_chunks_final_high_some(restcs, mps, emit0.1->0);
        }
        assert(lines_in_chunks(cs, mps, cur_high) == lines_in_chunk(addr0, d0, mps, cur_high)
            + lines_in_chunks(restcs, mps, emit0.1));
    }
}

/// The memory every chunk's run builds is exactly the image's own partial
/// memory.
proof fn lemma_mem_with_chunks_is_image(cs: Seq<(usize, Seq<u8>)>, m: Map<int, u8>)
    requires
        crate::intelhex::chunks_wf(cs),
    ensures
        forall|a: int|
            #![trigger mem_with_chunks(m, cs).dom().contains(a)]
            mem_with_chunks(m, cs).dom().contains(a) == (m.dom().contains(a) || exists|j: int|
                0 <= j < cs.len() && covers(cs, j, a)),
        forall|a: int, j: int|
            #![trigger covers(cs, j, a)]
            0 <= j < cs.len() && covers(cs, j, a) ==> mem_with_chunks(m, cs)[a] == cs[j].1[a
                - cs[j].0],
        forall|a: int|
            #![trigger mem_with_chunks(m, cs)[a]]
            m.dom().contains(a) && !(exists|j: int| 0 <= j < cs.len() && covers(cs, j, a))
                ==> mem_with_chunks(m, cs)[a] == m[a],
    decreases cs.len(),
{
    if cs.len() > 0 {
        let m1 = crate::intelhex::mem_with_run(m, cs[0].0 as int, cs[0].1);
        let restcs = cs.drop_first();
        assert(forall|i: int| 0 <= i < restcs.len() ==> restcs[i] == cs[i + 1]);
        assert(crate::intelhex::chunks_wf(restcs));
        lemma_mem_with_chunks_is_image(restcs, m1);
        assert(mem_with_chunks(m, cs) == mem_with_chunks(m1, restcs));
        assert forall|a: int|
            #![trigger mem_with_chunks(m, cs).dom().contains(a)]
            mem_with_chunks(m, cs).dom().contains(a) == (m.dom().contains(a) || exists|j: int|
                0 <= j < cs.len() && covers(cs, j, a)) by {
            if mem_with_chunks(m, cs).dom().contains(a) {
                if m1.dom().contains(a) {
                    if !m.dom().contains(a) {
                        assert(covers(cs, 0, a));
                    }
                } else {
                    let j = choose|j: int| 0 <= j < restcs.len() && covers(restcs, j, a);
                    assert(restcs[j] == cs[j + 1]);
                    assert(covers(cs, j + 1, a));
                }
            } else {
                if m.dom().contains(a) {
                    assert(m1.dom().contains(a));
                    assert(mem_with_chunks(m1, restcs).dom().contains(a));
                }
                if exists|j: int| 0 <= j < cs.len() && covers(cs, j, a) {
                    let j = choose|j: int| 0 <= j < cs.len() && covers(cs, j, a);
                    if j == 0 {
                        assert(m1.dom().contains(a));
                        assert(mem_with_chunks(m1, restcs).dom().contains(a));
                    } else {
                        assert(restcs[j - 1] == cs[j]);
                        assert(covers(restcs, j - 1, a));
                        assert(mem_with_chunks(m1, restcs).dom().contains(a));
                    }
                }
            }
        }
        assert forall|a: int, j: int|
            #![trigger covers(cs, j, a)]
            0 <= j < cs.len() && covers(cs, j, a) implies mem_with_chunks(m, cs)[a] == cs[j].1[a
            - cs[j].0] by {
            if j == 0 {
                assert(m1[a] == cs[0].1[a - cs[0].0]);
                assert(!(exists|q: int| 0 <= q < restcs.len() && covers(restcs, q, a))) by {
                    if exists|q: int| 0 <= q < restcs.len() && covers(restcs, q, a) {
                        let q = choose|q: int| 0 <= q < restcs.len() && covers(restcs, q, a);
                        assert(restcs[q] == cs[q + 1]);
                        assert(cs[0].0 + cs[0].1.len() < cs[q + 1].0);
                    }
                }
                assert(mem_with_chunks(m1, restcs)[a] == m1[a]);
            } else {
                assert(restcs[j - 1] == cs[j]);
                assert(covers(restcs, j - 1, a));
            }
        }
        assert forall|a: int|
            #![trigger mem_with_chunks(m, cs)[a]]
            m.dom().contains(a) && !(exists|j: int| 0 <= j < cs.len() && covers(cs, j, a))
            implies mem_with_chunks(m, cs)[a] == m[a] by {
            assert(!covers(cs, 0, a));
            assert(m1.dom().contains(a) && m1[a] == m[a]);
            assert(!(exists|q: int| 0 <= q < restcs.len() && covers(restcs, q, a))) by {
                if exists|q: int| 0 <= q < restcs.len() && covers(restcs, q, a) {
                    let q = choose|q: int| 0 <= q < restcs.len() && covers(restcs, q, a);
                    assert(restcs[q] == cs[q + 1]);
                    assert(covers(cs, q + 1, a));
                }
            }
        }
    }
}


/// Intel HEX round trip: the exact text the serializer emits for a
/// well-formed image loads back, without error, into an image holding the
/// same partial memory and the same start record. The image's bytes must
/// sit below the format's 32-bit ceiling, and a stored start record must
/// be a decodable start-address record line — both true of every image a
/// load built.
pub proof fn lemma_hex_round_trip(ih: IntelHex)
    requires
        ih.wf(),
        forall|j: int|
            0 <= j < ih.chunks().len() ==> (#[trigger] ih.chunks()[j]).0
                + ih.chunks()[j].1.len() <= 0x1_0000_0000,
        (match ih.load_state().start {
            Some(s) => spec_parse_record(s) is Ok && ((spec_parse_record(s)->Ok_0).rtype
                == crate::record::RecordType::StartSegmentAddress || (spec_parse_record(
                s,
            )->Ok_0).rtype == crate::record::RecordType::StartLinearAddress),
            None => true,
        }),
    ensures
        ({
            let out = crate::intelhex::spec_load_lines(
                crate::intelhex::split_lines(
                    crate::intelhex::spec_hex_file(
                        ih.load_state().start,
                        ih.chunks(),
                        ih.max_payload_size as int,
                    ),
                ),
                IntelHex::empty_load_state(),
                0,
            );
            &&& out.err is None
            &&& out.state.mem == ih.load_state().mem
            &&& out.state.start == ih.load_state().start
        }),
{
    let ls = ih.load_state();
    let cs = ih.chunks();
    let mps = ih.max_payload_size as int;
    let eof = crate::record::record_line(0, 0, 0x01, Seq::empty());
    let chunk_bytes = crate::intelhex::spec_emit_chunks(cs, mps, None);
    let file = crate::intelhex::spec_hex_file(ls.start, cs, mps);
    let st0 = IntelHex::empty_load_state();
    // The start record line, if any, folds first and is stored verbatim.
    let stA = crate::intelhex::LoadState { start: ls.start, ..st0 };
    let cA: int = match ls.start {
        Some(_) => 1,
        None => 0,
    };
    match ls.start {
        Some(sline) => {
            assert(ih.start_wf());
            let v = ih.start_addr->0;
            assert(sline == v@);
            assert(sline.len() > 0 && sline[0] == 0x3Au8);
            assert(forall|i: int| 1 <= i < sline.len() ==> is_hex_digit(#[trigger] sline[i]));
            assert(crate::intelhex::spec_apply_line(st0, sline, 1usize) == Ok::<
                crate::intelhex::LoadState,
                crate::error::IntelHexError,
            >(stA));
            assert(file =~= sline + seq![0x0Au8] + (chunk_bytes + eof));
            lemma_fold_one_line(sline, chunk_bytes + eof, st0, stA, 0);
        },
        None => {
            assert(stA == st0);
            assert(file =~= chunk_bytes + eof);
        },
    }
    // Every chunk's lines fold in next.
    assert forall|j: int|
        0 <= j < cs.len() implies crate::intelhex::run_free(
        stA.mem,
        (#[trigger] cs[j]).0 as int,
        cs[j].1.len() as int,
    ) by {
        assert forall|a: int|
            cs[j].0 <= a < cs[j].0 + cs[j].1.len() implies !stA.mem.dom().contains(a) by {
            assert(!Map::<int, u8>::empty().dom().contains(a));
        }
    }
    lemma_refold_chunks(cs, mps, None, stA, eof, cA);
    let stB = crate::intelhex::LoadState {
        mem: mem_with_chunks(stA.mem, cs),
        offset: offset_of_high(chunks_final_high(cs, mps, None), stA.offset),
        start: stA.start,
    };
    // The end-of-file line closes the text without changing the state.
    lemma_record_line_chars(0, 0, 0x01, Seq::empty());
    lemma_record_round_trip(0, 0, crate::record::RecordType::EndOfFile, Seq::empty());
    assert(crate::intelhex::spec_apply_line(stB, eof, (((cA + lines_in_chunks(cs, mps, None))
        + 1) as usize)) == Ok::<crate::intelhex::LoadState, crate::error::IntelHexError>(stB));
    lemma_fold_last_line(eof, stB, stB, cA + lines_in_chunks(cs, mps, None));
    // The rebuilt memory is the image's own.
    lemma_mem_with_chunks_is_image(cs, Map::<int, u8>::empty());
    assert(mem_with_chunks(Map::<int, u8>::empty(), cs) =~= ls.mem) by {
        assert forall|a: int|
            #![trigger ls.mem.dom().contains(a)]
            mem_with_chunks(Map::<int, u8>::empty(), cs).dom().contains(a)
            == ls.mem.dom().contains(a) by {
            if mem_with_chunks(Map::<int, u8>::empty(), cs).dom().contains(a) {
                assert(!Map::<int, u8>::empty().dom().contains(a));
                let j = choose|j: int| 0 <= j < cs.len() && covers(cs, j, a);
                lemma_chunks_byte_covers(cs, j, a);
                assert(ih.defined_at(a));
            }
            if ls.mem.dom().contains(a) {
                assert(ih.defined_at(a));
                crate::intelhex::lemma_chunks_byte_exists(cs, a);
                let j = choose|j: int|
                    0 <= j < cs.len() && covers(cs, j, a) && chunks_byte(cs, a) == Some(
                        cs[j].1[a - cs[j].0],
                    );
                assert(mem_with_chunks(Map::<int, u8>::empty(), cs).dom().contains(a));
            }
        }
        assert forall|a: int|
            #![trigger ls.mem[a]]
            ls.mem.dom().contains(a) implies mem_with_chunks(Map::<int, u8>::empty(), cs)[a]
            == ls.mem[a] by {
            crate::intelhex::lemma_chunks_byte_exists(cs, a);
            let j = choose|j: int|
                0 <= j < cs.len() && covers(cs, j, a) && chunks_byte(cs, a) == Some(
                    cs[j].1[a - cs[j].0],
                );
            lemma_chunks_byte_covers(cs, j, a);
            assert(mem_with_chunks(Map::<int, u8>::empty(), cs)[a] == cs[j].1[a - cs[j].0]);
        }
    }
    assert(stA.mem =~= Map::<int, u8>::empty());
    assert(mem_with_chunks(stA.mem, cs) == mem_with_chunks(Map::<int, u8>::empty(), cs));
}


/// The chunk store is canonical: two well-formed chunk sequences holding
/// the same byte at every address are the same sequence.
pub proof fn lemma_wf_chunks_unique(cs1: Seq<(usize, Seq<u8>)>, cs2: Seq<(usize, Seq<u8>)>)
    requires
        crate::intelhex::chunks_wf(cs1),
        crate::intelhex::chunks_wf(cs2),
        forall|a: int| #![trigger chunks_byte(cs1, a)] chunks_byte(cs1, a) == chunks_byte(cs2, a),
    ensures
        cs1 == cs2,
    decreases cs1.len(),
{
    if cs1.len() == 0 {
        if cs2.len() > 0 {
            assert(covers(cs2, 0, cs2[0].0 as int));
            lemma_chunks_byte_covers(cs2, 0, cs2[0].0 as int);
            crate::intelhex::lemma_chunks_byte_none(cs1, cs2[0].0 as int);
            assert(false);
        }
        assert(cs1 =~= cs2);
    } else {
        if cs2.len() == 0 {
            assert(covers(cs1, 0, cs1[0].0 as int));
            lemma_chunks_byte_covers(cs1, 0, cs1[0].0 as int);
            crate::intelhex::lemma_chunks_byte_none(cs2, cs1[0].0 as int);
            assert(false);
        }
        let s1 = cs1[0].0 as int;
        let s2 = cs2[0].0 as int;
        let e1 = s1 + cs1[0].1.len();
        let e2 = s2 + cs2[0].1.len();
        // The first chunks start together: each start is a held address,
        // and every held address sits at or above the first chunk's start.
        assert(s1 == s2) by {
            assert(covers(cs1, 0, s1));
            lemma_chunks_byte_covers(cs1, 0, s1);
            crate::intelhex::lemma_chunks_byte_exists(cs2, s1);
            let j = choose|j: int|
                0 <= j < cs2.len() && covers(cs2, j, s1) && chunks_byte(cs2, s1) == Some(
                    cs2[j].1[s1 - cs2[j].0],
                );
            if j > 0 {
                assert(cs2[0].0 + cs2[0].1.len() < cs2[j].0);
                assert(cs2[0].1.len() > 0);
            }
            assert(s1 >= s2);
            assert(covers(cs2, 0, s2));
            lemma_chunks_byte_covers(cs2, 0, s2);
            crate::intelhex::lemma_chunks_byte_exists(cs1, s2);
            let q = choose|q: int|
                0 <= q < cs1.len() && covers(cs1, q, s2) && chunks_byte(cs1, s2) == Some(
                    cs1[q].1[s2 - cs1[q].0],
                );
            if q > 0 {
                assert(cs1[0].0 + cs1[0].1.len() < cs1[q].0);
                assert(cs1[0].1.len() > 0);
            }
            assert(s2 >= s1);
        }
        // And end together: the position one past a chunk is held by
        // neither store.
        assert(e1 == e2) by {
            assert(chunks_byte(cs1, e1) == None::<u8>) by {
                assert forall|j: int| 0 <= j < cs1.len() implies !covers(cs1, j, e1) by {
                    if j > 0 {
                        assert(cs1[0].0 + cs1[0].1.len() < cs1[j].0);
                    }
                }
                crate::intelhex::lemma_chunks_byte_none(cs1, e1);
            }
            assert(chunks_byte(cs2, e2) == None::<u8>) by {
                assert forall|j: int| 0 <= j < cs2.len() implies !covers(cs2, j, e2) by {
                    if j > 0 {
                        assert(cs2[0].0 + cs2[0].1.len() < cs2[j].0);
                    }
                }
                crate::intelhex::lemma_chunks_byte_none(cs2, e2);
            }
            if e1 < e2 {
                assert(covers(cs2, 0, e1));
                lemma_chunks_byte_covers(cs2, 0, e1);
            }
            if e2 < e1 {
                assert(covers(cs1, 0, e2));
                lemma_chunks_byte_covers(cs1, 0, e2);
            }
        }
        assert(cs1[0].1 =~= cs2[0].1) by {
            assert forall|k: int|
                0 <= k < cs1[0].1.len() implies cs1[0].1[k] == cs2[0].1[k] by {
                assert(covers(cs1, 0, s1 + k));
                lemma_chunks_byte_covers(cs1, 0, s1 + k);
                assert(covers(cs2, 0, s1 + k));
                lemma_chunks_byte_covers(cs2, 0, s1 + k);
            }
        }
        // The remainders hold the same bytes: inside the first chunk both
        // hold nothing, elsewhere they agree with the full stores.
        let r1 = cs1.drop_first();
        let r2 = cs2.drop_first();
        assert(forall|i: int| 0 <= i < r1.len() ==> r1[i] == cs1[i + 1]);
        assert(forall|i: int| 0 <= i < r2.len() ==> r2[i] == cs2[i + 1]);
        assert(crate::intelhex::chunks_wf(r1));
        assert(crate::intelhex::chunks_wf(r2));
        assert forall|a: int| #![trigger chunks_byte(r1, a)] chunks_byte(r1, a) == chunks_byte(
            r2,
            a,
        ) by {
            if s1 <= a < e1 {
                assert forall|j: int| 0 <= j < r1.len() implies !covers(r1, j, a) by {
                    assert(cs1[0].0 + cs1[0].1.len() < cs1[j + 1].0);
                }
                crate::intelhex::lemma_chunks_byte_none(r1, a);
                assert forall|j: int| 0 <= j < r2.len() implies !covers(r2, j, a) by {
                    assert(cs2[0].0 + cs2[0].1.len() < cs2[j + 1].0);
                }
                crate::intelhex::lemma_chunks_byte_none(r2, a);
            } else {
                assert(!covers(cs1, 0, a) && !covers(cs2, 0, a));
                assert(chunks_byte(r1, a) == chunks_byte(cs1, a));
                assert(chunks_byte(r2, a) == chunks_byte(cs2, a));
            }
        }
        lemma_wf_chunks_unique(r1, r2);
        assert(cs1 =~= cs2) by {
            assert(cs1[0] == cs2[0]);
            assert forall|i: int| 0 < i < cs1.len() implies cs1[i] == cs2[i] by {
                assert(cs1[i] == r1[i - 1] && cs2[i] == r2[i - 1]);
            }
        }
    }
}

/// Byte-exact hex regeneration: an image that holds exactly what loading
/// a well-formed image's emitted text produces — as any image a load
/// built does — has the very same chunks, and serializes to the identical
/// text, byte for byte, given the same payload-size setting. Together with
/// [`lemma_hex_round_trip`] this is the full hex round trip.
pub proof fn lemma_hex_regeneration(ih: IntelHex, ih2: IntelHex)
    requires
        ih.wf(),
        forall|j: int|
            0 <= j < ih.chunks().len() ==> (#[trigger] ih.chunks()[j]).0
                + ih.chunks()[j].1.len() <= 0x1_0000_0000,
        (match ih.load_state().start {
            Some(s) => spec_parse_record(s) is Ok && ((spec_parse_record(s)->Ok_0).rtype
                == crate::record::RecordType::StartSegmentAddress || (spec_parse_record(
                s,
            )->Ok_0).rtype == crate::record::RecordType::StartLinearAddress),
            None => true,
        }),
        ih2.wf(),
        ih2.max_payload_size == ih.max_payload_size,
        ih2.load_state() == crate::intelhex::spec_load_lines(
            crate::intelhex::split_lines(
                crate::intelhex::spec_hex_file(
                    ih.load_state().start,
                    ih.chunks(),
                    ih.max_payload_size as int,
                ),
            ),
            IntelHex::empty_load_state(),
            0,
        ).state,
    ensures
        ih2.chunks() == ih.chunks(),
        crate::intelhex::spec_hex_file(
            ih2.load_state().start,
            ih2.chunks(),
            ih2.max_payload_size as int,
        ) == crate::intelhex::spec_hex_file(
            ih.load_state().start,
            ih.chunks(),
            ih.max_payload_size as int,
        ),
{
    lemma_hex_round_trip(ih);
    assert(ih2.load_state().mem == ih.load_state().mem);
    assert(ih2.load_state().start == ih.load_state().start);
    assert forall|a: int| #![trigger chunks_byte(ih.chunks(), a)] chunks_byte(ih.chunks(), a)
        == chunks_byte(ih2.chunks(), a) by {
        assert(ih.load_state().mem.dom().contains(a) == ih.defined_at(a));
        assert(ih2.load_state().mem.dom().contains(a) == ih2.defined_at(a));
        if ih.defined_at(a) {
            assert(ih.load_state().mem[a] == ih.spec_byte_or(a));
            assert(ih2.load_state().mem[a] == ih2.spec_byte_or(a));
        }
    }
    lemma_wf_chunks_unique(ih.chunks(), ih2.chunks());
}


/// Whole-file checksum rejection: take the lines of a hex text that loads
/// cleanly, and alter the checksum field of any one record to hex digits
/// decoding to a different value. The load of the altered lines fails with
/// a checksum mismatch reporting the expected value (what the record's
/// other fields call for) and the altered value, at that record's 1-based
/// source line.
pub proof fn lemma_load_checksum_flip(
    lines: Seq<Seq<u8>>,
    lines2: Seq<Seq<u8>>,
    k: int,
    st: crate::intelhex::LoadState,
    c: int,
)
    requires
        0 <= k < lines.len(),
        lines2.len() == lines.len(),
        forall|i: int| 0 <= i < lines.len() && i != k ==> lines2[i] == (#[trigger] lines[i]),
        crate::intelhex::spec_load_lines(lines, st, c).err is None,
        0 <= c,
        c + k + 1 <= usize::MAX,
        ({
            let l = crate::intelhex::strip_cr(lines[k]);
            let l2 = crate::intelhex::strip_cr(lines2[k]);
            &&& l.len() > 0
            &&& l2.len() == l.len()
            &&& (forall|i: int| 0 <= i < l.len() - 2 ==> l2[i] == (#[trigger] l[i]))
            &&& is_hex_digit(l2[l.len() - 2])
            &&& is_hex_digit(l2[l.len() - 1])
            &&& pair_val(l2[l.len() - 2], l2[l.len() - 1]) != pair_val(
                l[l.len() - 2],
                l[l.len() - 1],
            )
        }),
    ensures
        spec_parse_record(crate::intelhex::strip_cr(lines[k])) is Ok,
        crate::intelhex::spec_load_lines(lines2, st, c).err == Some(
            crate::error::IntelHexError::ParseRecordError(
                IntelHexErrorKind::RecordChecksumMismatch(
                    (spec_parse_record(crate::intelhex::strip_cr(lines[k]))->Ok_0).checksum,
                    pair_val(
                        crate::intelhex::strip_cr(lines2[k])[crate::intelhex::strip_cr(
                            lines[k],
                        ).len() - 2],
                        crate::intelhex::strip_cr(lines2[k])[crate::intelhex::strip_cr(
                            lines[k],
                        ).len() - 1],
                    ),
                ),
                ((c + k + 1) as usize),
            ),
        ),
    decreases k,
{
    let l = crate::intelhex::strip_cr(lines[k]);
    let l2 = crate::intelhex::strip_cr(lines2[k]);
    if k == 0 {
        // The clean load means this very line applied without error, so it
        // decodes; the altered line then fails exactly on its checksum.
        match crate::intelhex::spec_apply_line(st, l, ((c + 1) as usize)) {
            Err(e) => {
                assert(crate::intelhex::spec_load_lines(lines, st, c).err == Some(e));
                assert(false);
            },
            Ok(_) => {},
        }
        assert(spec_parse_record(l) is Ok);
        let rv = spec_parse_record(l)->Ok_0;
        assert(rv.checksum == pair_val(l[l.len() - 2], l[l.len() - 1])) by {
            let d = l.skip(1);
            assert(d[d.len() - 2] == l[l.len() - 2] && d[d.len() - 1] == l[l.len() - 1]);
        }
        lemma_checksum_flip(l, l2);
        assert(crate::intelhex::spec_load_lines(lines2, st, c).err == Some(
            crate::error::IntelHexError::ParseRecordError(
                IntelHexErrorKind::RecordChecksumMismatch(
                    rv.checksum,
                    pair_val(l2[l.len() - 2], l2[l.len() - 1]),
                ),
                ((c + 1) as usize),
            ),
        ));
    } else {
        assert(lines2[0] == lines[0]);
        let rest = lines.drop_first();
        let rest2 = lines2.drop_first();
        assert(forall|i: int| 0 <= i < rest.len() ==> rest[i] == lines[i + 1]);
        assert(forall|i: int| 0 <= i < rest2.len() ==> rest2[i] == lines2[i + 1]);
        assert forall|i: int|
            0 <= i < rest.len() && i != k - 1 implies rest2[i] == (#[trigger] rest[i]) by {
            assert(lines2[i + 1] == lines[i + 1]);
        }
        assert(rest[k - 1] == lines[k] && rest2[k - 1] == lines2[k]);
        let head = crate::intelhex::strip_cr(lines[0]);
        if head.len() == 0 {
            assert(crate::intelhex::spec_load_lines(lines, st, c)
                == crate::intelhex::spec_load_lines(rest, st, c + 1));
            assert(crate::intelhex::spec_load_lines(lines2, st, c)
                == crate::intelhex::spec_load_lines(rest2, st, c + 1));
            lemma_load_checksum_flip(rest, rest2, k - 1, st, c + 1);
        } else {
            match crate::intelhex::spec_apply_line(st, head, ((c + 1) as usize)) {
                Err(e) => {
                    assert(crate::intelhex::spec_load_lines(lines, st, c).err == Some(e));
                    assert(false);
                },
                Ok(st2) => {
                    assert(crate::intelhex::spec_load_lines(lines, st, c)
                        == crate::intelhex::spec_load_lines(rest, st2, c + 1));
                    assert(crate::intelhex::spec_load_lines(lines2, st, c)
                        == crate::intelhex::spec_load_lines(rest2, st2, c + 1));
                    lemma_load_checksum_flip(rest, rest2, k - 1, st2, c + 1);
                },
            }
        }
    }
}

} // verus!






