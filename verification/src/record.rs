//! The Intel HEX record codec: decoding one text line into a structured
//! record, and encoding a structured record back into its exact text line,
//! including checksum computation.
//!
//! A record line has the textual form `:LLAAAATTDD...DDCC` where `LL` is the
//! payload length, `AAAA` the 16-bit record address, `TT` the record type,
//! `DD...DD` the payload and `CC` the checksum, each field in fixed-width
//! uppercase hex.

use vstd::arithmetic::div_mod::{lemma_add_mod_noop, lemma_small_mod};
use vstd::prelude::*;
use vstd::string::StringSliceAdditionalSpecFns;

verus! {

use crate::error::IntelHexErrorKind;

/// The six standard Intel HEX record types.
#[derive(Copy, Clone, Debug, PartialEq, Eq, Hash, Structural)]
pub enum RecordType {
    Data,
    EndOfFile,
    ExtendedSegmentAddress,
    StartSegmentAddress,
    ExtendedLinearAddress,
    StartLinearAddress,
}

impl RecordType {
    /// The type code carried in the `TT` field of a record.
    pub open spec fn spec_code(self) -> u8 {
        match self {
            RecordType::Data => 0x00,
            RecordType::EndOfFile => 0x01,
            RecordType::ExtendedSegmentAddress => 0x02,
            RecordType::StartSegmentAddress => 0x03,
            RecordType::ExtendedLinearAddress => 0x04,
            RecordType::StartLinearAddress => 0x05,
        }
    }

    /// The type code carried in the `TT` field of a record.
    #[verifier::when_used_as_spec(spec_code)]
    pub fn code(self) -> (r: u8)
        ensures
            r == self.spec_code(),
    {
        match self {
            RecordType::Data => 0x00,
            RecordType::EndOfFile => 0x01,
            RecordType::ExtendedSegmentAddress => 0x02,
            RecordType::StartSegmentAddress => 0x03,
            RecordType::ExtendedLinearAddress => 0x04,
            RecordType::StartLinearAddress => 0x05,
        }
    }

    /// Which record type a two-digit type field denotes, if any.
    pub open spec fn spec_parse(s: Seq<u8>) -> Result<RecordType, IntelHexErrorKind> {
        if s =~= seq![0x30u8, 0x30u8] {
            Ok(RecordType::Data)
        } else if s =~= seq![0x30u8, 0x31u8] {
            Ok(RecordType::EndOfFile)
        } else if s =~= seq![0x30u8, 0x32u8] {
            Ok(RecordType::ExtendedSegmentAddress)
        } else if s =~= seq![0x30u8, 0x33u8] {
            Ok(RecordType::StartSegmentAddress)
        } else if s =~= seq![0x30u8, 0x34u8] {
            Ok(RecordType::ExtendedLinearAddress)
        } else if s =~= seq![0x30u8, 0x35u8] {
            Ok(RecordType::StartLinearAddress)
        } else {
            Err(IntelHexErrorKind::InvalidRecordType)
        }
    }

    /// Parse the two-character type field of a record (e.g. `"00"`, `"05"`).
    /// Anything but the six known codes is `InvalidRecordType`.
    pub fn parse(s: &str) -> (r: Result<RecordType, IntelHexErrorKind>)
        ensures
            r == RecordType::spec_parse(s.spec_bytes()),
    {
        let b = s.as_bytes();
        if b.len() == 2 && b[0] == 0x30u8 {
            let r = match b[1] {
                0x30u8 => Ok(RecordType::Data),
                0x31u8 => Ok(RecordType::EndOfFile),
                0x32u8 => Ok(RecordType::ExtendedSegmentAddress),
                0x33u8 => Ok(RecordType::StartSegmentAddress),
                0x34u8 => Ok(RecordType::ExtendedLinearAddress),
                0x35u8 => Ok(RecordType::StartLinearAddress),
                _ => Err(IntelHexErrorKind::InvalidRecordType),
            };
            proof {
                assert(s.spec_bytes() =~= seq![0x30u8, s.spec_bytes()[1]]);
            }
            r
        } else {
            proof {
                if s.spec_bytes().len() == 2 {
                    assert(s.spec_bytes() =~= seq![s.spec_bytes()[0], s.spec_bytes()[1]]);
                }
            }
            Err(IntelHexErrorKind::InvalidRecordType)
        }
    }
}

// ===================== hex digits =====================

/// Is `c` the ASCII code of a hexadecimal digit?
pub open spec fn is_hex_digit(c: u8) -> bool {
    (0x30 <= c && c <= 0x39) || (0x41 <= c && c <= 0x46) || (0x61 <= c && c <= 0x66)
}

/// The numeric value of a hexadecimal digit character (0 on non-digits).
pub open spec fn hex_val(c: u8) -> u8 {
    if 0x30 <= c && c <= 0x39 {
        (c - 0x30) as u8
    } else if 0x41 <= c && c <= 0x46 {
        ((c - 0x41) + 10) as u8
    } else if 0x61 <= c && c <= 0x66 {
        ((c - 0x61) + 10) as u8
    } else {
        0
    }
}

/// The uppercase ASCII hex digit for a value below 16.
pub open spec fn hex_digit(n: u8) -> u8 {
    if n < 10 {
        (0x30 + n) as u8
    } else {
        (0x41 + (n - 10)) as u8
    }
}

/// The byte encoded by two hex digit characters.
pub open spec fn pair_val(hi: u8, lo: u8) -> u8 {
    ((hex_val(hi) as int) * 16 + (hex_val(lo) as int)) as u8
}

/// The 16-bit value encoded by four hex digit characters.
pub open spec fn quad_val(d0: u8, d1: u8, d2: u8, d3: u8) -> u16 {
    ((pair_val(d0, d1) as int) * 256 + (pair_val(d2, d3) as int)) as u16
}

/// The two uppercase hex digit characters encoding a byte.
pub open spec fn hexpair(b: u8) -> Seq<u8> {
    seq![hex_digit((b as int / 16) as u8), hex_digit((b as int % 16) as u8)]
}

/// The hex digit characters encoding a byte sequence, two per byte.
pub open spec fn hex_of_bytes(s: Seq<u8>) -> Seq<u8>
    decreases s.len(),
{
    if s.len() == 0 {
        Seq::empty()
    } else {
        hex_of_bytes(s.drop_last()) + hexpair(s.last())
    }
}

fn is_hex_digit_exec(c: u8) -> (r: bool)
    ensures
        r == is_hex_digit(c),
{
    (0x30 <= c && c <= 0x39) || (0x41 <= c && c <= 0x46) || (0x61 <= c && c <= 0x66)
}

fn hex_val_exec(c: u8) -> (r: u8)
    ensures
        r == hex_val(c),
        r <= 15,
{
    if 0x30 <= c && c <= 0x39 {
        c - 0x30
    } else if 0x41 <= c && c <= 0x46 {
        (c - 0x41) + 10
    } else if 0x61 <= c && c <= 0x66 {
        (c - 0x61) + 10
    } else {
        0
    }
}

fn hex_digit_exec(n: u8) -> (r: u8)
    requires
        n < 16,
    ensures
        r == hex_digit(n),
{
    if n < 10 {
        0x30 + n
    } else {
        0x41 + (n - 10)
    }
}

/// Decode the byte written at positions `i`, `i + 1` of a line.
fn decode_pair(line: &[u8], i: usize) -> (r: u8)
    requires
        i + 1 < line@.len(),
        is_hex_digit(line@[i as int]),
        is_hex_digit(line@[i as int + 1]),
    ensures
        r == pair_val(line@[i as int], line@[i as int + 1]),
{
    let hi = hex_val_exec(line[i]);
    let lo = hex_val_exec(line[i + 1]);
    hi * 16 + lo
}

/// Append the two hex digit characters of `b` to `v`.
fn push_hexpair(v: &mut Vec<u8>, b: u8)
    ensures
        final(v)@ == old(v)@ + hexpair(b),
        forall|i: int| old(v)@.len() <= i < final(v)@.len() ==> final(v)@[i] < 0x80,
{
    let hi = hex_digit_exec(b / 16);
    let lo = hex_digit_exec(b % 16);
    v.push(hi);
    v.push(lo);
    proof {
        assert(final(v)@ =~= old(v)@ + hexpair(b));
    }
}

// ===================== checksum =====================

/// Sum of a byte sequence, as an unbounded integer.
pub open spec fn sum_bytes(s: Seq<u8>) -> int
    decreases s.len(),
{
    if s.len() == 0 {
        0
    } else {
        sum_bytes(s.drop_last()) + s.last()
    }
}

/// The Intel HEX checksum of a byte sequence: the two's complement of its
/// sum modulo 256.
pub open spec fn spec_checksum(s: Seq<u8>) -> u8 {
    (((256 - sum_bytes(s) % 256) % 256) as u8)
}

proof fn lemma_sum_bytes_empty()
    ensures
        sum_bytes(Seq::<u8>::empty()) == 0,
{
}

proof fn lemma_sum_bytes_push(s: Seq<u8>, x: u8)
    ensures
        sum_bytes(s.push(x)) == sum_bytes(s) + x,
{
    assert(s.push(x).drop_last() =~= s);
}

proof fn lemma_sum_bytes_nonneg(s: Seq<u8>)
    ensures
        sum_bytes(s) >= 0,
    decreases s.len(),
{
    if s.len() > 0 {
        lemma_sum_bytes_nonneg(s.drop_last());
    }
}

// ===================== the record =====================

/// The mathematical model of a decoded record.
pub struct RecordV {
    pub length: u8,
    pub address: u16,
    pub rtype: RecordType,
    pub data: Seq<u8>,
    pub checksum: u8,
}

/// A decoded Intel HEX record. Produced transiently by [`Record::parse`];
/// never stored in a memory image.
#[derive(Debug, Clone)]
pub struct Record {
    /// Declared payload length.
    pub length: u8,
    /// Record-local 16-bit address.
    pub address: u16,
    /// The record type.
    pub rtype: RecordType,
    /// Payload bytes; their number equals `length`.
    pub data: Vec<u8>,
    /// The checksum carried by the record.
    pub checksum: u8,
}

impl View for Record {
    type V = RecordV;

    open spec fn view(&self) -> RecordV {
        RecordV {
            length: self.length,
            address: self.address,
            rtype: self.rtype,
            data: self.data@,
            checksum: self.checksum,
        }
    }
}

impl PartialEq for Record {
    fn eq(&self, other: &Record) -> (r: bool) {
        let r = self.length == other.length && self.address == other.address && self.rtype
            == other.rtype && self.data == other.data && self.checksum == other.checksum;
        proof {
            if r {
                assert(self.data@ =~= other.data@);
            } else {
                if self@ == other@ {
                    assert(self.data@ =~= other.data@);
                }
            }
        }
        r
    }
}

impl vstd::std_specs::cmp::PartialEqSpecImpl for Record {
    open spec fn obeys_eq_spec() -> bool {
        true
    }

    open spec fn eq_spec(&self, other: &Record) -> bool {
        self@ == other@
    }
}

impl Eq for Record {

}

/// The four fixed bytes in front of the payload: declared length, the two
/// address bytes and the type code.
pub open spec fn header_bytes(length: u8, address: u16, code: u8) -> Seq<u8> {
    seq![length, (address as int / 256) as u8, (address as int % 256) as u8, code]
}

/// The bytes summed by the record checksum: declared length, the two address
/// bytes, the type code, then the payload.
pub open spec fn checksum_input(rv: RecordV) -> Seq<u8> {
    header_bytes(rv.length, rv.address, rv.rtype.spec_code()) + rv.data
}

/// The exact text line encoding a record: `:LLAAAATTDD...DDCC` in uppercase
/// hex, with the checksum computed over the other fields.
#[verifier::opaque]
pub open spec fn record_line(length: u8, address: u16, code: u8, data: Seq<u8>) -> Seq<u8> {
    seq![0x3Au8] + hexpair(length) + hexpair((address as int / 256) as u8) + hexpair(
        (address as int % 256) as u8,
    ) + hexpair(code) + hex_of_bytes(data) + hexpair(
        spec_checksum(header_bytes(length, address, code) + data),
    )
}

/// What encoding a record yields: the exact text line, or the rejection the
/// per-type shape rules call for. `ExtendedSegmentAddress` records are not
/// emittable.
pub open spec fn spec_create(address: u16, rtype: RecordType, data: Seq<u8>) -> Result<
    Seq<u8>,
    IntelHexErrorKind,
> {
    match rtype {
        RecordType::Data => {
            if data.len() > 255 {
                Err(IntelHexErrorKind::RecordTooLong)
            } else {
                Ok(record_line(data.len() as u8, address, 0x00, data))
            }
        },
        RecordType::EndOfFile => Ok(record_line(0, 0, 0x01, Seq::empty())),
        RecordType::ExtendedLinearAddress => {
            if data.len() != 2 {
                Err(IntelHexErrorKind::RecordLengthInvalidForType(rtype, 2, data.len() as usize))
            } else if address != 0 {
                Err(IntelHexErrorKind::RecordAddressInvalidForType(rtype, 0, address as usize))
            } else {
                Ok(record_line(2, 0, 0x04, data))
            }
        },
        RecordType::StartSegmentAddress | RecordType::StartLinearAddress => {
            if data.len() != 4 {
                Err(IntelHexErrorKind::RecordLengthInvalidForType(rtype, 4, data.len() as usize))
            } else if address != 0 {
                Err(IntelHexErrorKind::RecordAddressInvalidForType(rtype, 0, address as usize))
            } else {
                Ok(record_line(4, 0, rtype.spec_code(), data))
            }
        },
        RecordType::ExtendedSegmentAddress => Err(IntelHexErrorKind::RecordNotSupported),
    }
}

/// The characters of an ASCII byte sequence, one per byte.
pub open spec fn ascii_chars(b: Seq<u8>) -> Seq<char> {
    Seq::new(b.len(), |i: int| b[i] as char)
}

/// Does an encode result carry exactly the given byte-level outcome?
pub open spec fn created_matches(
    r: Result<String, IntelHexErrorKind>,
    s: Result<Seq<u8>, IntelHexErrorKind>,
) -> bool {
    match (r, s) {
        (Ok(st), Ok(bytes)) => st@ == ascii_chars(bytes),
        (Err(e1), Err(e2)) => e1 == e2,
        _ => false,
    }
}

/// Relies on String::from_utf8: a buffer of bytes below 0x80 is valid UTF-8
/// and decodes to one char per byte, with the same numeric value.
#[verifier::external_body]
pub(crate) fn string_from_ascii(v: Vec<u8>) -> (r: String)
    requires
        forall|i: int| 0 <= i < v@.len() ==> v@[i] < 0x80,
    ensures
        r@ == ascii_chars(v@),
{
    String::from_utf8(v).unwrap_or_default()
}

/// Lifts a decode result to the model level.
pub open spec fn record_result_view(r: Result<Record, IntelHexErrorKind>) -> Result<
    RecordV,
    IntelHexErrorKind,
> {
    match r {
        Ok(rec) => Ok(rec@),
        Err(e) => Err(e),
    }
}

/// The payload bytes encoded in the digit region `d` of a record with the
/// given declared length.
pub open spec fn payload_of(d: Seq<u8>, length: int) -> Seq<u8> {
    Seq::new(length as nat, |k: int| pair_val(d[8 + 2 * k], d[9 + 2 * k]))
}

/// What decoding one record line yields: the record, or the first failing
/// validation, in order: start marker, hex digits only, size bounds, even
/// digit count, payload count consistent with the declared length, known
/// record type, per-type payload length, zero address for non-data types,
/// and finally the checksum.
pub open spec fn spec_parse_record(line: Seq<u8>) -> Result<RecordV, IntelHexErrorKind> {
    if line.len() == 0 || line[0] != 0x3Au8 {
        Err(IntelHexErrorKind::MissingStartCode)
    } else {
        let d = line.skip(1);
        if exists|i: int| 0 <= i < d.len() && !is_hex_digit(d[i]) {
            Err(IntelHexErrorKind::ContainsInvalidCharacters)
        } else if d.len() < 10 {
            Err(IntelHexErrorKind::RecordTooShort)
        } else if d.len() > 520 {
            Err(IntelHexErrorKind::RecordTooLong)
        } else if d.len() % 2 != 0 {
            Err(IntelHexErrorKind::RecordNotEvenLength)
        } else {
            let length = pair_val(d[0], d[1]);
            if d.len() != 10 + 2 * (length as int) {
                Err(IntelHexErrorKind::RecordInvalidPayloadLength)
            } else {
                match RecordType::spec_parse(d.subrange(6, 8)) {
                    Err(k) => Err(k),
                    Ok(rtype) => {
                        let address = quad_val(d[2], d[3], d[4], d[5]);
                        if rtype == RecordType::EndOfFile && length != 0 {
                            Err(
                                IntelHexErrorKind::RecordLengthInvalidForType(
                                    rtype,
                                    0,
                                    length as usize,
                                ),
                            )
                        } else if (rtype == RecordType::ExtendedSegmentAddress || rtype
                            == RecordType::ExtendedLinearAddress) && length != 2 {
                            Err(
                                IntelHexErrorKind::RecordLengthInvalidForType(
                                    rtype,
                                    2,
                                    length as usize,
                                ),
                            )
                        } else if (rtype == RecordType::StartSegmentAddress || rtype
                            == RecordType::StartLinearAddress) && length != 4 {
                            Err(
                                IntelHexErrorKind::RecordLengthInvalidForType(
                                    rtype,
                                    4,
                                    length as usize,
                                ),
                            )
                        } else if rtype != RecordType::Data && address != 0 {
                            Err(
                                IntelHexErrorKind::RecordAddressInvalidForType(
                                    rtype,
                                    0,
                                    address as usize,
                                ),
                            )
                        } else {
                            let rv = RecordV {
                                length,
                                address,
                                rtype,
                                data: payload_of(d, length as int),
                                checksum: pair_val(d[d.len() - 2], d[d.len() - 1]),
                            };
                            let calc = spec_checksum(checksum_input(rv));
                            if calc != rv.checksum {
                                Err(IntelHexErrorKind::RecordChecksumMismatch(calc, rv.checksum))
                            } else {
                                Ok(rv)
                            }
                        }
                    },
                }
            }
        }
    }
}

impl Record {
    /// The checksum that this record's fields call for: the two's complement
    /// of the mod-256 sum of declared length, address bytes, type code and
    /// payload.
    pub fn calculate_checksum_from_self(&self) -> (r: u8)
        ensures
            r == spec_checksum(checksum_input(self@)),
    {
        let hi: u8 = (self.address / 256) as u8;
        let lo: u8 = (self.address % 256) as u8;
        let code: u8 = self.rtype.code();
        let mut sum: u8 = self.length;
        proof {
            let s1 = seq![self.length];
            lemma_sum_bytes_empty();
            lemma_sum_bytes_push(Seq::<u8>::empty(), self.length);
            assert(Seq::<u8>::empty().push(self.length) =~= s1);
            assert(sum_bytes(s1) == self.length as int);
            lemma_small_mod(self.length as nat, 256);
        }
        let ghost header: Seq<u8> = seq![self.length, hi, lo, code];
        sum = sum.wrapping_add(hi);
        proof {
            lemma_mod_add_step(seq![self.length], hi);
            assert(seq![self.length].push(hi) =~= seq![self.length, hi]);
        }
        sum = sum.wrapping_add(lo);
        proof {
            lemma_mod_add_step(seq![self.length, hi], lo);
            assert(seq![self.length, hi].push(lo) =~= seq![self.length, hi, lo]);
        }
        sum = sum.wrapping_add(code);
        proof {
            lemma_mod_add_step(seq![self.length, hi, lo], code);
            assert(seq![self.length, hi, lo].push(code) =~= header);
        }
        let mut i: usize = 0;
        while i < self.data.len()
            invariant
                0 <= i <= self.data@.len(),
                sum as int == sum_bytes(header + self.data@.subrange(0, i as int)) % 256,
                header == seq![self.length, hi, lo, code],
            decreases self.data@.len() - i,
        {
            proof {
                lemma_mod_add_step(header + self.data@.subrange(0, i as int), self.data@[i as int]);
                assert((header + self.data@.subrange(0, i as int)).push(self.data@[i as int])
                    =~= header + self.data@.subrange(0, i as int + 1));
            }
            sum = sum.wrapping_add(self.data[i]);
            i = i + 1;
        }
        proof {
            assert(header + self.data@.subrange(0, self.data@.len() as int) =~= checksum_input(
                self@,
            ));
            lemma_sum_bytes_nonneg(checksum_input(self@));
        }
        if sum == 0 {
            0
        } else {
            proof {
                lemma_small_mod((256 - sum as int) as nat, 256);
            }
            (255 - sum) + 1
        }
    }

    /// The Intel HEX checksum of a byte slice: the two's complement of the
    /// mod-256 sum of its bytes.
    pub fn calculate_checksum(data: &[u8]) -> (r: u8)
        ensures
            r == spec_checksum(data@),
    {
        let mut sum: u8 = 0;
        let mut i: usize = 0;
        proof {
            assert(data@.subrange(0, 0) =~= Seq::<u8>::empty());
        }
        while i < data.len()
            invariant
                0 <= i <= data@.len(),
                sum as int == sum_bytes(data@.subrange(0, i as int)) % 256,
            decreases data@.len() - i,
        {
            proof {
                lemma_mod_add_step(data@.subrange(0, i as int), data@[i as int]);
                assert(data@.subrange(0, i as int).push(data@[i as int]) =~= data@.subrange(
                    0,
                    i as int + 1,
                ));
            }
            sum = sum.wrapping_add(data[i]);
            i = i + 1;
        }
        proof {
            assert(data@.subrange(0, data@.len() as int) =~= data@);
            lemma_sum_bytes_nonneg(data@);
        }
        if sum == 0 {
            0
        } else {
            proof {
                lemma_small_mod((256 - sum as int) as nat, 256);
            }
            (255 - sum) + 1
        }
    }

    /// Decode one line of Intel HEX text into a record, or report the first
    /// failing validation, exactly as [`spec_parse_record`] lays the checks
    /// out.
    pub fn parse(line: &[u8]) -> (r: Result<Record, IntelHexErrorKind>)
        ensures
            record_result_view(r) == spec_parse_record(line@),
    {
        if line.len() == 0 || line[0] != 0x3Au8 {
            return Err(IntelHexErrorKind::MissingStartCode);
        }
        let ghost d = line@.skip(1);
        proof {
            assert(forall|j: int| 0 <= j < d.len() ==> d[j] == line@[j + 1]);
        }
        let n = line.len() - 1;
        let mut i: usize = 1;
        while i < line.len()
            invariant
                1 <= i <= line@.len(),
                line@[0] == 0x3Au8,
                d == line@.skip(1),
                forall|j: int| 1 <= j < i ==> is_hex_digit(line@[j]),
            decreases line@.len() - i,
        {
            if !is_hex_digit_exec(line[i]) {
                proof {
                    assert(line@.skip(1)[i as int - 1] == line@[i as int]);
                    assert(0 <= i as int - 1 < line@.skip(1).len() && !is_hex_digit(
                        line@.skip(1)[i as int - 1],
                    ));
                }
                return Err(IntelHexErrorKind::ContainsInvalidCharacters);
            }
            i = i + 1;
        }
        proof {
            assert(forall|j: int| 0 <= j < d.len() ==> is_hex_digit(d[j]));
        }
        if n < 10 {
            return Err(IntelHexErrorKind::RecordTooShort);
        }
        if n > 520 {
            return Err(IntelHexErrorKind::RecordTooLong);
        }
        if n % 2 != 0 {
            return Err(IntelHexErrorKind::RecordNotEvenLength);
        }
        let length = decode_pair(line, 1);
        if n != 10 + 2 * (length as usize) {
            return Err(IntelHexErrorKind::RecordInvalidPayloadLength);
        }
        let rtype = {
            proof {
                assert(d.subrange(6, 8) =~= seq![line@[7], line@[8]]);
            }
            let c6 = line[7];
            let c7 = line[8];
            let tr = if c6 == 0x30u8 {
                match c7 {
                    0x30u8 => Ok(RecordType::Data),
                    0x31u8 => Ok(RecordType::EndOfFile),
                    0x32u8 => Ok(RecordType::ExtendedSegmentAddress),
                    0x33u8 => Ok(RecordType::StartSegmentAddress),
                    0x34u8 => Ok(RecordType::ExtendedLinearAddress),
                    0x35u8 => Ok(RecordType::StartLinearAddress),
                    _ => Err(IntelHexErrorKind::InvalidRecordType),
                }
            } else {
                Err(IntelHexErrorKind::InvalidRecordType)
            };
            proof {
                assert(tr == RecordType::spec_parse(d.subrange(6, 8)));
            }
            match tr {
                Ok(t) => t,
                Err(e) => {
                    return Err(e);
                },
            }
        };
        let address: u16 = {
            let p0 = decode_pair(line, 3);
            let p1 = decode_pair(line, 5);
            (p0 as u16) * 256 + (p1 as u16)
        };
        proof {
            assert(address == quad_val(d[2], d[3], d[4], d[5]));
        }
        if rtype == RecordType::EndOfFile && length != 0 {
            return Err(IntelHexErrorKind::RecordLengthInvalidForType(rtype, 0, length as usize));
        }
        if (rtype == RecordType::ExtendedSegmentAddress || rtype
            == RecordType::ExtendedLinearAddress) && length != 2 {
            return Err(IntelHexErrorKind::RecordLengthInvalidForType(rtype, 2, length as usize));
        }
        if (rtype == RecordType::StartSegmentAddress || rtype == RecordType::StartLinearAddress)
            && length != 4 {
            return Err(IntelHexErrorKind::RecordLengthInvalidForType(rtype, 4, length as usize));
        }
        if rtype != RecordType::Data && address != 0 {
            return Err(IntelHexErrorKind::RecordAddressInvalidForType(rtype, 0, address as usize));
        }
        let mut data: Vec<u8> = Vec::new();
        let mut k: usize = 0;
        while k < length as usize
            invariant
                0 <= k <= length as int,
                line@.len() == 11 + 2 * length as int,
                d == line@.skip(1),
                forall|j: int| 0 <= j < d.len() ==> is_hex_digit(d[j]),
                data@ =~= payload_of(d, k as int),
            decreases length as int - k,
        {
            proof {
                assert(line@[9 + 2 * k as int] == d[8 + 2 * k as int]);
                assert(line@[10 + 2 * k as int] == d[9 + 2 * k as int]);
            }
            let b = decode_pair(line, 9 + 2 * k);
            data.push(b);
            k = k + 1;
            proof {
                assert(data@ =~= payload_of(d, k as int));
            }
        }
        let checksum = decode_pair(line, line.len() - 2);
        proof {
            assert(checksum == pair_val(d[d.len() - 2], d[d.len() - 1]));
        }
        let rec = Record { length, address, rtype, data, checksum };
        let calc = rec.calculate_checksum_from_self();
        if calc != checksum {
            return Err(IntelHexErrorKind::RecordChecksumMismatch(calc, checksum));
        }
        Ok(rec)
    }

    /// Encode a record as its exact text line, mirroring the per-type shape
    /// rules of decoding: a `Data` payload is capped at 255 bytes, the
    /// extended/start address types demand their fixed payload size and a
    /// zero address, and `ExtendedSegmentAddress` is rejected as not
    /// emittable.
    pub fn create(address: u16, rtype: RecordType, data: &[u8]) -> (r: Result<
        String,
        IntelHexErrorKind,
    >)
        ensures
            created_matches(r, spec_create(address, rtype, data@)),
    {
        match rtype {
            RecordType::Data => {
                if data.len() > 255 {
                    Err(IntelHexErrorKind::RecordTooLong)
                } else {
                    let line = emit_line(data.len() as u8, address, 0x00, data);
                    Ok(string_from_ascii(line))
                }
            },
            RecordType::EndOfFile => {
                let empty: Vec<u8> = Vec::new();
                let line = emit_line(0, 0, 0x01, empty.as_slice());
                Ok(string_from_ascii(line))
            },
            RecordType::ExtendedLinearAddress => {
                if data.len() != 2 {
                    Err(IntelHexErrorKind::RecordLengthInvalidForType(rtype, 2, data.len()))
                } else if address != 0 {
                    Err(
                        IntelHexErrorKind::RecordAddressInvalidForType(
                            rtype,
                            0,
                            address as usize,
                        ),
                    )
                } else {
                    let line = emit_line(2, 0, 0x04, data);
                    Ok(string_from_ascii(line))
                }
            },
            RecordType::StartSegmentAddress | RecordType::StartLinearAddress => {
                if data.len() != 4 {
                    Err(IntelHexErrorKind::RecordLengthInvalidForType(rtype, 4, data.len()))
                } else if address != 0 {
                    Err(
                        IntelHexErrorKind::RecordAddressInvalidForType(
                            rtype,
                            0,
                            address as usize,
                        ),
                    )
                } else {
                    let line = emit_line(4, 0, rtype.code(), data);
                    Ok(string_from_ascii(line))
                }
            },
            RecordType::ExtendedSegmentAddress => Err(IntelHexErrorKind::RecordNotSupported),
        }
    }
}

/// Build the exact text line for a record with the given fields.
pub(crate) fn emit_line(length: u8, address: u16, code: u8, data: &[u8]) -> (v: Vec<u8>)
    requires
        data@.len() == length as int,
    ensures
        v@ == record_line(length, address, code, data@),
        forall|i: int| 0 <= i < v@.len() ==> v@[i] < 0x80,
{
    let hi: u8 = (address / 256) as u8;
    let lo: u8 = (address % 256) as u8;
    let mut cv: Vec<u8> = Vec::new();
    cv.push(length);
    cv.push(hi);
    cv.push(lo);
    cv.push(code);
    proof {
        assert(cv@ =~= header_bytes(length, address, code));
    }
    let mut k: usize = 0;
    while k < data.len()
        invariant
            0 <= k <= data@.len(),
            cv@ =~= header_bytes(length, address, code) + data@.subrange(0, k as int),
        decreases data@.len() - k,
    {
        cv.push(data[k]);
        k = k + 1;
        proof {
            assert(cv@ =~= header_bytes(length, address, code) + data@.subrange(0, k as int));
        }
    }
    proof {
        assert(data@.subrange(0, data@.len() as int) =~= data@);
    }
    let cs = Record::calculate_checksum(cv.as_slice());
    let mut v: Vec<u8> = Vec::new();
    v.push(0x3Au8);
    push_hexpair(&mut v, length);
    push_hexpair(&mut v, hi);
    push_hexpair(&mut v, lo);
    push_hexpair(&mut v, code);
    let ghost prefix = seq![0x3Au8] + hexpair(length) + hexpair(hi) + hexpair(lo) + hexpair(code);
    proof {
        assert(v@ =~= prefix + hex_of_bytes(data@.subrange(0, 0)));
    }
    let mut k2: usize = 0;
    while k2 < data.len()
        invariant
            0 <= k2 <= data@.len(),
            prefix == seq![0x3Au8] + hexpair(length) + hexpair(hi) + hexpair(lo) + hexpair(code),
            v@ =~= prefix + hex_of_bytes(data@.subrange(0, k2 as int)),
            forall|i: int| 0 <= i < v@.len() ==> v@[i] < 0x80,
        decreases data@.len() - k2,
    {
        push_hexpair(&mut v, data[k2]);
        k2 = k2 + 1;
        proof {
            lemma_hex_of_bytes_push(data@.subrange(0, k2 - 1), data@[k2 - 1]);
            assert(data@.subrange(0, k2 - 1).push(data@[k2 - 1]) =~= data@.subrange(
                0,
                k2 as int,
            ));
            assert(v@ =~= prefix + hex_of_bytes(data@.subrange(0, k2 as int)));
        }
    }
    push_hexpair(&mut v, cs);
    proof {
        reveal(record_line);
        assert(v@ =~= record_line(length, address, code, data@));
    }
    v
}

proof fn lemma_hex_of_bytes_push(s: Seq<u8>, x: u8)
    ensures
        hex_of_bytes(s.push(x)) == hex_of_bytes(s) + hexpair(x),
{
    assert(s.push(x).drop_last() =~= s);
}

proof fn lemma_mod_add_step(s: Seq<u8>, x: u8)
    ensures
        (sum_bytes(s) % 256 + x) % 256 == sum_bytes(s.push(x)) % 256,
{
    lemma_sum_bytes_push(s, x);
    lemma_sum_bytes_nonneg(s);
    lemma_add_mod_noop(sum_bytes(s), x as int, 256);
    lemma_small_mod(x as nat, 256);
    lemma_small_mod((sum_bytes(s) % 256) as nat, 256);
    lemma_add_mod_noop(sum_bytes(s) % 256, x as int, 256);
}

} // verus!
