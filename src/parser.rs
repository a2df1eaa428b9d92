use crate::angle::Angle;
use crate::dted_data::{DtedData, DtedHeader, DtedRecord};
use vstd::arithmetic::div_mod::lemma_fundamental_div_mod;
use vstd::prelude::*;

verus! {

/// Length of the User Header Label.
pub const HEADER_LEN: usize = 80;

/// Offset of the first record: the header, then the DSI and ACC blocks, which
/// are skipped.
pub const RECORDS_START: usize = 80 + 648 + 2700;

/// The byte that opens every record.
pub const RECORD_SENTINEL: u8 = 0xaa;

/// What made a buffer unreadable.
#[derive(Clone, Copy, Debug, PartialEq, Eq, Structural)]
pub enum ParseReason {
    /// The header does not start with `UHL1`.
    WrongTag,
    /// A numeric ASCII field holds a byte that is not a digit.
    BadDigit,
    /// A hemisphere byte is none of `N`, `S`, `E`, `W`.
    BadHemisphere,
    /// A record does not start with the sentinel byte.
    BadSentinel,
    /// The buffer ends before the data it declares.
    Truncated,
}

/// A decoding failure, with the byte offset where it was found.
#[derive(Clone, Copy, Debug, PartialEq, Eq, Structural)]
pub enum Error {
    ParseError(ParseReason, usize),
}

pub open spec fn is_digit(c: u8) -> bool {
    0x30 <= c <= 0x39
}

pub open spec fn all_digits(s: Seq<u8>) -> bool {
    forall|i: int| 0 <= i < s.len() ==> #[trigger] is_digit(s[i])
}

/// The decimal number written by the digits of `s`, most significant first.
pub open spec fn digits_value(s: Seq<u8>) -> nat
    decreases s.len(),
{
    if s.len() == 0 {
        0
    } else {
        digits_value(s.drop_last()) * 10 + (s.last() - 0x30) as nat
    }
}

/// The number written by the `n` digits at `p`.
pub open spec fn number_at(b: Seq<u8>, p: int, n: int) -> nat {
    digits_value(b.subrange(p, p + n))
}

pub open spec fn digits_at(b: Seq<u8>, p: int, n: int) -> bool {
    all_digits(b.subrange(p, p + n))
}

/// `10^n`.
pub open spec fn pow10(n: nat) -> nat
    decreases n,
{
    if n == 0 {
        1
    } else {
        10 * pow10((n - 1) as nat)
    }
}

proof fn lemma_pow10_values()
    ensures
        pow10(2) == 100,
        pow10(3) == 1000,
        pow10(4) == 10000,
        pow10(9) == 1_000_000_000,
{
    assert(pow10(0) == 1);
    assert(pow10(1) == 10);
    assert(pow10(2) == 100);
    assert(pow10(3) == 1000);
    assert(pow10(4) == 10000);
    assert(pow10(5) == 100000);
    assert(pow10(6) == 1000000);
    assert(pow10(7) == 10000000);
    assert(pow10(8) == 100000000);
    assert(pow10(9) == 1000000000);
}

proof fn lemma_pow10_monotone(n: nat, m: nat)
    requires
        n <= m,
    ensures
        pow10(n) <= pow10(m),
    decreases m - n,
{
    if n < m {
        lemma_pow10_monotone(n, (m - 1) as nat);
    }
}

/// Reading the digits of `a` followed by those of `c` gives the number of `a`
/// shifted left by the length of `c`, plus the number of `c`.
pub proof fn lemma_digits_concat(a: Seq<u8>, c: Seq<u8>)
    ensures
        digits_value(a + c) == digits_value(a) * pow10(c.len()) + digits_value(c),
    decreases c.len(),
{
    if c.len() == 0 {
        assert(a + c =~= a);
        assert(pow10(0) == 1);
        assert(digits_value(c) == 0);
    } else {
        let c0 = c.drop_last();
        assert((a + c).drop_last() =~= a + c0);
        assert((a + c).last() == c.last());
        lemma_digits_concat(a, c0);
        let va = digits_value(a);
        let p = pow10(c0.len());
        let d = (c.last() - 0x30) as nat;
        assert(pow10(c.len()) == 10 * p);
        assert(digits_value(a + c) == digits_value(a + c0) * 10 + d);
        assert(digits_value(c) == digits_value(c0) * 10 + d);
        assert((va * p + digits_value(c0)) * 10 + d == va * (10 * p) + (digits_value(c0) * 10
            + d)) by (nonlinear_arith);
        assert(digits_value(a + c0) == va * p + digits_value(c0));
    }
}

/// Reads the `len` ASCII digits at `start` as a decimal number; `None` if one
/// of them is not a digit.
pub fn bytes_to_num(b: &[u8], start: usize, len: usize) -> (r: Option<u32>)
    requires
        start + len <= b.len(),
        len <= 9,
    ensures
        match r {
            Some(v) => digits_at(b@, start as int, len as int) && v == number_at(
                b@,
                start as int,
                len as int,
            ) && v < pow10(len as nat),
            None => !digits_at(b@, start as int, len as int),
        },
{
    let mut acc: u32 = 0;
    let mut i: usize = 0;
    while i < len
        invariant
            i <= len <= 9,
            start + len <= b.len(),
            all_digits(b@.subrange(start as int, start + i)),
            acc == digits_value(b@.subrange(start as int, start + i)),
            acc < pow10(i as nat),
        decreases len - i,
    {
        let c = b[start + i];
        if c < 0x30 || c > 0x39 {
            proof {
                assert(!is_digit(b@.subrange(start as int, start + len)[i as int]));
            }
            return None;
        }
        proof {
            let next = b@.subrange(start as int, start + i + 1);
            assert(next.drop_last() =~= b@.subrange(start as int, start + i));
            assert(next.last() == c);
            lemma_pow10_values();
            lemma_pow10_monotone((i + 1) as nat, 9);
            assert(pow10((i + 1) as nat) == 10 * pow10(i as nat));
        }
        acc = acc * 10 + (c - 0x30) as u32;
        i = i + 1;
    }
    Some(acc)
}

pub open spec fn is_hemisphere(c: u8) -> bool {
    c == 0x4e || c == 0x53 || c == 0x45 || c == 0x57
}

/// South and West make the angle negative.
pub open spec fn is_negative_hemisphere(c: u8) -> bool {
    c == 0x53 || c == 0x57
}

/// The first fault, if any, of the 8-byte angle at `p`: three digits of
/// degrees, two of minutes, two of seconds, then the hemisphere.
pub open spec fn angle_error(b: Seq<u8>, p: int) -> Option<Error> {
    if !digits_at(b, p, 3) {
        Some(Error::ParseError(ParseReason::BadDigit, p as usize))
    } else if !digits_at(b, p + 3, 2) {
        Some(Error::ParseError(ParseReason::BadDigit, (p + 3) as usize))
    } else if !digits_at(b, p + 5, 2) {
        Some(Error::ParseError(ParseReason::BadDigit, (p + 5) as usize))
    } else if !is_hemisphere(b[p + 7]) {
        Some(Error::ParseError(ParseReason::BadHemisphere, (p + 7) as usize))
    } else {
        None
    }
}

/// The angle written at `p`, its sign taken from the hemisphere.
pub open spec fn angle_at(b: Seq<u8>, p: int) -> Angle {
    let deg = number_at(b, p, 3) as int;
    Angle {
        deg: (if is_negative_hemisphere(b[p + 7]) {
            -deg
        } else {
            deg
        }) as i16,
        min: number_at(b, p + 3, 2) as u8,
        sec: number_at(b, p + 5, 2) as u8,
    }
}

/// Reads the 8-byte angle field at `p`.
fn parse_angle(b: &[u8], p: usize) -> (r: Result<Angle, Error>)
    requires
        p + 8 <= b.len(),
    ensures
        match r {
            Ok(a) => angle_error(b@, p as int) is None && a == angle_at(b@, p as int),
            Err(e) => angle_error(b@, p as int) == Some(e),
        },
{
    proof {
        lemma_pow10_values();
    }
    let deg = match bytes_to_num(b, p, 3) {
        Some(v) => v,
        None => {
            return Err(Error::ParseError(ParseReason::BadDigit, p));
        },
    };
    let min = match bytes_to_num(b, p + 3, 2) {
        Some(v) => v,
        None => {
            return Err(Error::ParseError(ParseReason::BadDigit, p + 3));
        },
    };
    let sec = match bytes_to_num(b, p + 5, 2) {
        Some(v) => v,
        None => {
            return Err(Error::ParseError(ParseReason::BadDigit, p + 5));
        },
    };
    let h = b[p + 7];
    let sign: i16 = if h == 0x4e || h == 0x45 {
        1
    } else if h == 0x53 || h == 0x57 {
        -1
    } else {
        return Err(Error::ParseError(ParseReason::BadHemisphere, p + 7));
    };
    Ok(Angle { deg: deg as i16 * sign, min: min as u8, sec: sec as u8 })
}

/// Reads the 4-digit unsigned field at `p`.
fn parse_u16_4char(b: &[u8], p: usize) -> (r: Result<u16, Error>)
    requires
        p + 4 <= b.len(),
    ensures
        match r {
            Ok(v) => digits_at(b@, p as int, 4) && v == number_at(b@, p as int, 4),
            Err(e) => !digits_at(b@, p as int, 4) && e == Error::ParseError(
                ParseReason::BadDigit,
                p,
            ),
        },
{
    proof {
        lemma_pow10_values();
    }
    match bytes_to_num(b, p, 4) {
        Some(v) => Ok(v as u16),
        None => Err(Error::ParseError(ParseReason::BadDigit, p)),
    }
}

/// The accuracy field starts with `NA`: accuracy is not available.
pub open spec fn accuracy_unknown(b: Seq<u8>) -> bool {
    b[28] == 0x4e && b[29] == 0x41
}

/// The header tag, `UHL1`.
pub open spec fn header_tag() -> Seq<u8> {
    seq![0x55u8, 0x48u8, 0x4cu8, 0x31u8]
}

/// The first fault, if any, of the header at the start of `b`. The fields are
/// checked in the order they are stored.
pub open spec fn header_error(b: Seq<u8>) -> Option<Error> {
    if b.len() < 80 {
        Some(Error::ParseError(ParseReason::Truncated, b.len() as usize))
    } else if b.subrange(0, 4) != header_tag() {
        Some(Error::ParseError(ParseReason::WrongTag, 0))
    } else if angle_error(b, 4) is Some {
        angle_error(b, 4)
    } else if angle_error(b, 12) is Some {
        angle_error(b, 12)
    } else if !digits_at(b, 20, 4) {
        Some(Error::ParseError(ParseReason::BadDigit, 20))
    } else if !digits_at(b, 24, 4) {
        Some(Error::ParseError(ParseReason::BadDigit, 24))
    } else if !accuracy_unknown(b) && !digits_at(b, 28, 4) {
        Some(Error::ParseError(ParseReason::BadDigit, 28))
    } else if !digits_at(b, 47, 4) {
        Some(Error::ParseError(ParseReason::BadDigit, 47))
    } else if !digits_at(b, 51, 4) {
        Some(Error::ParseError(ParseReason::BadDigit, 51))
    } else {
        None
    }
}

/// The header that `b` starts with, when `header_error(b)` is `None`.
pub open spec fn header_of(b: Seq<u8>) -> DtedHeader {
    DtedHeader {
        origin_lon: angle_at(b, 4),
        origin_lat: angle_at(b, 12),
        lon_interval: number_at(b, 20, 4) as u16,
        lat_interval: number_at(b, 24, 4) as u16,
        accuracy: if accuracy_unknown(b) {
            None
        } else {
            Some(number_at(b, 28, 4) as u16)
        },
        num_lon_lines: number_at(b, 47, 4) as u16,
        num_lat_lines: number_at(b, 51, 4) as u16,
    }
}

/// Decodes the 80-byte header at the start of `bytes`; what follows it is not
/// read.
pub fn parse_dted_header(bytes: &[u8]) -> (r: Result<DtedHeader, Error>)
    ensures
        match r {
            Ok(h) => header_error(bytes@) is None && h == header_of(bytes@),
            Err(e) => header_error(bytes@) == Some(e),
        },
{
    if bytes.len() < HEADER_LEN {
        return Err(Error::ParseError(ParseReason::Truncated, bytes.len()));
    }
    if !(bytes[0] == 0x55 && bytes[1] == 0x48 && bytes[2] == 0x4c && bytes[3] == 0x31) {
        proof {
            assert(bytes@.subrange(0, 4)[0] == bytes@[0]);
            assert(bytes@.subrange(0, 4)[1] == bytes@[1]);
            assert(bytes@.subrange(0, 4)[2] == bytes@[2]);
            assert(bytes@.subrange(0, 4)[3] == bytes@[3]);
        }
        return Err(Error::ParseError(ParseReason::WrongTag, 0));
    }
    proof {
        assert(bytes@.subrange(0, 4) =~= header_tag());
    }
    let origin_lon = match parse_angle(bytes, 4) {
        Ok(a) => a,
        Err(e) => {
            return Err(e);
        },
    };
    let origin_lat = match parse_angle(bytes, 12) {
        Ok(a) => a,
        Err(e) => {
            return Err(e);
        },
    };
    let lon_interval = match parse_u16_4char(bytes, 20) {
        Ok(v) => v,
        Err(e) => {
            return Err(e);
        },
    };
    let lat_interval = match parse_u16_4char(bytes, 24) {
        Ok(v) => v,
        Err(e) => {
            return Err(e);
        },
    };
    let accuracy = if bytes[28] == 0x4e && bytes[29] == 0x41 {
        None
    } else {
        match parse_u16_4char(bytes, 28) {
            Ok(v) => Some(v),
            Err(e) => {
                return Err(e);
            },
        }
    };
    let num_lon_lines = match parse_u16_4char(bytes, 47) {
        Ok(v) => v,
        Err(e) => {
            return Err(e);
        },
    };
    let num_lat_lines = match parse_u16_4char(bytes, 51) {
        Ok(v) => v,
        Err(e) => {
            return Err(e);
        },
    };
    Ok(
        DtedHeader {
            origin_lon,
            origin_lat,
            lon_interval,
            lat_interval,
            accuracy,
            num_lon_lines,
            num_lat_lines,
        },
    )
}

/// A 16-bit signed-magnitude integer: bit 15 is the sign, bits 14 to 0 the
/// magnitude.
pub open spec fn signed_magnitude(x: u16) -> int {
    if x >= 0x8000 {
        -(x - 0x8000)
    } else {
        x as int
    }
}

/// Decodes a signed-magnitude integer (not two's complement).
pub fn to_i16(x: u16) -> (r: i16)
    ensures
        r == signed_magnitude(x),
{
    let sign_bit: u16 = 1u16 << 15u16;
    proof {
        assert(1u16 << 15u16 == 0x8000u16) by (bit_vector);
        assert((x & 0x8000u16 == 0x8000u16) == (x >= 0x8000u16)) by (bit_vector);
        assert(x >= 0x8000u16 ==> x & !0x8000u16 == x - 0x8000u16) by (bit_vector);
    }
    if x & sign_bit == sign_bit {
        -((x & !sign_bit) as i16)
    } else {
        x as i16
    }
}

/// The big-endian unsigned integer in the two bytes at `p`.
pub open spec fn be16(b: Seq<u8>, p: int) -> u16 {
    (b[p] * 256 + b[p + 1]) as u16
}

/// The big-endian unsigned integer in the three bytes at `p`.
pub open spec fn be24(b: Seq<u8>, p: int) -> u32 {
    (b[p] * 65536 + b[p + 1] * 256 + b[p + 2]) as u32
}

/// Bytes taken by a record of `n_lat` posts: sentinel, block count,
/// longitude and latitude counts, the posts, and a checksum.
pub open spec fn record_len(n_lat: int) -> int {
    12 + 2 * n_lat
}

/// Where record `k` starts in a file with header `h`.
pub open spec fn record_offset(h: DtedHeader, k: int) -> int {
    RECORDS_START + k * record_len(h.num_lat_lines as int)
}

/// The length of a complete file with header `h`.
pub open spec fn file_len(h: DtedHeader) -> int {
    record_offset(h, h.num_lon_lines as int)
}

/// `r` holds what the `n_lat`-post record at `off` encodes. The checksum is
/// not part of it.
pub open spec fn record_matches(r: DtedRecord, b: Seq<u8>, off: int, n_lat: int) -> bool {
    &&& r.block_count == be24(b, off + 1)
    &&& r.lon_count == be16(b, off + 4)
    &&& r.lat_count == be16(b, off + 6)
    &&& r.elevations@.len() == n_lat
    &&& forall|j: int|
        0 <= j < n_lat ==> #[trigger] r.elevations@[j] as int == signed_magnitude(
            be16(b, off + 8 + 2 * j),
        )
}

/// Decodes the record of `n_lat` posts at `off`.
pub fn parse_record(b: &[u8], off: usize, n_lat: usize) -> (r: Result<DtedRecord, Error>)
    requires
        off + record_len(n_lat as int) <= b.len(),
    ensures
        match r {
            Ok(rec) => b@[off as int] == RECORD_SENTINEL && record_matches(
                rec,
                b@,
                off as int,
                n_lat as int,
            ),
            Err(e) => b@[off as int] != RECORD_SENTINEL && e == Error::ParseError(
                ParseReason::BadSentinel,
                off,
            ),
        },
{
    if b[off] != RECORD_SENTINEL {
        return Err(Error::ParseError(ParseReason::BadSentinel, off));
    }
    let block_count = b[off + 1] as u32 * 65536 + b[off + 2] as u32 * 256 + b[off + 3] as u32;
    let lon_count = b[off + 4] as u16 * 256 + b[off + 5] as u16;
    let lat_count = b[off + 6] as u16 * 256 + b[off + 7] as u16;
    let mut elevations: Vec<i16> = Vec::new();
    let mut j: usize = 0;
    while j < n_lat
        invariant
            j <= n_lat,
            off + record_len(n_lat as int) <= b.len(),
            elevations@.len() == j,
            forall|t: int|
                0 <= t < j ==> #[trigger] elevations@[t] as int == signed_magnitude(
                    be16(b@, off + 8 + 2 * t),
                ),
        decreases n_lat - j,
    {
        let p = off + 8 + 2 * j;
        let raw = b[p] as u16 * 256 + b[p + 1] as u16;
        elevations.push(to_i16(raw));
        j = j + 1;
    }
    Ok(DtedRecord { block_count, lon_count, lat_count, elevations })
}

/// The fault, if any, met when reading record `k`: a missing sentinel, when
/// the record's first byte is in the buffer, else a buffer that ends before
/// the record does.
pub open spec fn record_fault(b: Seq<u8>, h: DtedHeader, k: int) -> Option<Error> {
    let off = record_offset(h, k);
    if off < b.len() && b[off] != RECORD_SENTINEL {
        Some(Error::ParseError(ParseReason::BadSentinel, off as usize))
    } else if off + record_len(h.num_lat_lines as int) > b.len() {
        Some(Error::ParseError(ParseReason::Truncated, b.len() as usize))
    } else {
        None
    }
}

/// Record `k` is the first one that cannot be read.
pub open spec fn first_bad_record(b: Seq<u8>, h: DtedHeader, k: int) -> bool {
    &&& 0 <= k < h.num_lon_lines
    &&& record_fault(b, h, k) is Some
    &&& forall|t: int| 0 <= t < k ==> #[trigger] record_fault(b, h, t) is None
}

/// The first fault, if any, of the file in `b`, in reading order: the
/// header's, then a buffer that ends inside the two skipped blocks, then the
/// first record that cannot be read.
pub open spec fn file_error(b: Seq<u8>) -> Option<Error> {
    let h = header_of(b);
    if header_error(b) is Some {
        header_error(b)
    } else if b.len() < RECORDS_START {
        Some(Error::ParseError(ParseReason::Truncated, b.len() as usize))
    } else if exists|k: int| first_bad_record(b, h, k) {
        record_fault(b, h, choose|k: int| first_bad_record(b, h, k))
    } else {
        None
    }
}

/// `d` holds the grid that the file in `b` encodes.
pub open spec fn decodes_to(b: Seq<u8>, d: DtedData) -> bool {
    let h = header_of(b);
    &&& d.header == h
    &&& d.wf()
    &&& forall|k: int|
        0 <= k < h.num_lon_lines ==> record_fault(b, h, k) is None && record_matches(
            #[trigger] d.records@[k],
            b,
            record_offset(h, k),
            h.num_lat_lines as int,
        )
}

proof fn lemma_record_offset_bound(h: DtedHeader, k: int)
    requires
        0 <= k <= h.num_lon_lines,
    ensures
        RECORDS_START <= record_offset(h, k),
        record_offset(h, k) + record_len(h.num_lat_lines as int) <= RECORDS_START + 65536
            * 131082,
{
    let rl = record_len(h.num_lat_lines as int);
    assert(0 <= k * rl && k * rl + rl <= 65536 * 131082) by (nonlinear_arith)
        requires
            0 <= k <= 65535,
            0 <= rl <= 131082,
    ;
}

/// Two records that are both the first unreadable one are the same record.
proof fn lemma_first_bad_unique(b: Seq<u8>, h: DtedHeader, k: int, c: int)
    requires
        first_bad_record(b, h, k),
        first_bad_record(b, h, c),
    ensures
        k == c,
{
    if c < k {
        assert(record_fault(b, h, c) is None);
    } else if k < c {
        assert(record_fault(b, h, k) is None);
    }
}

/// Decodes a whole file: the header, the two metadata blocks that follow it
/// (skipped), then one record per longitude line, each checked as it is
/// reached. Bytes after the last record are ignored; record checksums are not
/// verified.
pub fn parse_dted_file(bytes: &[u8]) -> (r: Result<DtedData, Error>)
    ensures
        match r {
            Ok(d) => file_error(bytes@) is None && decodes_to(bytes@, d),
            Err(e) => file_error(bytes@) == Some(e),
        },
{
    let header = match parse_dted_header(bytes) {
        Ok(h) => h,
        Err(e) => {
            return Err(e);
        },
    };
    if bytes.len() < RECORDS_START {
        return Err(Error::ParseError(ParseReason::Truncated, bytes.len()));
    }
    let n_lon = header.num_lon_lines as usize;
    let n_lat = header.num_lat_lines as usize;
    let rec_len: u64 = 12 + 2 * n_lat as u64;
    let len = bytes.len() as u64;
    let ghost b = bytes@;
    let mut records: Vec<DtedRecord> = Vec::new();
    let mut k: usize = 0;
    while k < n_lon
        invariant
            k <= n_lon,
            header == header_of(b),
            header_error(b) is None,
            b == bytes@,
            len == b.len(),
            RECORDS_START <= b.len(),
            n_lon == header.num_lon_lines,
            n_lat == header.num_lat_lines,
            rec_len == record_len(n_lat as int),
            records@.len() == k,
            forall|t: int| 0 <= t < k ==> #[trigger] record_fault(b, header, t) is None,
            forall|t: int|
                0 <= t < k ==> record_matches(
                    #[trigger] records@[t],
                    b,
                    record_offset(header, t),
                    n_lat as int,
                ),
        decreases n_lon - k,
    {
        proof {
            lemma_record_offset_bound(header, k as int);
        }
        let off: u64 = RECORDS_START as u64 + k as u64 * rec_len;
        assert(off == record_offset(header, k as int));
        if off < len && bytes[off as usize] != RECORD_SENTINEL {
            proof {
                assert(first_bad_record(b, header, k as int));
                lemma_first_bad_unique(b, header, k as int, choose|c: int| first_bad_record(b, header, c));
            }
            return Err(Error::ParseError(ParseReason::BadSentinel, off as usize));
        }
        if off + rec_len > len {
            proof {
                assert(first_bad_record(b, header, k as int));
                lemma_first_bad_unique(b, header, k as int, choose|c: int| first_bad_record(b, header, c));
            }
            return Err(Error::ParseError(ParseReason::Truncated, bytes.len()));
        }
        match parse_record(bytes, off as usize, n_lat) {
            Ok(rec) => {
                records.push(rec);
            },
            Err(e) => {
                return Err(e);
            },
        }
        k = k + 1;
    }
    proof {
        assert forall|k: int| !first_bad_record(b, header, k) by {
            if 0 <= k < n_lon {
                assert(record_fault(b, header, k) is None);
            }
        }
    }
    let d = DtedData { header, records };
    proof {
        assert forall|i: int| 0 <= i < d.records@.len() implies #[trigger] d.records@[i].elevations@.len()
            == d.header.num_lat_lines by {
            assert(record_matches(d.records@[i], b, record_offset(header, i), n_lat as int));
        }
    }
    Ok(d)
}

/// A buffer whose first four bytes are not the header tag is refused, by the
/// header decoder and by the file decoder; when it is long enough to hold a
/// header, the fault reported is the tag at offset 0.
pub proof fn lemma_wrong_tag_rejected(b: Seq<u8>)
    requires
        b.len() >= 4,
        b.subrange(0, 4) != header_tag(),
    ensures
        header_error(b) is Some,
        file_error(b) is Some,
        b.len() >= 80 ==> header_error(b) == Some(Error::ParseError(ParseReason::WrongTag, 0))
            && file_error(b) == header_error(b),
{
}

/// A buffer with a sound header that ends before the last record does, and
/// whose records all open with the sentinel as far as the buffer goes, is
/// refused as truncated, with the offset where the data ran out; no shorter
/// grid is produced.
pub proof fn lemma_truncated_rejected(b: Seq<u8>)
    requires
        header_error(b) is None,
        b.len() < file_len(header_of(b)),
        forall|k: int|
            0 <= k < header_of(b).num_lon_lines && record_offset(header_of(b), k) < b.len()
                ==> b[#[trigger] record_offset(header_of(b), k)] == RECORD_SENTINEL,
    ensures
        file_error(b) == Some(Error::ParseError(ParseReason::Truncated, b.len() as usize)),
{
    let h = header_of(b);
    if b.len() >= RECORDS_START {
        let rl = record_len(h.num_lat_lines as int);
        let n = h.num_lon_lines as int;
        let rest = b.len() - RECORDS_START;
        let k0 = rest / rl;
        lemma_fundamental_div_mod(rest, rl);
        let r = rest % rl;
        assert(0 <= k0 < n) by (nonlinear_arith)
            requires
                rest == rl * k0 + r,
                0 <= r < rl,
                0 <= rest,
                rest < n * rl,
        ;
        assert(record_offset(h, k0) == RECORDS_START + rl * k0) by (nonlinear_arith)
            requires
                record_offset(h, k0) == RECORDS_START + k0 * rl,
        ;
        assert forall|t: int| 0 <= t < k0 implies #[trigger] record_fault(b, h, t) is None by {
            assert(record_offset(h, t) + rl <= record_offset(h, k0)) by (nonlinear_arith)
                requires
                    record_offset(h, t) == RECORDS_START + t * rl,
                    record_offset(h, k0) == RECORDS_START + k0 * rl,
                    t < k0,
                    0 <= rl,
            ;
        }
        assert(first_bad_record(b, h, k0));
        lemma_first_bad_unique(b, h, k0, choose|c: int| first_bad_record(b, h, c));
    }
}

} // verus!
