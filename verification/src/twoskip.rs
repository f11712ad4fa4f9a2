//! The twoskip decoder: header validation, record framing, skip-list
//! lookup and sequential scanning over an in-memory copy of the file.

use crate::model::{
    be_bytes, blank_seq, crc32_of, lemma_be_bytes_agree, lemma_be_bytes_bound, lemma_lex_lt_asym,
    lemma_lex_lt_total, lex_lt, magic_seq, round_up8,
};
use crate::text::{byte_text, dec_rep, fmt_bytes, fmt_dec, fmt_hex_l, fmt_hex_u, hex_rep_l,
    hex_rep_u};
use vstd::prelude::*;
use vstd::slice::slice_subrange;
use vstd::string::StringExecFns;

verus! {

/// Outcome of a three-way byte-string comparison.
enum Cmp {
    Lt,
    Eq,
    Gt,
}

/// Everything that can go wrong while decoding a twoskip file. Corrupt
/// or adversarial input is always reported as one of these values;
/// decoding never panics.
#[derive(Clone, Copy, Debug, PartialEq, Eq, Structural)]
pub enum Error {
    /// The buffer is too small for a declared structure, or a record's
    /// framed length would run past the end of the buffer.
    InvalidFileSize,
    /// The first 20 bytes are not the twoskip signature.
    InvalidHeaderMagic,
    /// The header's version field is not the single supported version.
    VersionMismatch,
    /// A stored checksum does not match the checksum of the bytes it
    /// covers (file header or record head).
    ChecksumMismatch,
    /// A record's level byte is above the maximum skip-list level.
    InvalidLevel,
    /// A record's tag byte is outside the recognized set.
    UnknownRecordType,
    /// A failure of the environment that supplied the file bytes.
    Environmental,
}

impl Error {
    /// A short human-readable name for the error.
    pub fn description(&self) -> (r: &'static str)
        ensures
            *self is InvalidFileSize ==> r@ == "invalid file size"@,
            *self is InvalidHeaderMagic ==> r@ == "invalid header magic"@,
            *self is VersionMismatch ==> r@ == "version mismatch"@,
            *self is ChecksumMismatch ==> r@ == "checksum mismatch"@,
            *self is InvalidLevel ==> r@ == "invalid level"@,
            *self is UnknownRecordType ==> r@ == "unknown record type"@,
            *self is Environmental ==> r@ == "environmental error"@,
    {
        match *self {
            Error::InvalidFileSize => "invalid file size",
            Error::InvalidHeaderMagic => "invalid header magic",
            Error::VersionMismatch => "version mismatch",
            Error::ChecksumMismatch => "checksum mismatch",
            Error::InvalidLevel => "invalid level",
            Error::UnknownRecordType => "unknown record type",
            Error::Environmental => "environmental error",
        }
    }
}

/// The four kinds of record the format defines, in tag-byte order:
/// `=` dummy (the sentinel head record), `+` data, `-` delete
/// (a tombstone), `$` commit.
#[derive(Clone, Copy, Debug, PartialEq, Eq, Structural)]
pub enum RecordType {
    Dummy,
    Record,
    Delete,
    Commit,
}

/// True for the four tag bytes the format recognizes.
pub open spec fn tag_known(t: u8) -> bool {
    t == 0x3du8 || t == 0x2bu8 || t == 0x2du8 || t == 0x24u8
}

/// The record kind a recognized tag byte denotes.
pub open spec fn tag_type(t: u8) -> RecordType {
    if t == 0x3du8 {
        RecordType::Dummy
    } else if t == 0x2bu8 {
        RecordType::Record
    } else if t == 0x2du8 {
        RecordType::Delete
    } else {
        RecordType::Commit
    }
}

impl RecordType {
    /// Maps a tag byte to its record kind; unrecognized bytes map to
    /// `None` rather than aborting.
    pub fn from_tag(t: u8) -> (r: Option<RecordType>)
        ensures
            r is Some <==> tag_known(t),
            tag_known(t) ==> r == Some(tag_type(t)),
    {
        match t {
            0x3du8 => Some(RecordType::Dummy),
            0x2bu8 => Some(RecordType::Record),
            0x2du8 => Some(RecordType::Delete),
            0x24u8 => Some(RecordType::Commit),
            _ => None,
        }
    }
}

/// Relies on `crc::Crc::<u32>::checksum` with the `CRC_32_ISO_HDLC`
/// algorithm: the CRC-32 of the given byte range, a function of those
/// bytes alone, named `crc32_of` in the model.
#[verifier::external_body]
fn crc32_range(bytes: &Vec<u8>, start: usize, end: usize) -> (r: u32)
    requires
        start <= end && end <= bytes.len(),
    ensures
        r == crc32_of(bytes@.subrange(start as int, end as int)),
{
    crc::Crc::<u32>::new(&crc::CRC_32_ISO_HDLC).checksum(&bytes[start..end])
}

/// The 2 bytes at `off`, as a big-endian unsigned integer.
fn read_be16(bytes: &Vec<u8>, off: usize) -> (r: u16)
    requires
        off + 2 <= bytes.len(),
    ensures
        r == be_bytes(bytes@, off as int, 2),
{
    let r: u16 = (bytes[off] as u16) * 256 + (bytes[off + 1] as u16);
    proof {
        assert(be_bytes(bytes@, off as int, 0) == 0);
        assert(be_bytes(bytes@, off as int, 1) == bytes@[off as int]);
        assert(be_bytes(bytes@, off as int, 2) == bytes@[off as int] * 256 + bytes@[off + 1]);
    }
    r
}

/// The 4 bytes at `off`, as a big-endian unsigned integer.
fn read_be32(bytes: &Vec<u8>, off: usize) -> (r: u32)
    requires
        off + 4 <= bytes.len(),
    ensures
        r == be_bytes(bytes@, off as int, 4),
{
    let mut r: u32 = bytes[off] as u32;
    assert(r == be_bytes(bytes@, off as int, 1) && r < 0x100) by {
        assert(be_bytes(bytes@, off as int, 0) == 0);
    }
    r = r * 256 + (bytes[off + 1] as u32);
    assert(r == be_bytes(bytes@, off as int, 2) && r < 0x10000);
    r = r * 256 + (bytes[off + 2] as u32);
    assert(r == be_bytes(bytes@, off as int, 3) && r < 0x1000000);
    r = r * 256 + (bytes[off + 3] as u32);
    assert(r == be_bytes(bytes@, off as int, 4));
    r
}

/// The 8 bytes at `off`, as a big-endian unsigned integer.
fn read_be64(bytes: &Vec<u8>, off: usize) -> (r: u64)
    requires
        off + 8 <= bytes.len(),
    ensures
        r == be_bytes(bytes@, off as int, 8),
{
    let mut r: u64 = bytes[off] as u64;
    assert(r == be_bytes(bytes@, off as int, 1) && r < 0x100) by {
        assert(be_bytes(bytes@, off as int, 0) == 0);
    }
    r = r * 256 + (bytes[off + 1] as u64);
    assert(r == be_bytes(bytes@, off as int, 2) && r < 0x10000);
    r = r * 256 + (bytes[off + 2] as u64);
    assert(r == be_bytes(bytes@, off as int, 3) && r < 0x1000000);
    r = r * 256 + (bytes[off + 3] as u64);
    assert(r == be_bytes(bytes@, off as int, 4) && r < 0x100000000);
    r = r * 256 + (bytes[off + 4] as u64);
    assert(r == be_bytes(bytes@, off as int, 5) && r < 0x10000000000);
    r = r * 256 + (bytes[off + 5] as u64);
    assert(r == be_bytes(bytes@, off as int, 6) && r < 0x1000000000000);
    r = r * 256 + (bytes[off + 6] as u64);
    assert(r == be_bytes(bytes@, off as int, 7) && r < 0x100000000000000);
    r = r * 256 + (bytes[off + 7] as u64);
    assert(r == be_bytes(bytes@, off as int, 8));
    r
}

/// Three-way comparison of two byte strings: unsigned byte-wise
/// lexicographic order, a shorter string ordered before any extension.
fn compare_bytes(a: &[u8], b: &[u8]) -> (r: Cmp)
    ensures
        (r is Eq <==> a@ == b@),
        (r is Lt <==> lex_lt(a@, b@)),
        (r is Gt <==> (a@ != b@ && !lex_lt(a@, b@))),
{
    let a_len: usize = a.len();
    let b_len: usize = b.len();
    let mut i: usize = 0;
    proof {
        assert(a@.skip(0) =~= a@);
        assert(b@.skip(0) =~= b@);
    }
    while i < a_len && i < b_len
        invariant
            a_len == a@.len(),
            b_len == b@.len(),
            i <= a_len,
            i <= b_len,
            forall|j: int| 0 <= j < i ==> a@[j] == b@[j],
            lex_lt(a@, b@) == lex_lt(a@.skip(i as int), b@.skip(i as int)),
        decreases a_len - i,
    {
        let x = a[i];
        let y = b[i];
        proof {
            let xs = a@.skip(i as int);
            let ys = b@.skip(i as int);
            assert(xs.len() > 0 && ys.len() > 0);
            assert(xs[0] == a@[i as int] && ys[0] == b@[i as int]);
            if x == y {
                assert(xs.drop_first() =~= a@.skip(i as int + 1));
                assert(ys.drop_first() =~= b@.skip(i as int + 1));
                assert(lex_lt(xs, ys) == lex_lt(xs.drop_first(), ys.drop_first()));
            }
        }
        if x < y {
            assert(lex_lt(a@.skip(i as int), b@.skip(i as int)));
            assert(a@[i as int] != b@[i as int]);
            return Cmp::Lt;
        }
        if x > y {
            assert(!lex_lt(a@.skip(i as int), b@.skip(i as int)));
            assert(a@[i as int] != b@[i as int]);
            return Cmp::Gt;
        }
        i = i + 1;
    }
    if a_len == b_len {
        assert(a@ =~= b@);
        proof {
            let xs = a@.skip(i as int);
            let ys = b@.skip(i as int);
            assert(xs.len() == 0 && ys.len() == 0);
            assert(!lex_lt(xs, ys));
        }
        Cmp::Eq
    } else if a_len < b_len {
        proof {
            let xs = a@.skip(i as int);
            let ys = b@.skip(i as int);
            assert(xs.len() == 0 && ys.len() > 0);
            assert(lex_lt(xs, ys));
            assert(a@.len() != b@.len());
        }
        Cmp::Lt
    } else {
        proof {
            let ys = b@.skip(i as int);
            assert(ys.len() == 0);
            assert(!lex_lt(a@.skip(i as int), ys));
            assert(a@.len() != b@.len());
        }
        Cmp::Gt
    }
}

/// Byte `i` of the fixed 20-byte file signature.
fn magic_byte(i: usize) -> (r: u8)
    requires
        i < 20,
    ensures
        r == magic_seq()[i as int],
{
    match i {
        0 => 0xa1,
        1 => 0x02,
        2 => 0x8b,
        3 => 0x0d,
        4 => 0x74,
        5 => 0x77,
        6 => 0x6f,
        7 => 0x73,
        8 => 0x6b,
        9 => 0x69,
        10 => 0x70,
        11 => 0x20,
        12 => 0x66,
        13 => 0x69,
        14 => 0x6c,
        15 => 0x65,
        _ => 0x00,
    }
}

/// The fixed 64-byte file header, decoded and validated.
#[derive(Clone, Copy, Debug, PartialEq, Eq, Structural)]
pub struct Header {
    /// Format version; the only supported value is 1.
    pub version: u32,
    /// Reserved flag bits; not interpreted by this decoder.
    pub flags: u32,
    /// Monotonic write-generation counter; read but not interpreted.
    pub generation: u64,
    /// Number of records the writer recorded.
    pub num_records: u64,
    /// Size the file would have after a compaction; informational.
    pub repack_size: u64,
    /// Logical end-of-data offset: bytes beyond it are stale space.
    pub current_size: u64,
}

/// True when the first 20 bytes of the file carry the twoskip signature.
pub open spec fn header_magic_ok(s: Seq<u8>) -> bool {
    s.subrange(0, 20) == magic_seq()
}

/// The header's version field.
pub open spec fn header_version(s: Seq<u8>) -> int {
    be_bytes(s, 20, 4)
}

/// True when the checksum stored at offset 60 matches the CRC-32 of the
/// header bytes it covers, `[0, 60)`.
pub open spec fn header_crc_ok(s: Seq<u8>) -> bool {
    be_bytes(s, 60, 4) == crc32_of(s.subrange(0, 60))
}

/// Why decoding the file header fails, or `None` when it succeeds: the
/// buffer must hold the full 64 bytes, carry the signature, state
/// version 1, and have a matching header checksum — checked in that
/// order.
pub open spec fn header_err(s: Seq<u8>) -> Option<Error> {
    if s.len() < 64 {
        Some(Error::InvalidFileSize)
    } else if !header_magic_ok(s) {
        Some(Error::InvalidHeaderMagic)
    } else if header_version(s) != 1 {
        Some(Error::VersionMismatch)
    } else if !header_crc_ok(s) {
        Some(Error::ChecksumMismatch)
    } else {
        None
    }
}

/// The header a well-formed file declares: each field read big-endian
/// at its fixed offset.
pub open spec fn spec_header(s: Seq<u8>) -> Header {
    Header {
        version: be_bytes(s, 20, 4) as u32,
        flags: 0,
        generation: be_bytes(s, 24, 8) as u64,
        num_records: be_bytes(s, 32, 8) as u64,
        repack_size: be_bytes(s, 40, 8) as u64,
        current_size: be_bytes(s, 48, 8) as u64,
    }
}

/// Decodes and validates the 64-byte header at the start of the buffer.
fn read_header(bytes: &Vec<u8>) -> (r: Result<Header, Error>)
    ensures
        match r {
            Ok(h) => header_err(bytes@) is None && h == spec_header(bytes@),
            Err(e) => header_err(bytes@) == Some(e),
        },
{
    if bytes.len() < 64 {
        return Err(Error::InvalidFileSize);
    }
    let mut i: usize = 0;
    while i < 20
        invariant
            i <= 20,
            bytes@.len() >= 64,
            forall|j: int| 0 <= j < i ==> bytes@[j] == magic_seq()[j],
        decreases 20 - i,
    {
        if bytes[i] != magic_byte(i) {
            proof {
                assert(bytes@.subrange(0, 20) != magic_seq()) by {
                    assert(bytes@.subrange(0, 20)[i as int] == bytes@[i as int]);
                }
            }
            return Err(Error::InvalidHeaderMagic);
        }
        i = i + 1;
    }
    assert(header_magic_ok(bytes@)) by {
        assert(bytes@.subrange(0, 20) =~= magic_seq());
    }

    let version = read_be32(bytes, 20);
    if version != 1 {
        return Err(Error::VersionMismatch);
    }

    let generation = read_be64(bytes, 24);
    let num_records = read_be64(bytes, 32);
    let repack_size = read_be64(bytes, 40);
    let current_size = read_be64(bytes, 48);

    let stored_crc = read_be32(bytes, 60);
    if stored_crc != crc32_range(bytes, 0, 60) {
        return Err(Error::ChecksumMismatch);
    }

    Ok(
        Header {
            version,
            flags: 0,
            generation,
            num_records,
            repack_size,
            current_size,
        },
    )
}

/// Tag byte of a record that starts at `off`.
pub open spec fn rec_tag(s: Seq<u8>, off: int) -> u8 {
    s[off]
}

/// Level byte of a record at `off`: the count of forward pointers,
/// minus one.
pub open spec fn rec_level(s: Seq<u8>, off: int) -> u8 {
    s[off + 1]
}

/// True when the compact 2-byte key-length field holds the overflow
/// sentinel, so the real key length follows as 8 extra bytes.
pub open spec fn rec_key_ext(s: Seq<u8>, off: int) -> bool {
    be_bytes(s, off + 2, 2) == 0xffff
}

/// Length of the record's key payload in bytes.
pub open spec fn rec_key_len(s: Seq<u8>, off: int) -> int {
    if rec_key_ext(s, off) {
        be_bytes(s, off + 4, 8)
    } else {
        be_bytes(s, off + 2, 2)
    }
}

/// Offset of the compact 4-byte value-length field, which sits after
/// the key-length encoding.
pub open spec fn rec_val_field_off(s: Seq<u8>, off: int) -> int {
    if rec_key_ext(s, off) {
        off + 12
    } else {
        off + 4
    }
}

/// True when the compact 4-byte value-length field holds the overflow
/// sentinel, so the real value length follows as 8 extra bytes.
pub open spec fn rec_val_ext(s: Seq<u8>, off: int) -> bool {
    be_bytes(s, rec_val_field_off(s, off), 4) == 0xffffffff
}

/// Length of the record's value payload in bytes.
pub open spec fn rec_val_len(s: Seq<u8>, off: int) -> int {
    if rec_val_ext(s, off) {
        be_bytes(s, rec_val_field_off(s, off) + 4, 8)
    } else {
        be_bytes(s, rec_val_field_off(s, off), 4)
    }
}

/// Byte count of the fixed fields: tag, level and the two length
/// encodings — 8 bytes, plus 8 for each length in extended form.
pub open spec fn rec_header_len(s: Seq<u8>, off: int) -> int {
    8 + (if rec_key_ext(s, off) {
        8int
    } else {
        0int
    }) + (if rec_val_ext(s, off) {
        8int
    } else {
        0int
    })
}

/// Offset of the forward-pointer table.
pub open spec fn rec_ptr_off(s: Seq<u8>, off: int) -> int {
    off + rec_header_len(s, off)
}

/// Forward pointer number `i` (0-based, `i <= level`).
pub open spec fn rec_next_loc(s: Seq<u8>, off: int, i: int) -> int {
    be_bytes(s, rec_ptr_off(s, off) + 8 * i, 8)
}

/// Offset of the head checksum, just past the pointer table.
pub open spec fn rec_crc_off(s: Seq<u8>, off: int) -> int {
    rec_ptr_off(s, off) + 8 * (rec_level(s, off) + 1)
}

/// True when the stored head checksum matches the CRC-32 of every
/// framing byte before it: tag, level, lengths and pointer table.
pub open spec fn rec_head_crc_ok(s: Seq<u8>, off: int) -> bool {
    be_bytes(s, rec_crc_off(s, off), 4) == crc32_of(s.subrange(off, rec_crc_off(s, off)))
}

/// The stored tail checksum; kept on the record but not validated.
pub open spec fn rec_tail_crc(s: Seq<u8>, off: int) -> int {
    be_bytes(s, rec_crc_off(s, off) + 4, 4)
}

/// Offset of the key payload, just past the two checksums.
pub open spec fn rec_key_off(s: Seq<u8>, off: int) -> int {
    rec_crc_off(s, off) + 8
}

/// Whole framed size of the record: fixed fields, pointer table, both
/// checksums and the payload padded up to a multiple of 8 bytes.
pub open spec fn rec_total_len(s: Seq<u8>, off: int) -> int {
    rec_header_len(s, off) + 8 * (rec_level(s, off) + 1) + 8 + round_up8(
        rec_key_len(s, off) + rec_val_len(s, off),
    )
}

/// The record's key payload bytes.
pub open spec fn rec_key_seq(s: Seq<u8>, off: int) -> Seq<u8> {
    s.subrange(rec_key_off(s, off), rec_key_off(s, off) + rec_key_len(s, off))
}

/// The record's value payload bytes.
pub open spec fn rec_val_seq(s: Seq<u8>, off: int) -> Seq<u8> {
    s.subrange(
        rec_key_off(s, off) + rec_key_len(s, off),
        rec_key_off(s, off) + rec_key_len(s, off) + rec_val_len(s, off),
    )
}

/// Why the structural part of decoding a record at `off` fails, or
/// `None` when the framing is sound. Mirrors the decoder: each field
/// is bounds-checked as the cursor reaches it, and the whole framed
/// length is checked against the buffer before the pointer table is
/// touched. The head checksum is not examined here.
pub open spec fn frame_err(s: Seq<u8>, off: int) -> Option<Error> {
    let n = s.len() as int;
    if off + 1 > n {
        Some(Error::InvalidFileSize)
    } else if !tag_known(rec_tag(s, off)) {
        Some(Error::UnknownRecordType)
    } else if off + 2 > n {
        Some(Error::InvalidFileSize)
    } else if rec_level(s, off) > 31 {
        Some(Error::InvalidLevel)
    } else if off + 4 > n {
        Some(Error::InvalidFileSize)
    } else if rec_key_ext(s, off) && off + 12 > n {
        Some(Error::InvalidFileSize)
    } else if rec_val_field_off(s, off) + 4 > n {
        Some(Error::InvalidFileSize)
    } else if rec_val_ext(s, off) && rec_val_field_off(s, off) + 12 > n {
        Some(Error::InvalidFileSize)
    } else if off + rec_total_len(s, off) > n {
        Some(Error::InvalidFileSize)
    } else {
        None
    }
}

/// Why decoding a record at `off` fails, or `None` when it succeeds:
/// the framing must be structurally sound and the head checksum must
/// match, checked in that order.
pub open spec fn decode_err(s: Seq<u8>, off: int) -> Option<Error> {
    if frame_err(s, off) is Some {
        frame_err(s, off)
    } else if !rec_head_crc_ok(s, off) {
        Some(Error::ChecksumMismatch)
    } else {
        None
    }
}

/// True when a record decodes successfully at `off`.
pub open spec fn rec_valid(s: Seq<u8>, off: int) -> bool {
    decode_err(s, off) is None
}

/// True when the 8 bytes at `off` are the blank-padding sentinel.
pub open spec fn is_blank(s: Seq<u8>, off: int) -> bool {
    off + 8 <= s.len() && s.subrange(off, off + 8) == blank_seq()
}

/// First offset at or after `off` (stepping 8 bytes at a time) that is
/// not a blank-padding sentinel, stopping at the first offset that
/// reaches or passes `end`.
pub open spec fn skip_blanks(s: Seq<u8>, off: int, end: int) -> int
    decreases (if end - off >= 0 {
        end - off
    } else {
        0int
    }),
{
    if off >= end {
        off
    } else if is_blank(s, off) {
        skip_blanks(s, off + 8, end)
    } else {
        off
    }
}

/// Forward pointers `i` to `j` (exclusive) of the record at `off`,
/// rendered as 8-digit uppercase hex and joined by single spaces.
pub open spec fn ptr_list(s: Seq<u8>, off: int, i: int, j: int) -> Seq<char>
    decreases (if j - i >= 0 {
        j - i
    } else {
        0int
    }),
{
    if i >= j {
        Seq::empty()
    } else {
        let h = hex_rep_u(rec_next_loc(s, off, i), 8);
        if i + 1 >= j {
            h
        } else {
            h + " "@ + ptr_list(s, off, i + 1, j)
        }
    }
}

/// Forward pointers `i` to `j` (exclusive) grouped eight per line,
/// lines joined by a newline and tab.
pub open spec fn ptr_chunks(s: Seq<u8>, off: int, i: int, j: int) -> Seq<char>
    decreases (if j - i >= 0 {
        j - i
    } else {
        0int
    }),
{
    if i >= j {
        Seq::empty()
    } else {
        let e = if i + 8 < j {
            i + 8
        } else {
            j
        };
        let line = ptr_list(s, off, i, e);
        if e >= j {
            line
        } else {
            line + " \n\t"@ + ptr_chunks(s, off, e, j)
        }
    }
}

/// The pointer-table block of a data line: the level-0 pointer, then
/// the higher-level pointers eight per line.
pub open spec fn spec_next_loc_text(s: Seq<u8>, off: int) -> Seq<char> {
    hex_rep_u(rec_next_loc(s, off, 0), 8) + " \n\t"@ + ptr_chunks(s, off, 1, rec_level(s, off) + 1)
        + " "@
}

/// One data line of the dump: kind name, payload lengths, level, key
/// and the pointer table.
pub open spec fn spec_data_line(s: Seq<u8>, off: int, name: Seq<char>) -> Seq<char> {
    name + " kl="@ + dec_rep(rec_key_len(s, off)) + " dl="@ + dec_rep(rec_val_len(s, off))
        + " lvl="@ + dec_rep(rec_level(s, off) as int) + " ("@ + byte_text(rec_key_seq(s, off))
        + ")\n\t"@ + spec_next_loc_text(s, off)
}

/// The dump text of one record, by its kind.
pub open spec fn spec_record_dump(s: Seq<u8>, off: int) -> Seq<char> {
    match tag_type(rec_tag(s, off)) {
        RecordType::Dummy => spec_data_line(s, off, "DUMMY"@),
        RecordType::Record => spec_data_line(s, off, "RECORD"@),
        RecordType::Delete => "DELETE ptr="@ + hex_rep_l(rec_next_loc(s, off, 0), 8),
        RecordType::Commit => "COMMIT start="@ + hex_rep_l(rec_next_loc(s, off, 0), 8),
    }
}

/// The dump's header line.
pub open spec fn spec_header_line(h: Header) -> Seq<char> {
    "HEADER: v="@ + dec_rep(h.version as int) + " fl="@ + hex_rep_l(h.flags as int, 1) + " num="@
        + dec_rep(h.num_records as int) + " sz=("@ + hex_rep_u(h.current_size as int, 8) + "/"@
        + hex_rep_u(h.repack_size as int, 8) + ")"@
}

/// The record lines of the dump from `off` to the logical end `end`,
/// one line per record or blank-padding region, each ended by a
/// newline; or the error of the first record that fails to decode.
/// The walk advances by at least 8 bytes a step, so it always ends.
pub open spec fn spec_dump_body(s: Seq<u8>, off: int, end: int) -> Result<Seq<char>, Error>
    decreases (if end - off >= 0 {
        end - off
    } else {
        0int
    }),
{
    if off >= end {
        Ok(Seq::empty())
    } else if is_blank(s, off) {
        match spec_dump_body(s, off + 8, end) {
            Ok(t) => Ok(hex_rep_u(off, 8) + " BLANK\n"@ + t),
            Err(e) => Err(e),
        }
    } else if decode_err(s, off) is Some {
        Err(decode_err(s, off)->Some_0)
    } else {
        let step = if rec_total_len(s, off) >= 8 {
            rec_total_len(s, off)
        } else {
            8
        };
        match spec_dump_body(s, off + step, end) {
            Ok(t) => Ok(hex_rep_u(off, 8) + " "@ + spec_record_dump(s, off) + "\n"@ + t),
            Err(e) => Err(e),
        }
    }
}

/// State of the skip-list traversal: walking at `level` from the
/// record at `roff`, or finished with one of three outcomes.
pub enum LookupState {
    /// Still walking: current record offset and current level.
    Running { roff: int, level: int },
    /// The key is not in the list.
    NotFound,
    /// The record at `off` carries exactly the key searched for.
    Found { off: int },
    /// A record decode failed along the way.
    Failed { err: Error },
}

/// The level at which the downward scan of `lookup_step` stops: the
/// highest level not above `level` whose forward pointer is non-zero,
/// or 0 when every examined pointer above level 0 is zero. The pointer
/// at level 0 itself is never examined.
pub open spec fn drop_level(s: Seq<u8>, roff: int, level: int) -> int
    decreases level,
{
    if level <= 0 {
        0
    } else if rec_next_loc(s, roff, level) != 0 {
        level
    } else {
        drop_level(s, roff, level - 1)
    }
}

/// One step of the skip-list traversal, from §4.3 of the format's
/// lookup algorithm: scan down to a usable forward pointer, decode the
/// record it names, then compare keys — equal finds the record, less
/// descends a level (absent if that reaches 0), greater advances and
/// resets the level to the advanced-to record's own level.
#[verifier::opaque]
pub open spec fn lookup_step(s: Seq<u8>, key: Seq<u8>, st: LookupState) -> LookupState {
    match st {
        LookupState::Running { roff, level } => {
            let lvl = drop_level(s, roff, level);
            if lvl == 0 {
                LookupState::NotFound
            } else {
                let ptr = rec_next_loc(s, roff, lvl);
                if decode_err(s, ptr) is Some {
                    LookupState::Failed { err: decode_err(s, ptr)->Some_0 }
                } else {
                    let nkey = rec_key_seq(s, ptr);
                    if key == nkey {
                        LookupState::Found { off: ptr }
                    } else if lex_lt(key, nkey) {
                        if lvl - 1 == 0 {
                            LookupState::NotFound
                        } else {
                            LookupState::Running { roff, level: lvl - 1 }
                        }
                    } else {
                        LookupState::Running { roff: ptr, level: rec_level(s, ptr) as int }
                    }
                }
            }
        },
        _ => st,
    }
}

/// Where the traversal begins: the sentinel head record at the first
/// data offset, at its own level; or the failure of decoding it.
pub open spec fn lookup_init(s: Seq<u8>) -> LookupState {
    if decode_err(s, 64) is Some {
        LookupState::Failed { err: decode_err(s, 64)->Some_0 }
    } else {
        LookupState::Running { roff: 64, level: rec_level(s, 64) as int }
    }
}

/// The traversal state `n` steps after `st`.
pub open spec fn lookup_run(s: Seq<u8>, key: Seq<u8>, st: LookupState, n: nat) -> LookupState
    decreases n,
{
    if n == 0 {
        st
    } else {
        lookup_step(s, key, lookup_run(s, key, st, (n - 1) as nat))
    }
}

/// The traversal state after `n` steps from the initial state.
pub open spec fn lookup_iter(s: Seq<u8>, key: Seq<u8>, n: nat) -> LookupState {
    lookup_run(s, key, lookup_init(s), n)
}

/// More steps than the traversal has distinct states: a run this long
/// has repeated a state, so it can never finish.
pub open spec fn lookup_fuel(s: Seq<u8>) -> nat {
    33 * s.len() + 40
}

/// What the downward scan lands on: a level within bounds whose
/// pointer is non-zero, or level 0 — and then the level-1 pointer was
/// zero too (when the scan started at level 1 or above).
proof fn lemma_drop_level_props(s: Seq<u8>, roff: int, level: int)
    requires
        level >= 0,
    ensures
        0 <= drop_level(s, roff, level) <= level,
        drop_level(s, roff, level) >= 1 ==> rec_next_loc(s, roff, drop_level(s, roff, level))
            != 0,
        drop_level(s, roff, level) == 0 && level >= 1 ==> rec_next_loc(s, roff, 1) == 0,
    decreases level,
{
    if level >= 1 && rec_next_loc(s, roff, level) == 0 {
        lemma_drop_level_props(s, roff, level - 1);
    }
}

/// Stepping once and then running `n` steps is running `n + 1` steps.
#[verifier::rlimit(100)]
proof fn lemma_run_shift(s: Seq<u8>, key: Seq<u8>, st: LookupState, n: nat)
    ensures
        lookup_run(s, key, lookup_step(s, key, st), n) == lookup_run(s, key, st, n + 1),
    decreases n,
{
    if n == 0 {
        assert(lookup_run(s, key, st, 0) == st);
        assert(lookup_run(s, key, st, 1) == lookup_step(s, key, lookup_run(s, key, st, 0)));
    } else {
        lemma_run_shift(s, key, st, (n - 1) as nat);
        assert(lookup_run(s, key, lookup_step(s, key, st), n) == lookup_step(
            s,
            key,
            lookup_run(s, key, lookup_step(s, key, st), (n - 1) as nat),
        ));
        assert(lookup_run(s, key, st, n + 1) == lookup_step(s, key, lookup_run(s, key, st, n)));
    }
}

/// A finished traversal stays finished: every terminal state is fixed
/// by further steps.
pub proof fn lemma_terminal_stable(s: Seq<u8>, key: Seq<u8>, n: nat, m: nat)
    requires
        !(lookup_iter(s, key, n) is Running),
        n <= m,
    ensures
        lookup_iter(s, key, m) == lookup_iter(s, key, n),
    decreases m - n,
{
    reveal(lookup_step);
    if m > n {
        lemma_terminal_stable(s, key, n, (m - 1) as nat);
        assert(lookup_iter(s, key, m) == lookup_step(s, key, lookup_run(
            s,
            key,
            lookup_init(s),
            (m - 1) as nat,
        )));
        assert(lookup_iter(s, key, m) == lookup_step(s, key, lookup_iter(s, key, (m - 1) as nat)));
    }
}

/// A well-formed persisted skip list, given as the sequence `ch` of
/// its record offsets in list order, the sentinel first: every entry
/// decodes, has at least one forward-pointer level above 0, and its
/// level-1 pointer names the next entry (zero at the last); the keys
/// of the entries after the sentinel are strictly ascending; and every
/// non-zero higher-level pointer leads forward to another entry.
pub open spec fn chain_wf(s: Seq<u8>, ch: Seq<int>) -> bool {
    &&& ch.len() >= 1
    &&& ch[0] == 64
    &&& (forall|i: int|
        0 <= i < ch.len() ==> {
            &&& rec_valid(s, #[trigger] ch[i])
            &&& ch[i] >= 64
            &&& rec_level(s, ch[i]) >= 1
            &&& rec_next_loc(s, ch[i], 1) == (if i + 1 < ch.len() {
                ch[i + 1]
            } else {
                0
            })
        })
    &&& (forall|i: int, j: int|
        1 <= i < j < ch.len() ==> lex_lt(
            rec_key_seq(s, #[trigger] ch[i]),
            rec_key_seq(s, #[trigger] ch[j]),
        ))
    &&& (forall|i: int, l: int|
        0 <= i < ch.len() && 2 <= l <= rec_level(s, ch[i]) && #[trigger] rec_next_loc(
            s,
            ch[i],
            l,
        ) != 0 ==> exists|j: int| i < j < ch.len() && ch[j] == rec_next_loc(s, ch[i], l))
}

/// From a walk state on a well-formed chain, searching the key of an
/// entry that lies strictly ahead, the traversal reaches that entry.
#[verifier::rlimit(100)]
proof fn lemma_lookup_from(s: Seq<u8>, ch: Seq<int>, key: Seq<u8>, ci: int, level: int, t: int)
    requires
        chain_wf(s, ch),
        0 <= ci < ch.len(),
        1 <= t < ch.len(),
        rec_key_seq(s, ch[t]) == key,
        1 <= level <= rec_level(s, ch[ci]),
        ci == 0 || lex_lt(rec_key_seq(s, ch[ci]), key),
    ensures
        exists|n: nat|
            #[trigger] lookup_run(s, key, LookupState::Running { roff: ch[ci], level }, n)
                == (LookupState::Found { off: ch[t] }),
    decreases ch.len() - ci, level,
{
    reveal(lookup_step);
    let st = LookupState::Running { roff: ch[ci], level };
    let roff = ch[ci];
    lemma_drop_level_props(s, roff, level);
    let l = drop_level(s, roff, level);

    // the target lies strictly ahead of the current entry
    if ci >= 1 {
        if t < ci {
            lemma_lex_lt_asym(rec_key_seq(s, ch[t]), rec_key_seq(s, ch[ci]));
        }
        if t == ci {
            lemma_lex_lt_asym(rec_key_seq(s, ch[ci]), key);
        }
    }
    assert(ci < t);

    // the level-1 pointer names the next entry, so the scan cannot
    // bottom out at level 0
    assert(rec_next_loc(s, roff, 1) == ch[ci + 1]);
    assert(l >= 1);
    let p = rec_next_loc(s, roff, l);
    assert(p != 0);
    let j = if l == 1 {
        ci + 1
    } else {
        choose|j: int| ci < j < ch.len() && ch[j] == p
    };
    assert(ci < j < ch.len() && ch[j] == p);
    let nk = rec_key_seq(s, ch[j]);
    assert(rec_valid(s, p));

    if key == nk {
        // the chain's keys are strictly sorted, so the entry found is
        // the target entry itself
        if j < t {
            lemma_lex_lt_asym(nk, rec_key_seq(s, ch[t]));
        }
        if t < j {
            lemma_lex_lt_asym(rec_key_seq(s, ch[t]), nk);
        }
        assert(j == t);
        assert(lookup_step(s, key, st) == (LookupState::Found { off: ch[t] }));
        assert(lookup_run(s, key, st, 0) == st);
        assert(lookup_run(s, key, st, 1) == lookup_step(s, key, lookup_run(s, key, st, 0)));
    } else if lex_lt(key, nk) {
        // impossible at level 1: the next entry's key is not past the
        // target, since the chain is sorted and the target is ahead
        if l == 1 {
            if j < t {
                lemma_lex_lt_asym(nk, rec_key_seq(s, ch[t]));
            }
            assert(false);
        }
        assert(lookup_step(s, key, st) == (LookupState::Running { roff, level: l - 1 }));
        lemma_lookup_from(s, ch, key, ci, l - 1, t);
        let n0 = choose|n: nat|
            #[trigger] lookup_run(s, key, LookupState::Running { roff, level: l - 1 }, n)
                == (LookupState::Found { off: ch[t] });
        lemma_run_shift(s, key, st, n0);
        assert(lookup_run(s, key, st, n0 + 1) == (LookupState::Found { off: ch[t] }));
    } else {
        lemma_lex_lt_total(key, nk);
        assert(lookup_step(s, key, st) == (LookupState::Running {
            roff: p,
            level: rec_level(s, p) as int,
        }));
        lemma_lookup_from(s, ch, key, j, rec_level(s, ch[j]) as int, t);
        let n0 = choose|n: nat|
            #[trigger] lookup_run(
                s,
                key,
                LookupState::Running { roff: ch[j], level: rec_level(s, ch[j]) as int },
                n,
            ) == (LookupState::Found { off: ch[t] });
        lemma_run_shift(s, key, st, n0);
        assert(lookup_run(s, key, st, n0 + 1) == (LookupState::Found { off: ch[t] }));
    }
}

/// Lookup is complete: on a well-formed skip list, the traversal for
/// the key of any entry after the sentinel reaches `Found` at exactly
/// that entry, so it returns that entry's value.
pub proof fn lemma_lookup_finds_present_key(s: Seq<u8>, ch: Seq<int>, key: Seq<u8>, t: int)
    requires
        chain_wf(s, ch),
        1 <= t < ch.len(),
        rec_key_seq(s, ch[t]) == key,
    ensures
        exists|n: nat| #[trigger] lookup_iter(s, key, n) == (LookupState::Found { off: ch[t] }),
{
    assert(rec_valid(s, 64));
    assert(lookup_init(s) == (LookupState::Running { roff: 64, level: rec_level(s, 64) as int }));
    lemma_lookup_from(s, ch, key, 0, rec_level(s, 64) as int, t);
    let n0 = choose|n: nat|
        #[trigger] lookup_run(
            s,
            key,
            LookupState::Running { roff: ch[0], level: rec_level(s, ch[0]) as int },
            n,
        ) == (LookupState::Found { off: ch[t] });
    assert(lookup_iter(s, key, n0) == (LookupState::Found { off: ch[t] }));
}

/// From a walk state on a well-formed chain, searching a key that no
/// entry after the sentinel carries, the traversal reaches `NotFound`.
#[verifier::rlimit(100)]
proof fn lemma_lookup_from_absent(s: Seq<u8>, ch: Seq<int>, key: Seq<u8>, ci: int, level: int)
    requires
        chain_wf(s, ch),
        0 <= ci < ch.len(),
        forall|i: int| 1 <= i < ch.len() ==> rec_key_seq(s, #[trigger] ch[i]) != key,
        1 <= level <= rec_level(s, ch[ci]),
        ci == 0 || lex_lt(rec_key_seq(s, ch[ci]), key),
    ensures
        exists|n: nat|
            #[trigger] lookup_run(s, key, LookupState::Running { roff: ch[ci], level }, n)
                == LookupState::NotFound,
    decreases ch.len() - ci, level, 1int,
{
    reveal(lookup_step);
    let st = LookupState::Running { roff: ch[ci], level };
    let roff = ch[ci];
    lemma_drop_level_props(s, roff, level);
    let l = drop_level(s, roff, level);

    if l == 0 {
        assert(lookup_step(s, key, st) == LookupState::NotFound);
        assert(lookup_run(s, key, st, 0) == st);
        assert(lookup_run(s, key, st, 1) == lookup_step(s, key, lookup_run(s, key, st, 0)));
    } else {
        lemma_lookup_from_absent_walking(s, ch, key, ci, level);
    }
}

/// The walking case of `lemma_lookup_from_absent`: the downward scan
/// found a usable pointer.
#[verifier::rlimit(100)]
proof fn lemma_lookup_from_absent_walking(
    s: Seq<u8>,
    ch: Seq<int>,
    key: Seq<u8>,
    ci: int,
    level: int,
)
    requires
        chain_wf(s, ch),
        0 <= ci < ch.len(),
        forall|i: int| 1 <= i < ch.len() ==> rec_key_seq(s, #[trigger] ch[i]) != key,
        1 <= level <= rec_level(s, ch[ci]),
        ci == 0 || lex_lt(rec_key_seq(s, ch[ci]), key),
        drop_level(s, ch[ci], level) >= 1,
    ensures
        exists|n: nat|
            #[trigger] lookup_run(s, key, LookupState::Running { roff: ch[ci], level }, n)
                == LookupState::NotFound,
    decreases ch.len() - ci, level, 0int,
{
    reveal(lookup_step);
    let st = LookupState::Running { roff: ch[ci], level };
    let roff = ch[ci];
    lemma_drop_level_props(s, roff, level);
    let l = drop_level(s, roff, level);
    let p = rec_next_loc(s, roff, l);
    assert(p != 0);
    let j = if l == 1 {
        ci + 1
    } else {
        choose|j: int| ci < j < ch.len() && ch[j] == p
    };
    if l == 1 {
        assert(rec_next_loc(s, roff, 1) == (if ci + 1 < ch.len() {
            ch[ci + 1]
        } else {
            0
        }));
        assert(ci + 1 < ch.len());
    }
    assert(ci < j < ch.len() && ch[j] == p);
    let nk = rec_key_seq(s, ch[j]);
    assert(rec_valid(s, p));
    assert(key != nk);

    if lex_lt(key, nk) {
        if l == 1 {
            assert(lookup_step(s, key, st) == LookupState::NotFound);
            assert(lookup_run(s, key, st, 0) == st);
            assert(lookup_run(s, key, st, 1) == lookup_step(s, key, lookup_run(s, key, st, 0)));
        } else {
            assert(lookup_step(s, key, st) == (LookupState::Running { roff, level: l - 1 }));
            lemma_lookup_from_absent(s, ch, key, ci, l - 1);
            let n0 = choose|n: nat|
                #[trigger] lookup_run(s, key, LookupState::Running { roff, level: l - 1 }, n)
                    == LookupState::NotFound;
            lemma_run_shift(s, key, st, n0);
            assert(lookup_run(s, key, st, n0 + 1) == LookupState::NotFound);
        }
    } else {
        lemma_lex_lt_total(key, nk);
        assert(lookup_step(s, key, st) == (LookupState::Running {
            roff: p,
            level: rec_level(s, p) as int,
        }));
        lemma_lookup_from_absent(s, ch, key, j, rec_level(s, ch[j]) as int);
        let n0 = choose|n: nat|
            #[trigger] lookup_run(
                s,
                key,
                LookupState::Running { roff: ch[j], level: rec_level(s, ch[j]) as int },
                n,
            ) == LookupState::NotFound;
        lemma_run_shift(s, key, st, n0);
        assert(lookup_run(s, key, st, n0 + 1) == LookupState::NotFound);
    }
}

/// Lookup is sound for absent keys: on a well-formed skip list, the
/// traversal for a key that no entry after the sentinel carries
/// reaches `NotFound` — never an error and never a wrong record.
pub proof fn lemma_lookup_misses_absent_key(s: Seq<u8>, ch: Seq<int>, key: Seq<u8>)
    requires
        chain_wf(s, ch),
        forall|i: int| 1 <= i < ch.len() ==> rec_key_seq(s, #[trigger] ch[i]) != key,
    ensures
        exists|n: nat| #[trigger] lookup_iter(s, key, n) == LookupState::NotFound,
{
    assert(rec_valid(s, 64));
    assert(lookup_init(s) == (LookupState::Running { roff: 64, level: rec_level(s, 64) as int }));
    lemma_lookup_from_absent(s, ch, key, 0, rec_level(s, 64) as int);
    let n0 = choose|n: nat|
        #[trigger] lookup_run(
            s,
            key,
            LookupState::Running { roff: ch[0], level: rec_level(s, ch[0]) as int },
            n,
        ) == LookupState::NotFound;
    assert(lookup_iter(s, key, n0) == LookupState::NotFound);
}

/// The framed length of any structurally sound record is a multiple
/// of 8 and covers its fixed fields, at least one forward pointer, the
/// two checksums and the whole key and value payloads: it is at least
/// `header_len + 8 + key_len + val_len`.
pub proof fn lemma_total_len_shape(s: Seq<u8>, off: int)
    requires
        frame_err(s, off) is None,
    ensures
        rec_total_len(s, off) % 8 == 0,
        rec_total_len(s, off) >= rec_header_len(s, off) + 8 + rec_key_len(s, off) + rec_val_len(
            s,
            off,
        ),
{
    lemma_be_bytes_bound(s, off + 2, 2);
    lemma_be_bytes_bound(s, off + 4, 8);
    lemma_be_bytes_bound(s, rec_val_field_off(s, off), 4);
    lemma_be_bytes_bound(s, rec_val_field_off(s, off) + 4, 8);
    let kv = rec_key_len(s, off) + rec_val_len(s, off);
    lemma_round_up8_props(kv);
    let hl = rec_header_len(s, off);
    let pl = 8 * (rec_level(s, off) + 1);
    assert(hl % 8 == 0 && pl % 8 == 0);
    assert((hl + pl + 8 + round_up8(kv)) % 8 == 0) by {
        assert(hl + pl + 8 + round_up8(kv) == 8 * (hl / 8 + pl / 8 + 1 + round_up8(kv) / 8));
    }
}

/// Corrupting any framing byte of a sound record inside its forward
/// pointer table — without touching the fields before it or the stored
/// checksums after it — makes decoding fail with `ChecksumMismatch`,
/// never succeed with wrong contents, whenever the head checksum
/// separates the corrupted framing bytes from the original ones. The
/// CRC-32 in use separates, by design, any two byte strings that
/// differ in a single bit, but that is a property of the outside
/// checksum routine, so it is stated here as a premise rather than
/// claimed of it.
pub proof fn lemma_corrupt_pointers_detected(s1: Seq<u8>, s2: Seq<u8>, off: int)
    requires
        0 <= off,
        s1.len() == s2.len(),
        decode_err(s1, off) is None,
        forall|i: int|
            0 <= i < s1.len() && !(rec_ptr_off(s1, off) <= i < rec_crc_off(s1, off))
                ==> s1[i] == #[trigger] s2[i],
        crc32_of(s2.subrange(off, rec_crc_off(s1, off))) != crc32_of(
            s1.subrange(off, rec_crc_off(s1, off)),
        ),
    ensures
        decode_err(s2, off) == Some(Error::ChecksumMismatch),
{
    let n = s1.len() as int;
    let hl = rec_header_len(s1, off);
    let po = rec_ptr_off(s1, off);
    let co = rec_crc_off(s1, off);
    lemma_be_bytes_bound(s1, off + 2, 2);
    lemma_be_bytes_bound(s1, off + 4, 8);
    lemma_be_bytes_bound(s1, rec_val_field_off(s1, off), 4);
    lemma_be_bytes_bound(s1, rec_val_field_off(s1, off) + 4, 8);
    lemma_round_up8_props(rec_key_len(s1, off) + rec_val_len(s1, off));
    assert(off + hl == po && po <= co && co + 8 <= off + rec_total_len(s1, off) <= n);

    assert forall|i: int| off <= i < po implies s1[i] == s2[i] by {
        assert(0 <= i < s1.len());
    }
    lemma_be_bytes_agree(s1, s2, off + 2, 2);
    assert(rec_key_ext(s2, off) == rec_key_ext(s1, off));
    if rec_key_ext(s1, off) {
        lemma_be_bytes_agree(s1, s2, off + 4, 8);
    }
    assert(rec_key_len(s2, off) == rec_key_len(s1, off));
    assert(rec_val_field_off(s2, off) == rec_val_field_off(s1, off));
    assert(rec_val_field_off(s1, off) + 4 <= po);
    lemma_be_bytes_agree(s1, s2, rec_val_field_off(s1, off), 4);
    assert(rec_val_ext(s2, off) == rec_val_ext(s1, off));
    if rec_val_ext(s1, off) {
        lemma_be_bytes_agree(s1, s2, rec_val_field_off(s1, off) + 4, 8);
    }
    assert(rec_val_len(s2, off) == rec_val_len(s1, off));
    assert(rec_tag(s2, off) == rec_tag(s1, off) && rec_level(s2, off) == rec_level(s1, off));
    assert(rec_header_len(s2, off) == hl);
    assert(rec_ptr_off(s2, off) == po && rec_crc_off(s2, off) == co);
    assert(rec_total_len(s2, off) == rec_total_len(s1, off));
    assert(frame_err(s2, off) is None);

    assert forall|i: int| co <= i < co + 4 implies s1[i] == s2[i] by {
        assert(0 <= i < s1.len());
    }
    lemma_be_bytes_agree(s1, s2, co, 4);
    assert(be_bytes(s2, co, 4) == be_bytes(s1, co, 4));
    assert(rec_head_crc_ok(s1, off));
    assert(!rec_head_crc_ok(s2, off));
}

/// A read-only handle on one twoskip file: the raw bytes and the
/// validated header.
#[derive(Debug)]
pub struct Db {
    bytes: Vec<u8>,
    header: Header,
}

impl Db {
    /// The file bytes backing this database.
    pub closed spec fn sbytes(self) -> Seq<u8> {
        self.bytes@
    }

    /// The header decoded at open time.
    pub closed spec fn sheader(self) -> Header {
        self.header
    }

    /// The validated file header.
    pub fn header(&self) -> (h: Header)
        ensures
            h == self.sheader(),
    {
        self.header
    }
}

/// Validates the header of the given file image and wraps it as a
/// database handle. Succeeds exactly when the buffer holds at least the
/// 64 header bytes and magic, version and header checksum all validate.
pub fn open(bytes: Vec<u8>) -> (r: Result<Db, Error>)
    ensures
        match r {
            Ok(db) => {
                &&& header_err(bytes@) is None
                &&& db.sbytes() == bytes@
                &&& db.sheader() == spec_header(bytes@)
            },
            Err(e) => header_err(bytes@) == Some(e),
        },
{
    let header = match read_header(&bytes) {
        Ok(h) => h,
        Err(e) => {
            return Err(e);
        },
    };
    Ok(Db { bytes, header })
}

/// One decoded record: parsed framing fields plus the location of its
/// key and value payloads inside the backing file.
#[derive(Debug)]
pub struct Record<'a> {
    db: &'a Db,
    offset: usize,
    len: usize,
    /// The record's kind, from its tag byte.
    pub typ: RecordType,
    level: u8,
    key_len: usize,
    val_len: usize,
    next_loc: Vec<u64>,
    crc32_head: u32,
    crc32_tail: u32,
    key_offset: usize,
    val_offset: usize,
}

impl<'a> Record<'a> {
    /// The database this record was decoded from.
    pub closed spec fn sdb(self) -> Db {
        *self.db
    }

    /// The file offset the record was decoded at.
    pub closed spec fn soffset(self) -> int {
        self.offset as int
    }

    /// Every field of a well-formed record equals what the model
    /// decodes from the backing bytes at its offset, and the stored
    /// head checksum matches the framing bytes.
    pub open spec fn wf(self) -> bool {
        &&& self.frame_wf()
        &&& rec_head_crc_ok(self.sdb().sbytes(), self.soffset())
    }

    /// The structural part of well-formedness: the record's framing is
    /// sound and every field equals what the model decodes at its
    /// offset. Says nothing about the head checksum.
    pub open spec fn frame_wf(self) -> bool {
        let s = self.sdb().sbytes();
        let off = self.soffset();
        &&& frame_err(s, off) is None
        &&& self.spec_typ() == tag_type(rec_tag(s, off))
        &&& self.spec_level() == rec_level(s, off)
        &&& self.spec_key_len() == rec_key_len(s, off)
        &&& self.spec_val_len() == rec_val_len(s, off)
        &&& self.spec_total_len() == rec_total_len(s, off)
        &&& self.spec_next_loc().len() == rec_level(s, off) + 1
        &&& (forall|i: int|
            0 <= i < self.spec_next_loc().len() ==> #[trigger] self.spec_next_loc()[i]
                == rec_next_loc(s, off, i))
        &&& self.spec_crc32_head() == be_bytes(s, rec_crc_off(s, off), 4)
        &&& self.spec_crc32_tail() == rec_tail_crc(s, off)
        &&& self.spec_key_off() == rec_key_off(s, off)
        &&& self.spec_val_off() == rec_key_off(s, off) + rec_key_len(s, off)
    }

    /// The record's kind, as the model reads it.
    pub closed spec fn spec_typ(self) -> RecordType {
        self.typ
    }

    /// File offset of the key payload.
    pub closed spec fn spec_key_off(self) -> int {
        self.key_offset as int
    }

    /// File offset of the value payload.
    pub closed spec fn spec_val_off(self) -> int {
        self.val_offset as int
    }

    /// The record's skip-list level.
    pub closed spec fn spec_level(self) -> u8 {
        self.level
    }

    /// The record's key length in bytes.
    pub closed spec fn spec_key_len(self) -> int {
        self.key_len as int
    }

    /// The record's value length in bytes.
    pub closed spec fn spec_val_len(self) -> int {
        self.val_len as int
    }

    /// The record's whole framed length in bytes.
    pub closed spec fn spec_total_len(self) -> int {
        self.len as int
    }

    /// The record's forward pointers, lowest level first.
    pub closed spec fn spec_next_loc(self) -> Seq<u64> {
        self.next_loc@
    }

    /// The record's stored head checksum.
    pub closed spec fn spec_crc32_head(self) -> u32 {
        self.crc32_head
    }

    /// The record's stored tail checksum.
    pub closed spec fn spec_crc32_tail(self) -> u32 {
        self.crc32_tail
    }

    /// A structurally sound record's payload lies inside the buffer.
    proof fn lemma_payload_in_bounds(self)
        requires
            self.frame_wf(),
        ensures
            0 <= rec_key_off(self.sdb().sbytes(), self.soffset()),
            rec_key_off(self.sdb().sbytes(), self.soffset()) + rec_key_len(
                self.sdb().sbytes(),
                self.soffset(),
            ) + rec_val_len(self.sdb().sbytes(), self.soffset()) <= self.sdb().sbytes().len(),
    {
        let s = self.sdb().sbytes();
        let off = self.soffset();
        lemma_round_up8_props(rec_key_len(s, off) + rec_val_len(s, off));
    }

    /// The record's key payload, as a view into the backing file.
    pub fn key(&self) -> (r: &[u8])
        requires
            self.frame_wf(),
        ensures
            r@ == rec_key_seq(self.sdb().sbytes(), self.soffset()),
    {
        proof {
            self.lemma_payload_in_bounds();
        }
        slice_subrange(self.db.bytes.as_slice(), self.key_offset, self.key_offset + self.key_len)
    }

    /// The record's skip-list level.
    pub fn level(&self) -> (r: u8)
        ensures
            r == self.spec_level(),
    {
        self.level
    }

    /// The record's key length in bytes.
    pub fn key_len(&self) -> (r: usize)
        ensures
            r as int == self.spec_key_len(),
    {
        self.key_len
    }

    /// The record's value length in bytes.
    pub fn val_len(&self) -> (r: usize)
        ensures
            r as int == self.spec_val_len(),
    {
        self.val_len
    }

    /// The record's whole framed length in bytes.
    pub fn total_len(&self) -> (r: usize)
        ensures
            r as int == self.spec_total_len(),
    {
        self.len
    }

    /// The file offset the record was decoded at.
    pub fn offset(&self) -> (r: usize)
        ensures
            r as int == self.soffset(),
    {
        self.offset
    }

    /// Forward pointers `i` to `j` rendered as `ptr_list` says.
    fn fmt_ptr_list(&self, i: usize, j: usize) -> (r: String)
        requires
            self.frame_wf(),
            j <= rec_level(self.sdb().sbytes(), self.soffset()) + 1,
        ensures
            r@ == ptr_list(self.sdb().sbytes(), self.soffset(), i as int, j as int),
        decreases j - i,
    {
        let ghost s = self.sdb().sbytes();
        let ghost off = self.soffset();
        if i >= j {
            let out = String::new();
            assert(out@ =~= ptr_list(s, off, i as int, j as int));
            out
        } else {
            let mut out = fmt_hex_u(self.next_loc[i], 8);
            if i + 1 < j {
                out.append(" ");
                let rest = self.fmt_ptr_list(i + 1, j);
                out.append(rest.as_str());
            }
            assert(out@ =~= ptr_list(s, off, i as int, j as int));
            out
        }
    }

    /// Forward pointers `i` to `j` rendered as `ptr_chunks` says.
    fn fmt_ptr_chunks(&self, i: usize, j: usize) -> (r: String)
        requires
            self.frame_wf(),
            j <= rec_level(self.sdb().sbytes(), self.soffset()) + 1,
        ensures
            r@ == ptr_chunks(self.sdb().sbytes(), self.soffset(), i as int, j as int),
        decreases j - i,
    {
        let ghost s = self.sdb().sbytes();
        let ghost off = self.soffset();
        if i >= j {
            let out = String::new();
            assert(out@ =~= ptr_chunks(s, off, i as int, j as int));
            out
        } else {
            let e = if i + 8 < j {
                i + 8
            } else {
                j
            };
            let mut out = self.fmt_ptr_list(i, e);
            if e < j {
                out.append(" \n\t");
                let rest = self.fmt_ptr_chunks(e, j);
                out.append(rest.as_str());
            }
            assert(out@ =~= ptr_chunks(s, off, i as int, j as int));
            out
        }
    }

    /// The pointer-table block of this record's dump line.
    fn format_next_loc(&self) -> (r: String)
        requires
            self.frame_wf(),
        ensures
            r@ == spec_next_loc_text(self.sdb().sbytes(), self.soffset()),
    {
        let mut out = fmt_hex_u(self.next_loc[0], 8);
        out.append(" \n\t");
        let chunks = self.fmt_ptr_chunks(1, self.level as usize + 1);
        out.append(chunks.as_str());
        out.append(" ");
        assert(out@ =~= spec_next_loc_text(self.sdb().sbytes(), self.soffset()));
        out
    }

    /// One dump line for a record that carries data: its kind name,
    /// lengths, level, key and pointer table.
    fn format_data_record(&self, name: &str) -> (r: String)
        requires
            self.frame_wf(),
        ensures
            r@ == spec_data_line(self.sdb().sbytes(), self.soffset(), name@),
    {
        let ghost s = self.sdb().sbytes();
        let ghost off = self.soffset();
        let mut out = String::new();
        out.append(name);
        out.append(" kl=");
        let kl = fmt_dec(self.key_len as u64);
        out.append(kl.as_str());
        out.append(" dl=");
        let dl = fmt_dec(self.val_len as u64);
        out.append(dl.as_str());
        out.append(" lvl=");
        let lv = fmt_dec(self.level as u64);
        out.append(lv.as_str());
        out.append(" (");
        let kt = fmt_bytes(self.key());
        out.append(kt.as_str());
        out.append(")\n\t");
        let nl = self.format_next_loc();
        out.append(nl.as_str());
        assert(out@ =~= spec_data_line(s, off, name@));
        out
    }

    /// The record's dump text: a data line for dummy and data records,
    /// a single pointer line for delete and commit records.
    pub fn dump(&self) -> (r: String)
        requires
            self.frame_wf(),
        ensures
            r@ == spec_record_dump(self.sdb().sbytes(), self.soffset()),
    {
        let ghost s = self.sdb().sbytes();
        let ghost off = self.soffset();
        match self.typ {
            RecordType::Dummy => self.format_data_record("DUMMY"),
            RecordType::Record => self.format_data_record("RECORD"),
            RecordType::Delete => {
                let mut out = String::new();
                out.append("DELETE ptr=");
                let p = fmt_hex_l(self.next_loc[0], 8);
                out.append(p.as_str());
                assert(out@ =~= spec_record_dump(s, off));
                out
            },
            RecordType::Commit => {
                let mut out = String::new();
                out.append("COMMIT start=");
                let p = fmt_hex_l(self.next_loc[0], 8);
                out.append(p.as_str());
                assert(out@ =~= spec_record_dump(s, off));
                out
            },
        }
    }

    /// The record's value payload, as a view into the backing file.
    pub fn value(&self) -> (r: &[u8])
        requires
            self.frame_wf(),
        ensures
            r@ == rec_val_seq(self.sdb().sbytes(), self.soffset()),
    {
        proof {
            self.lemma_payload_in_bounds();
            assert(self.db.bytes@.len() == self.db.bytes.len());
            assert(self.val_offset + self.val_len <= self.sdb().sbytes().len());
        }
        slice_subrange(self.db.bytes.as_slice(), self.val_offset, self.val_offset + self.val_len)
    }
}

/// Padding a byte count to a multiple of 8 adds at most 7 bytes and
/// never shrinks it.
proof fn lemma_round_up8_props(n: int)
    requires
        n >= 0,
    ensures
        n <= round_up8(n) < n + 8,
        round_up8(n) % 8 == 0,
{
}

impl Db {
    /// Decodes the record framed at `offset`, validating every length
    /// and the head checksum against the backing buffer. Succeeds
    /// exactly when the model decodes a record there, and otherwise
    /// returns the error the model assigns.
    #[verifier::rlimit(50)]
    fn record_at<'a>(&'a self, offset: usize) -> (r: Result<Record<'a>, Error>)
        ensures
            match r {
                Ok(rec) => {
                    &&& rec.wf()
                    &&& rec.soffset() == offset
                    &&& rec.sdb() == *self
                },
                Err(e) => decode_err(self.sbytes(), offset as int) == Some(e),
            },
            r is Ok <==> rec_valid(self.sbytes(), offset as int),
    {
        let ghost s = self.sbytes();
        let ghost goff = offset as int;
        let n = self.bytes.len();

        if offset >= n {
            return Err(Error::InvalidFileSize);
        }
        let raw_type = self.bytes[offset];
        let typ = match RecordType::from_tag(raw_type) {
            Some(t) => t,
            None => {
                return Err(Error::UnknownRecordType);
            },
        };
        if offset + 1 >= n {
            return Err(Error::InvalidFileSize);
        }
        let level = self.bytes[offset + 1];
        if level > 31 {
            return Err(Error::InvalidLevel);
        }
        if n - offset < 4 {
            return Err(Error::InvalidFileSize);
        }

        let key_compact = read_be16(&self.bytes, offset + 2);
        let mut key_len: u64 = key_compact as u64;
        let mut cursor: usize = offset + 4;
        if key_compact == 0xffff {
            if n - offset < 12 {
                return Err(Error::InvalidFileSize);
            }
            key_len = read_be64(&self.bytes, offset + 4);
            cursor = offset + 12;
        }
        assert(cursor == rec_val_field_off(s, goff));
        assert(key_len == rec_key_len(s, goff));

        if n - cursor < 4 {
            return Err(Error::InvalidFileSize);
        }
        let val_compact = read_be32(&self.bytes, cursor);
        let mut val_len: u64 = val_compact as u64;
        if val_compact == 0xffffffff {
            if n - cursor < 12 {
                return Err(Error::InvalidFileSize);
            }
            val_len = read_be64(&self.bytes, cursor + 4);
            cursor = cursor + 12;
        } else {
            cursor = cursor + 4;
        }
        assert(val_len == rec_val_len(s, goff));
        assert(cursor - offset == rec_header_len(s, goff));

        proof {
            lemma_round_up8_props(key_len + val_len);
        }
        let kv = match key_len.checked_add(val_len) {
            Some(x) => x,
            None => {
                assert(goff + rec_total_len(s, goff) > n);
                return Err(Error::InvalidFileSize);
            },
        };
        let rem = kv % 8;
        let padded = if rem == 0 {
            kv
        } else {
            match kv.checked_add(8 - rem) {
                Some(x) => x,
                None => {
                    assert(goff + rec_total_len(s, goff) > n);
                    return Err(Error::InvalidFileSize);
                },
            }
        };
        assert(padded == round_up8(key_len + val_len));

        let header_len = cursor - offset;
        let ptr_bytes: u64 = 8 * (level as u64 + 1);
        let fixed: u64 = header_len as u64 + ptr_bytes + 8;
        let total = match fixed.checked_add(padded) {
            Some(x) => x,
            None => {
                assert(goff + rec_total_len(s, goff) > n);
                return Err(Error::InvalidFileSize);
            },
        };
        assert(total == rec_total_len(s, goff));
        if total > (n - offset) as u64 {
            return Err(Error::InvalidFileSize);
        }
        let len = total as usize;
        assert(offset + len <= n);

        let lvl1: usize = level as usize + 1;
        let mut next_loc: Vec<u64> = Vec::new();
        let mut k: usize = 0;
        while k < lvl1
            invariant
                k <= lvl1,
                lvl1 == rec_level(s, goff) + 1,
                cursor == rec_ptr_off(s, goff),
                offset + len <= n,
                n == s.len(),
                s == self.sbytes(),
                cursor + 8 * lvl1 + 8 <= offset + len,
                next_loc@.len() == k,
                forall|i: int| 0 <= i < k ==> #[trigger] next_loc@[i] == rec_next_loc(s, goff, i),
            decreases lvl1 - k,
        {
            let p = read_be64(&self.bytes, cursor + 8 * k);
            next_loc.push(p);
            k = k + 1;
        }

        let crc_off = cursor + 8 * lvl1;
        assert(crc_off == rec_crc_off(s, goff));
        let crc32_head = read_be32(&self.bytes, crc_off);
        let computed = crc32_range(&self.bytes, offset, crc_off);
        if crc32_head != computed {
            assert(!rec_head_crc_ok(s, goff));
            return Err(Error::ChecksumMismatch);
        }
        let crc32_tail = read_be32(&self.bytes, crc_off + 4);

        let key_offset = crc_off + 8;
        let rec = Record {
            db: self,
            offset,
            len,
            typ,
            level,
            key_len: key_len as usize,
            val_len: val_len as usize,
            next_loc,
            crc32_head,
            crc32_tail,
            key_offset,
            val_offset: key_offset + key_len as usize,
        };
        Ok(rec)
    }

    /// Point lookup over the persisted skip list: returns the record
    /// whose key equals `key` byte for byte, `None` when the list
    /// holds no such key, or the error of the first record decode that
    /// fails along the walk. The result is exactly the outcome the
    /// traversal model reaches; a walk still unfinished after more
    /// steps than there are traversal states has hit a pointer cycle
    /// in a corrupt file and is reported as `InvalidFileSize`.
    pub fn get<'a>(&'a self, key: &[u8]) -> (res: Result<Option<Record<'a>>, Error>)
        ensures
            match res {
                Ok(Some(rec)) => {
                    &&& rec.wf()
                    &&& rec.sdb() == *self
                    &&& rec_key_seq(self.sbytes(), rec.soffset()) == key@
                    &&& exists|n: nat| #[trigger] lookup_iter(self.sbytes(), key@, n)
                        == (LookupState::Found { off: rec.soffset() })
                },
                Ok(None) => exists|n: nat| #[trigger] lookup_iter(self.sbytes(), key@, n)
                    == LookupState::NotFound,
                Err(e) => (exists|n: nat| #[trigger] lookup_iter(self.sbytes(), key@, n)
                    == (LookupState::Failed { err: e })) || (e == Error::InvalidFileSize
                    && lookup_iter(self.sbytes(), key@, lookup_fuel(self.sbytes())) is Running),
            },
    {
        let ghost s = self.sbytes();
        let n = self.bytes.len();

        let mut r = match self.record_at(64) {
            Ok(rec) => rec,
            Err(e) => {
                assert(lookup_iter(s, key@, 0) == (LookupState::Failed { err: e }));
                return Err(e);
            },
        };
        let mut level: u8 = r.level;
        assert(lookup_iter(s, key@, 0) == (LookupState::Running {
            roff: r.soffset(),
            level: level as int,
        }));

        let cap: u128 = 33 * (n as u128) + 40;
        let mut steps: u128 = 0;

        while steps < cap
            invariant
                s == self.sbytes(),
                n == s.len(),
                cap == 33 * (n as u128) + 40,
                steps <= cap,
                r.wf(),
                r.sdb() == *self,
                level <= r.spec_level(),
                lookup_iter(s, key@, steps as nat) == (LookupState::Running {
                    roff: r.soffset(),
                    level: level as int,
                }),
            decreases cap - steps,
        {
            let ghost roff = r.soffset();
            let ghost st = LookupState::Running { roff, level: level as int };

            let mut offset: u64 = 0;
            let mut lvl: u8 = level;
            while offset == 0 && lvl > 0
                invariant
                    s == self.sbytes(),
                    r.wf(),
                    r.sdb() == *self,
                    roff == r.soffset(),
                    lvl <= level,
                    level <= r.spec_level(),
                    offset == 0 ==> drop_level(s, roff, level as int) == drop_level(
                        s,
                        roff,
                        lvl as int,
                    ),
                    offset != 0 ==> lvl > 0 && offset == rec_next_loc(s, roff, lvl as int)
                        && drop_level(s, roff, level as int) == lvl,
                decreases lvl as int + (if offset == 0 {
                    1int
                } else {
                    0int
                }),
            {
                offset = r.next_loc[lvl as usize];
                proof {
                    assert(offset == rec_next_loc(s, roff, lvl as int));
                    if offset == 0 {
                        assert(drop_level(s, roff, lvl as int) == drop_level(
                            s,
                            roff,
                            lvl as int - 1,
                        ));
                    } else {
                        assert(drop_level(s, roff, lvl as int) == lvl);
                    }
                }
                if offset == 0 {
                    lvl = lvl - 1;
                }
            }

            if lvl == 0 || offset == 0 {
                proof {
                    reveal(lookup_step);
                    assert(offset == 0);
                    assert(drop_level(s, roff, lvl as int) == 0);
                    assert(drop_level(s, roff, level as int) == 0);
                    assert(lookup_step(s, key@, st) == LookupState::NotFound);
                    assert(lookup_iter(s, key@, steps as nat + 1) == LookupState::NotFound);
                }
                return Ok(None);
            }
            assert(drop_level(s, roff, level as int) == lvl && lvl > 0);
            let ghost ptr = rec_next_loc(s, roff, lvl as int);
            assert(offset == ptr);

            if offset > n as u64 {
                proof {
                    reveal(lookup_step);
                    assert(decode_err(s, ptr) == Some(Error::InvalidFileSize));
                    assert(lookup_step(s, key@, st) == (LookupState::Failed {
                        err: Error::InvalidFileSize,
                    }));
                    assert(lookup_iter(s, key@, steps as nat + 1) == (LookupState::Failed {
                        err: Error::InvalidFileSize,
                    }));
                }
                return Err(Error::InvalidFileSize);
            }

            let next = match self.record_at(offset as usize) {
                Ok(x) => x,
                Err(e) => {
                    proof {
                        reveal(lookup_step);
                        assert(decode_err(s, ptr) == Some(e));
                        assert(lookup_step(s, key@, st) == (LookupState::Failed { err: e }));
                        assert(lookup_iter(s, key@, steps as nat + 1) == (LookupState::Failed {
                            err: e,
                        }));
                    }
                    return Err(e);
                },
            };
            assert(next.soffset() == ptr && next.wf());

            match compare_bytes(key, next.key()) {
                Cmp::Eq => {
                    proof {
                        reveal(lookup_step);
                        assert(key@ == rec_key_seq(s, ptr));
                        assert(lookup_step(s, key@, st) == (LookupState::Found { off: ptr }));
                        assert(lookup_iter(s, key@, steps as nat + 1) == (LookupState::Found {
                            off: ptr,
                        }));
                    }
                    return Ok(Some(next));
                },
                Cmp::Lt => {
                    proof {
                        reveal(lookup_step);
                        assert(key@ != rec_key_seq(s, ptr) && lex_lt(key@, rec_key_seq(s, ptr)));
                    }
                    lvl = lvl - 1;
                    if lvl == 0 {
                        proof {
                            reveal(lookup_step);
                            assert(lookup_step(s, key@, st) == LookupState::NotFound);
                            assert(lookup_iter(s, key@, steps as nat + 1)
                                == LookupState::NotFound);
                        }
                        return Ok(None);
                    }
                    level = lvl;
                    proof {
                        reveal(lookup_step);
                        assert(lookup_step(s, key@, st) == (LookupState::Running {
                            roff,
                            level: level as int,
                        }));
                        assert(lookup_iter(s, key@, steps as nat + 1) == (LookupState::Running {
                            roff,
                            level: level as int,
                        }));
                    }
                },
                Cmp::Gt => {
                    proof {
                        reveal(lookup_step);
                        assert(key@ != rec_key_seq(s, ptr) && !lex_lt(key@, rec_key_seq(s, ptr)));
                    }
                    level = next.level;
                    r = next;
                    proof {
                        reveal(lookup_step);
                        assert(lookup_step(s, key@, st) == (LookupState::Running {
                            roff: ptr,
                            level: level as int,
                        }));
                        assert(lookup_iter(s, key@, steps as nat + 1) == (LookupState::Running {
                            roff: ptr,
                            level: level as int,
                        }));
                    }
                },
            }
            steps = steps + 1;
        }

        proof {
            assert(steps as nat == lookup_fuel(s));
            assert(lookup_iter(s, key@, lookup_fuel(s)) is Running);
        }
        Err(Error::InvalidFileSize)
    }

    /// The dump text from `off` to the logical end of data, as
    /// `spec_dump_body` says.
    fn dump_from(&self, off: usize) -> (r: Result<String, Error>)
        ensures
            match r {
                Ok(t) => spec_dump_body(
                    self.sbytes(),
                    off as int,
                    self.sheader().current_size as int,
                ) == Ok::<Seq<char>, Error>(t@),
                Err(e) => spec_dump_body(
                    self.sbytes(),
                    off as int,
                    self.sheader().current_size as int,
                ) == Err::<Seq<char>, Error>(e),
            },
        decreases (if self.sheader().current_size as int - off >= 0 {
            self.sheader().current_size as int - off
        } else {
            0int
        }),
    {
        let ghost s = self.sbytes();
        let ghost end = self.sheader().current_size as int;
        let cs = self.header.current_size;
        if (off as u64) >= cs {
            let out = String::new();
            assert(out@ =~= spec_dump_body(s, off as int, end)->Ok_0);
            return Ok(out);
        }
        if blank_at(&self.bytes, off) {
            proof {
                assert(s.len() == self.bytes.len());
            }
            match self.dump_from(off + 8) {
                Ok(t) => {
                    let mut out = fmt_hex_u(off as u64, 8);
                    out.append(" BLANK\n");
                    out.append(t.as_str());
                    assert(out@ =~= spec_dump_body(s, off as int, end)->Ok_0);
                    Ok(out)
                },
                Err(e) => Err(e),
            }
        } else {
            match self.record_at(off) {
                Err(e) => Err(e),
                Ok(rec) => {
                    proof {
                        lemma_total_len_shape(s, off as int);
                        assert(s.len() == self.bytes.len());
                        assert(rec_total_len(s, off as int) >= 8);
                    }
                    match self.dump_from(off + rec.len) {
                        Ok(t) => {
                            let mut out = fmt_hex_u(off as u64, 8);
                            out.append(" ");
                            let line = rec.dump();
                            out.append(line.as_str());
                            out.append("\n");
                            out.append(t.as_str());
                            assert(out@ =~= spec_dump_body(s, off as int, end)->Ok_0);
                            Ok(out)
                        },
                        Err(e) => Err(e),
                    }
                },
            }
        }
    }

    /// The whole dump of the database as text: the header line, then
    /// one line per record or blank-padding region in file order, or
    /// the error of the first record that fails to decode.
    pub fn dump(&self) -> (r: Result<String, Error>)
        ensures
            ({
                let body = spec_dump_body(
                    self.sbytes(),
                    64,
                    self.sheader().current_size as int,
                );
                match r {
                    Ok(out) => body is Ok && out@ == spec_header_line(self.sheader()) + "\n"@
                        + body->Ok_0,
                    Err(e) => body == Err::<Seq<char>, Error>(e),
                }
            }),
    {
        let body = match self.dump_from(64) {
            Ok(t) => t,
            Err(e) => {
                return Err(e);
            },
        };
        let mut out = String::new();
        out.append("HEADER: v=");
        let v = fmt_dec(self.header.version as u64);
        out.append(v.as_str());
        out.append(" fl=");
        let fl = fmt_hex_l(self.header.flags as u64, 1);
        out.append(fl.as_str());
        out.append(" num=");
        let num = fmt_dec(self.header.num_records);
        out.append(num.as_str());
        out.append(" sz=(");
        let csz = fmt_hex_u(self.header.current_size, 8);
        out.append(csz.as_str());
        out.append("/");
        let rsz = fmt_hex_u(self.header.repack_size, 8);
        out.append(rsz.as_str());
        out.append(")");
        out.append("\n");
        out.append(body.as_str());
        assert(out@ =~= spec_header_line(self.sheader()) + "\n"@ + spec_dump_body(
            self.sbytes(),
            64,
            self.sheader().current_size as int,
        )->Ok_0);
        Ok(out)
    }

    /// A sequential scanner positioned at the first data offset.
    pub fn iter<'a>(&'a self) -> (it: DbIter<'a>)
        ensures
            it.sdb() == *self,
            it.soffset() == 64,
    {
        DbIter { db: self, offset: 64 }
    }
}

/// Byte `i` of the 8-byte blank-padding sentinel.
fn blank_byte(i: usize) -> (r: u8)
    requires
        i < 8,
    ensures
        r == blank_seq()[i as int],
{
    match i {
        0 => 0x20,
        1 => 0x42,
        2 => 0x4c,
        3 => 0x41,
        4 => 0x4e,
        5 => 0x4b,
        6 => 0x07,
        _ => 0xa0,
    }
}

/// True when the 8 bytes at `off` are the blank-padding sentinel.
fn blank_at(bytes: &Vec<u8>, off: usize) -> (r: bool)
    ensures
        r == is_blank(bytes@, off as int),
{
    let n = bytes.len();
    if n < 8 || off > n - 8 {
        return false;
    }
    let mut i: usize = 0;
    while i < 8
        invariant
            i <= 8,
            off + 8 <= bytes.len(),
            bytes@.len() == bytes.len(),
            forall|j: int| 0 <= j < i ==> bytes@[off + j] == blank_seq()[j],
        decreases 8 - i,
    {
        if bytes[off + i] != blank_byte(i) {
            proof {
                assert(bytes@.subrange(off as int, off as int + 8) != blank_seq()) by {
                    assert(bytes@.subrange(off as int, off as int + 8)[i as int] == bytes@[off
                        + i]);
                }
            }
            return false;
        }
        i = i + 1;
    }
    proof {
        assert(bytes@.subrange(off as int, off as int + 8) =~= blank_seq());
    }
    true
}

/// A lazy, non-restartable walk over the records of one database in
/// ascending file order, skipping blank-padding regions.
pub struct DbIter<'a> {
    db: &'a Db,
    offset: usize,
}

impl<'a> DbIter<'a> {
    /// The database this scanner walks.
    pub closed spec fn sdb(self) -> Db {
        *self.db
    }

    /// The file offset the scanner will look at next.
    pub closed spec fn soffset(self) -> int {
        self.offset as int
    }

    /// One step of the sequential scan: skips any blank-padding
    /// sentinels, stops with `None` at the recorded logical end of
    /// data, and otherwise decodes the record there, yields it, and
    /// advances past its whole framed length. A decode failure is
    /// yielded as an error and the scanner stays on the failing
    /// record.
    pub fn next(&mut self) -> (r: Option<Result<Record<'a>, Error>>)
        ensures
            ({
                let s = old(self).sdb().sbytes();
                let end = old(self).sdb().sheader().current_size as int;
                let p = skip_blanks(s, old(self).soffset(), end);
                &&& final(self).sdb() == old(self).sdb()
                &&& match r {
                    None => p >= end && final(self).soffset() == p,
                    Some(Ok(rec)) => {
                        &&& p < end
                        &&& rec.wf()
                        &&& rec.sdb() == old(self).sdb()
                        &&& rec.soffset() == p
                        &&& final(self).soffset() == p + rec_total_len(s, p)
                    },
                    Some(Err(e)) => {
                        &&& p < end
                        &&& decode_err(s, p) == Some(e)
                        &&& final(self).soffset() == p
                    },
                }
            }),
    {
        let ghost s = self.db.sbytes();
        let ghost db0 = self.sdb();
        let ghost off0 = self.soffset();
        let cs = self.db.header.current_size;
        let ghost end = cs as int;
        proof {
            assert(s.len() == self.db.bytes.len());
        }

        while (self.offset as u64) < cs && blank_at(&self.db.bytes, self.offset)
            invariant
                self.sdb() == db0,
                s == db0.sbytes(),
                cs == db0.sheader().current_size,
                end == cs as int,
                s.len() <= usize::MAX,
                skip_blanks(s, off0, end) == skip_blanks(s, self.soffset(), end),
            decreases (if end - self.soffset() >= 0 {
                end - self.soffset()
            } else {
                0int
            }),
        {
            proof {
                assert(skip_blanks(s, self.soffset(), end) == skip_blanks(
                    s,
                    self.soffset() + 8,
                    end,
                ));
            }
            self.offset = self.offset + 8;
        }
        proof {
            assert(skip_blanks(s, self.soffset(), end) == self.soffset());
        }

        if (self.offset as u64) >= cs {
            return None;
        }
        let db = self.db;
        match db.record_at(self.offset) {
            Ok(rec) => {
                proof {
                    lemma_round_up8_props(
                        rec_key_len(s, self.soffset()) + rec_val_len(s, self.soffset()),
                    );
                    assert(self.soffset() + rec.spec_total_len() <= s.len());
                }
                self.offset = self.offset + rec.len;
                Some(Ok(rec))
            },
            Err(e) => Some(Err(e)),
        }
    }
}

} // verus!
