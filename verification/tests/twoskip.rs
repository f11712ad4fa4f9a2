use twoskip::twoskip::{open, Error, RecordType};

fn crc32(data: &[u8]) -> u32 {
    crc::Crc::<u32>::new(&crc::CRC_32_ISO_HDLC).checksum(data)
}

const MAGIC: &[u8; 20] = b"\xa1\x02\x8b\x0dtwoskip file\x00\x00\x00\x00";
const BLANK: &[u8; 8] = b" BLANK\x07\xa0";

fn header(num_records: u64, current_size: u64) -> Vec<u8> {
    let mut h: Vec<u8> = Vec::new();
    h.extend_from_slice(MAGIC);
    h.extend_from_slice(&1u32.to_be_bytes());
    h.extend_from_slice(&7u64.to_be_bytes());
    h.extend_from_slice(&num_records.to_be_bytes());
    h.extend_from_slice(&current_size.to_be_bytes());
    h.extend_from_slice(&current_size.to_be_bytes());
    h.extend_from_slice(&0u32.to_be_bytes());
    let c = crc32(&h[0..60]);
    h.extend_from_slice(&c.to_be_bytes());
    assert_eq!(h.len(), 64);
    h
}

fn round_up8(n: usize) -> usize {
    if n % 8 == 0 {
        n
    } else {
        n + 8 - n % 8
    }
}

/// Framed length of a record with the given shape.
fn rec_len(level: u8, key_len: usize, val_len: usize, ext_key: bool, ext_val: bool) -> usize {
    let mut hl = 8;
    if ext_key || key_len >= 0xffff {
        hl += 8;
    }
    if ext_val || val_len >= 0xffff_ffff {
        hl += 8;
    }
    hl + 8 * (level as usize + 1) + 8 + round_up8(key_len + val_len)
}

/// Builds one framed record. `next` gives the forward pointers from
/// level 0 up; missing entries are zero. `ext_key` / `ext_val` force
/// the extended length encoding even for small lengths.
fn record(
    tag: u8,
    level: u8,
    next: &[u64],
    key: &[u8],
    val: &[u8],
    ext_key: bool,
    ext_val: bool,
) -> Vec<u8> {
    let mut r: Vec<u8> = vec![tag, level];
    if ext_key || key.len() >= 0xffff {
        r.extend_from_slice(&0xffffu16.to_be_bytes());
        r.extend_from_slice(&(key.len() as u64).to_be_bytes());
    } else {
        r.extend_from_slice(&(key.len() as u16).to_be_bytes());
    }
    if ext_val || val.len() >= 0xffff_ffff {
        r.extend_from_slice(&0xffff_ffffu32.to_be_bytes());
        r.extend_from_slice(&(val.len() as u64).to_be_bytes());
    } else {
        r.extend_from_slice(&(val.len() as u32).to_be_bytes());
    }
    for i in 0..=(level as usize) {
        let p = next.get(i).copied().unwrap_or(0);
        r.extend_from_slice(&p.to_be_bytes());
    }
    let head = crc32(&r);
    r.extend_from_slice(&head.to_be_bytes());
    // The tail checksum is stored but never validated by the decoder;
    // write the checksum of the payload as the writer would.
    let mut payload: Vec<u8> = Vec::new();
    payload.extend_from_slice(key);
    payload.extend_from_slice(val);
    r.extend_from_slice(&crc32(&payload).to_be_bytes());
    r.extend_from_slice(&payload);
    while r.len() % 8 != 0 {
        r.push(0);
    }
    r
}

/// A small database: a sentinel and three data records linked in key
/// order through level-1 (and one level-2) pointers. Returns the file
/// image and the offsets of the four records.
fn three_key_db() -> (Vec<u8>, [usize; 4]) {
    let keys: [&[u8]; 3] = [b"alpha", b"beta", b"delta"];
    let vals: [&[u8]; 3] = [b"value-a", b"value-b", b"value-d"];
    let sentinel_len = rec_len(2, 0, 0, false, false);
    let a_off = 64 + sentinel_len;
    let a_len = rec_len(1, keys[0].len(), vals[0].len(), false, false);
    let b_off = a_off + a_len;
    let b_len = rec_len(2, keys[1].len(), vals[1].len(), false, false);
    let d_off = b_off + b_len;
    let d_len = rec_len(1, keys[2].len(), vals[2].len(), false, false);
    let end = d_off + d_len;

    let mut f = header(4, end as u64);
    f.extend_from_slice(&record(
        b'=',
        2,
        &[a_off as u64, a_off as u64, b_off as u64],
        b"",
        b"",
        false,
        false,
    ));
    f.extend_from_slice(&record(
        b'+',
        1,
        &[b_off as u64, b_off as u64],
        keys[0],
        vals[0],
        false,
        false,
    ));
    f.extend_from_slice(&record(
        b'+',
        2,
        &[d_off as u64, d_off as u64, 0],
        keys[1],
        vals[1],
        false,
        false,
    ));
    f.extend_from_slice(&record(b'+', 1, &[0, 0], keys[2], vals[2], false, false));
    assert_eq!(f.len(), end);
    (f, [64, a_off, b_off, d_off])
}

#[test]
fn open_ok() {
    let (f, _) = three_key_db();
    let db = open(f).unwrap();
    let h = db.header();
    assert_eq!(h.version, 1);
    assert_eq!(h.generation, 7);
    assert_eq!(h.num_records, 4);
}

#[test]
fn open_too_short() {
    let f = vec![0u8; 63];
    match open(f) {
        Err(Error::InvalidFileSize) => {},
        other => panic!("expected InvalidFileSize, got {:?}", other.map(|_| ())),
    }
}

#[test]
fn open_bad_magic() {
    let (mut f, _) = three_key_db();
    f[3] ^= 1;
    match open(f) {
        Err(Error::InvalidHeaderMagic) => {},
        other => panic!("expected InvalidHeaderMagic, got {:?}", other.map(|_| ())),
    }
}

#[test]
fn open_bad_version() {
    let (mut f, _) = three_key_db();
    f[23] = 2;
    // keep the checksum valid so only the version is wrong
    let c = crc32(&f[0..60]);
    f[60..64].copy_from_slice(&c.to_be_bytes());
    match open(f) {
        Err(Error::VersionMismatch) => {},
        other => panic!("expected VersionMismatch, got {:?}", other.map(|_| ())),
    }
}

#[test]
fn open_bad_checksum() {
    let (mut f, _) = three_key_db();
    // corrupt a checksummed header byte without touching the stored crc
    f[33] ^= 0x40;
    match open(f) {
        Err(Error::ChecksumMismatch) => {},
        other => panic!("expected ChecksumMismatch, got {:?}", other.map(|_| ())),
    }
}

#[test]
fn get_present_returns_value() {
    let (f, _) = three_key_db();
    let db = open(f).unwrap();
    let r = db.get(b"alpha").unwrap().unwrap();
    assert_eq!(r.value(), b"value-a");
    assert_eq!(r.key(), b"alpha");
    let r = db.get(b"beta").unwrap().unwrap();
    assert_eq!(r.value(), b"value-b");
    let r = db.get(b"delta").unwrap().unwrap();
    assert_eq!(r.value(), b"value-d");
    assert!(matches!(r.typ, RecordType::Record));
}

#[test]
fn get_absent_is_none_not_error() {
    let (f, _) = three_key_db();
    let db = open(f).unwrap();
    // lexicographically between two existing keys
    assert!(db.get(b"b").unwrap().is_none());
    assert!(db.get(b"carrot").unwrap().is_none());
    // before the first and past the last key
    assert!(db.get(b"aaa").unwrap().is_none());
    assert!(db.get(b"zzz").unwrap().is_none());
    // a strict prefix of an existing key
    assert!(db.get(b"alph").unwrap().is_none());
}

#[test]
fn get_propagates_decode_error() {
    let (mut f, offs) = three_key_db();
    // corrupt a pointer byte of the record holding "beta"
    f[offs[2] + 10] ^= 0x01;
    let db = open(f).unwrap();
    match db.get(b"beta") {
        Err(Error::ChecksumMismatch) => {},
        other => panic!("expected ChecksumMismatch, got {:?}", other.map(|_| ())),
    }
}

#[test]
fn extended_key_len() {
    // a key longer than 65534 bytes forces the 8-byte extended length
    let key: Vec<u8> = (0..70000u32).map(|i| (i % 251) as u8).collect();
    let sentinel_len = rec_len(1, 0, 0, false, false);
    let a_off = 64 + sentinel_len;
    let a_len = rec_len(0, key.len(), 3, false, false);
    let end = a_off + a_len;
    let mut f = header(2, end as u64);
    f.extend_from_slice(&record(b'=', 1, &[a_off as u64, a_off as u64], b"", b"", false, false));
    f.extend_from_slice(&record(b'+', 0, &[0], &key, b"big", false, false));
    // the compact field must hold the overflow sentinel
    assert_eq!(&f[a_off + 2..a_off + 4], &[0xff, 0xff]);
    assert_eq!(&f[a_off + 4..a_off + 12], &70000u64.to_be_bytes());
    let db = open(f).unwrap();
    let r = db.get(&key).unwrap().unwrap();
    assert_eq!(r.key_len(), 70000);
    assert_eq!(r.key(), &key[..]);
    assert_eq!(r.value(), b"big");
}

#[test]
fn extended_val_len() {
    // the decoder must follow the extended encoding wherever the
    // compact field holds the sentinel, whatever the actual length
    let sentinel_len = rec_len(1, 0, 0, false, false);
    let a_off = 64 + sentinel_len;
    let a_len = rec_len(0, 2, 5, false, true);
    let end = a_off + a_len;
    let mut f = header(2, end as u64);
    f.extend_from_slice(&record(b'=', 1, &[a_off as u64, a_off as u64], b"", b"", false, false));
    f.extend_from_slice(&record(b'+', 0, &[0], b"kk", b"vvvvv", false, true));
    assert_eq!(&f[a_off + 4..a_off + 8], &[0xff, 0xff, 0xff, 0xff]);
    let db = open(f).unwrap();
    let r = db.get(b"kk").unwrap().unwrap();
    assert_eq!(r.val_len(), 5);
    assert_eq!(r.value(), b"vvvvv");
}

#[test]
fn bit_flip_in_pointer_table_detected() {
    let (f, offs) = three_key_db();
    // the sentinel's pointer table: 3 pointers of 8 bytes after the
    // 8 fixed framing bytes
    for byte in 0..24 {
        for bit in 0..8 {
            let mut g = f.clone();
            g[offs[0] + 8 + byte] ^= 1u8 << bit;
            let db = open(g).unwrap();
            match db.get(b"alpha") {
                Err(Error::ChecksumMismatch) => {},
                other => panic!(
                    "byte {} bit {}: expected ChecksumMismatch, got {:?}",
                    byte,
                    bit,
                    other.map(|_| ())
                ),
            }
        }
    }
}

#[test]
fn bit_flip_in_length_fields_never_silent() {
    let (f, offs) = three_key_db();
    // flipping framing bytes before the checksum must never decode
    // successfully, whichever error it maps to
    for byte in 2..8 {
        for bit in 0..8 {
            let mut g = f.clone();
            g[offs[1] + byte] ^= 1u8 << bit;
            let db = open(g).unwrap();
            let mut it = db.iter();
            let mut saw_error = false;
            loop {
                match it.next() {
                    None => break,
                    Some(Err(_)) => {
                        saw_error = true;
                        break;
                    },
                    Some(Ok(_)) => {},
                }
            }
            assert!(saw_error, "byte {} bit {} slipped through", byte, bit);
        }
    }
}

#[test]
fn total_len_shape() {
    // pseudo-random level / key / value shapes: the framed length is
    // a multiple of 8 and covers header, one pointer slot, checksums
    // and both payloads
    let mut seed: u64 = 0x2545_f491_4f6c_dd1d;
    for _ in 0..60 {
        seed = seed.wrapping_mul(6364136223846793005).wrapping_add(1442695040888963407);
        let level = (seed >> 33) as u8 % 32;
        let kl = ((seed >> 13) % 97) as usize;
        let vl = ((seed >> 3) % 203) as usize;
        let ext_key = seed & 1 == 1;
        let ext_val = seed & 2 == 2;
        let key: Vec<u8> = (0..kl).map(|i| (i % 256) as u8).collect();
        let val: Vec<u8> = (0..vl).map(|i| (i * 7 % 256) as u8).collect();
        let a_len = rec_len(level, kl, vl, ext_key, ext_val);
        let end = 64 + a_len;
        let mut f = header(1, end as u64);
        f.extend_from_slice(&record(b'=', level, &[], &key, &val, ext_key, ext_val));
        assert_eq!(f.len(), end);
        let db = open(f).unwrap();
        let mut it = db.iter();
        let r = it.next().unwrap().unwrap();
        let header_len = 8 + if ext_key { 8 } else { 0 } + if ext_val { 8 } else { 0 };
        assert_eq!(r.total_len() % 8, 0);
        assert!(r.total_len() >= header_len + 8 + kl + vl);
        assert_eq!(r.total_len(), a_len);
        assert_eq!(r.level(), level);
        assert!(it.next().is_none());
    }
}

#[test]
fn scan_skips_blank_region() {
    let sentinel_len = rec_len(0, 0, 0, false, false);
    let a_off = 64 + sentinel_len;
    let a_len = rec_len(0, 3, 3, false, false);
    let blank_off = a_off + a_len;
    let b_off = blank_off + 16;
    let b_len = rec_len(0, 3, 3, false, false);
    let end = b_off + b_len;
    let mut f = header(3, end as u64);
    f.extend_from_slice(&record(b'=', 0, &[], b"", b"", false, false));
    f.extend_from_slice(&record(b'+', 0, &[], b"aaa", b"one", false, false));
    f.extend_from_slice(BLANK);
    f.extend_from_slice(BLANK);
    f.extend_from_slice(&record(b'+', 0, &[], b"bbb", b"two", false, false));
    assert_eq!(f.len(), end);
    let db = open(f).unwrap();
    let mut it = db.iter();
    let s = it.next().unwrap().unwrap();
    assert!(matches!(s.typ, RecordType::Dummy));
    let r1 = it.next().unwrap().unwrap();
    assert_eq!(r1.key(), b"aaa");
    assert_eq!(r1.offset(), a_off);
    let r2 = it.next().unwrap().unwrap();
    assert_eq!(r2.key(), b"bbb");
    assert_eq!(r2.offset(), b_off);
    assert!(it.next().is_none());
    assert!(it.next().is_none());
}

#[test]
fn get_agrees_with_scan() {
    let (f, _) = three_key_db();
    let db = open(f).unwrap();
    // collect every data record by a linear scan
    let mut found: Vec<(Vec<u8>, Vec<u8>)> = Vec::new();
    let mut it = db.iter();
    loop {
        match it.next() {
            None => break,
            Some(Ok(r)) => {
                if matches!(r.typ, RecordType::Record) {
                    found.push((r.key().to_vec(), r.value().to_vec()));
                }
            },
            Some(Err(e)) => panic!("scan failed: {:?}", e),
        }
    }
    assert_eq!(found.len(), 3);
    for (k, v) in &found {
        let r = db.get(k).unwrap().unwrap();
        assert_eq!(r.value(), &v[..]);
    }
    // probes around and between the known keys
    for probe in [
        &b""[..],
        b"a",
        b"alpha0",
        b"alphz",
        b"b",
        b"beta ",
        b"delt",
        b"deltaa",
        b"zz",
    ] {
        let by_get = db.get(probe).unwrap().map(|r| r.value().to_vec());
        let by_scan = found.iter().find(|(k, _)| &k[..] == probe).map(|(_, v)| v.clone());
        assert_eq!(by_get, by_scan);
    }
}

#[test]
fn unknown_record_type() {
    let a_len = rec_len(0, 1, 1, false, false);
    let end = 64 + a_len;
    let mut f = header(1, end as u64);
    f.extend_from_slice(&record(b'X', 0, &[], b"k", b"v", false, false));
    let db = open(f).unwrap();
    let mut it = db.iter();
    match it.next() {
        Some(Err(Error::UnknownRecordType)) => {},
        other => panic!("expected UnknownRecordType, got {:?}", other.map(|r| r.map(|_| ()))),
    }
}

#[test]
fn invalid_level() {
    let end = 64 + 32;
    let mut f = header(1, end as u64);
    f.extend_from_slice(&[b'=', 32]);
    f.extend_from_slice(&[0u8; 30]);
    let db = open(f).unwrap();
    let mut it = db.iter();
    match it.next() {
        Some(Err(Error::InvalidLevel)) => {},
        other => panic!("expected InvalidLevel, got {:?}", other.map(|r| r.map(|_| ()))),
    }
}

#[test]
fn record_overruns_buffer() {
    // a record whose claimed value length runs past the file end
    let end = 64 + 40;
    let mut f = header(1, end as u64);
    let mut r: Vec<u8> = vec![b'+', 0];
    r.extend_from_slice(&1u16.to_be_bytes());
    r.extend_from_slice(&1_000_000u32.to_be_bytes());
    r.extend_from_slice(&0u64.to_be_bytes());
    let head = crc32(&r);
    r.extend_from_slice(&head.to_be_bytes());
    while r.len() < 40 {
        r.push(0);
    }
    f.extend_from_slice(&r);
    let db = open(f).unwrap();
    let mut it = db.iter();
    match it.next() {
        Some(Err(Error::InvalidFileSize)) => {},
        other => panic!("expected InvalidFileSize, got {:?}", other.map(|r| r.map(|_| ()))),
    }
}

#[test]
fn tail_checksum_not_validated() {
    let a_off = 64 + rec_len(1, 0, 0, false, false);
    let a_len = rec_len(0, 2, 2, false, false);
    let end = a_off + a_len;
    let mut f = header(2, end as u64);
    f.extend_from_slice(&record(b'=', 1, &[a_off as u64, a_off as u64], b"", b"", false, false));
    let mut r = record(b'+', 0, &[0], b"kk", b"vv", false, false);
    // clobber the stored tail checksum; decoding must still succeed
    let tail_pos = r.len() - round_up8(4) - 4;
    r[tail_pos] ^= 0xff;
    f.extend_from_slice(&r);
    let db = open(f).unwrap();
    let got = db.get(b"kk").unwrap().unwrap();
    assert_eq!(got.value(), b"vv");
}

#[test]
fn pointer_cycle_reported_not_hung() {
    // sentinel points at a record whose pointer leads straight back
    let sentinel_len = rec_len(1, 0, 0, false, false);
    let a_off = 64 + sentinel_len;
    let a_len = rec_len(1, 3, 3, false, false);
    let end = a_off + a_len;
    let mut f = header(2, end as u64);
    f.extend_from_slice(&record(b'=', 1, &[a_off as u64, a_off as u64], b"", b"", false, false));
    // "mmm" sends any greater probe back to itself forever
    f.extend_from_slice(&record(
        b'+',
        1,
        &[a_off as u64, a_off as u64],
        b"mmm",
        b"val",
        false,
        false,
    ));
    let db = open(f).unwrap();
    match db.get(b"zzz") {
        Err(Error::InvalidFileSize) => {},
        other => panic!("expected an error, got {:?}", other.map(|_| ())),
    }
}

#[test]
fn scan_stops_at_current_size() {
    // bytes past the recorded logical end are stale and never decoded
    let sentinel_len = rec_len(0, 0, 0, false, false);
    let a_off = 64 + sentinel_len;
    let a_len = rec_len(0, 3, 3, false, false);
    let end = a_off + a_len;
    let mut f = header(2, end as u64);
    f.extend_from_slice(&record(b'=', 0, &[], b"", b"", false, false));
    f.extend_from_slice(&record(b'+', 0, &[], b"aaa", b"one", false, false));
    // stale garbage beyond current_size
    f.extend_from_slice(&[0xee; 32]);
    let db = open(f).unwrap();
    let mut it = db.iter();
    assert!(it.next().unwrap().is_ok());
    let r = it.next().unwrap().unwrap();
    assert_eq!(r.key(), b"aaa");
    assert!(it.next().is_none());
}

#[test]
fn error_descriptions() {
    assert_eq!(Error::InvalidFileSize.description(), "invalid file size");
    assert_eq!(Error::InvalidHeaderMagic.description(), "invalid header magic");
    assert_eq!(Error::VersionMismatch.description(), "version mismatch");
    assert_eq!(Error::ChecksumMismatch.description(), "checksum mismatch");
    assert_eq!(Error::InvalidLevel.description(), "invalid level");
    assert_eq!(Error::UnknownRecordType.description(), "unknown record type");
    assert_eq!(Error::Environmental.description(), "environmental error");
}

#[test]
fn from_tag_mapping() {
    assert!(matches!(RecordType::from_tag(b'='), Some(RecordType::Dummy)));
    assert!(matches!(RecordType::from_tag(b'+'), Some(RecordType::Record)));
    assert!(matches!(RecordType::from_tag(b'-'), Some(RecordType::Delete)));
    assert!(matches!(RecordType::from_tag(b'$'), Some(RecordType::Commit)));
    assert!(RecordType::from_tag(b'!').is_none());
    assert!(RecordType::from_tag(0).is_none());
}

#[test]
fn dump_output() {
    let sentinel_len = rec_len(0, 0, 0, false, false);
    let a_off = 64 + sentinel_len;
    let a_len = rec_len(0, 2, 3, false, false);
    let d_off = a_off + a_len;
    let d_len = rec_len(0, 0, 0, false, false);
    let end = d_off + 8 + d_len;
    let mut f = header(3, end as u64);
    f.extend_from_slice(&record(b'=', 0, &[], b"", b"", false, false));
    f.extend_from_slice(&record(b'+', 0, &[0xabcd], b"hi", b"the", false, false));
    f.extend_from_slice(BLANK);
    f.extend_from_slice(&record(b'-', 0, &[a_off as u64], b"", b"", false, false));
    let db = open(f).unwrap();
    let out = db.dump().unwrap();
    let expected = format!(
        "HEADER: v=1 fl=0 num=3 sz=({end:08X}/{end:08X})\n\
         {s:08X} DUMMY kl=0 dl=0 lvl=0 ()\n\t00000000 \n\t \n\
         {a:08X} RECORD kl=2 dl=3 lvl=0 (hi)\n\t0000ABCD \n\t \n\
         {b:08X} BLANK\n\
         {d:08X} DELETE ptr={a:08x}\n",
        end = end,
        s = 64,
        a = a_off,
        b = d_off,
        d = d_off + 8,
    );
    assert_eq!(out, expected);
}

#[test]
fn record_dump_kinds() {
    let sentinel_len = rec_len(1, 0, 0, false, false);
    let c_off = 64 + sentinel_len;
    let c_len = rec_len(0, 0, 0, false, false);
    let end = c_off + c_len;
    let mut f = header(2, end as u64);
    f.extend_from_slice(&record(b'=', 1, &[0, 0], b"", b"", false, false));
    f.extend_from_slice(&record(b'$', 0, &[64], b"", b"", false, false));
    let db = open(f).unwrap();
    let mut it = db.iter();
    let s = it.next().unwrap().unwrap();
    assert!(s.dump().starts_with("DUMMY kl=0 dl=0 lvl=1 ("));
    let c = it.next().unwrap().unwrap();
    assert_eq!(c.dump(), "COMMIT start=00000040");
}

#[test]
fn non_ascii_key_display() {
    let a_len = rec_len(0, 2, 0, false, false);
    let end = 64 + a_len;
    let mut f = header(1, end as u64);
    f.extend_from_slice(&record(b'=', 0, &[], b"\xc3\xa9", b"", false, false));
    let db = open(f).unwrap();
    let mut it = db.iter();
    let r = it.next().unwrap().unwrap();
    assert!(r.dump().contains("([Utf8Error])"));
}
