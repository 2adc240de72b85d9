use backuppc_pool_reader::decode_attribut::{
    AttributeFile, BpcDigest, FileAttributes, FileType, XattrEntry,
};
use backuppc_pool_reader::reader::ByteReader;
use backuppc_pool_reader::error::PoolError;

fn varint(mut n: u64) -> Vec<u8> {
    let mut out = Vec::new();
    loop {
        let low = (n & 0x7f) as u8;
        n >>= 7;
        if n == 0 {
            out.push(low);
            return out;
        }
        out.push(low | 0x80);
    }
}

fn encode(f: &FileAttributes) -> Vec<u8> {
    let mut out = Vec::new();
    out.extend(varint(f.name.len() as u64));
    out.extend(f.name.as_bytes());
    out.extend(varint(f.xattr_num_entries));
    let code = match f.type_ {
        FileType::File => 0,
        FileType::Hardlink => 1,
        FileType::Symlink => 2,
        FileType::Chardev => 3,
        FileType::Blockdev => 4,
        FileType::Dir => 5,
        FileType::Fifo => 6,
        FileType::Unknown => 7,
        FileType::Socket => 8,
        FileType::Deleted => 10,
    };
    out.extend(varint(code));
    out.extend(varint(f.mtime));
    out.extend(varint(f.mode as u64));
    out.extend(varint(f.uid as u64));
    out.extend(varint(f.gid as u64));
    out.extend(varint(f.size));
    out.extend(varint(f.inode));
    out.extend(varint(f.compress));
    out.extend(varint(f.nlinks as u64));
    out.extend(varint(f.bpc_digest.digest.len() as u64));
    out.extend(&f.bpc_digest.digest);
    for x in &f.xattrs {
        out.extend(varint(x.key.len() as u64));
        out.extend(x.key.as_bytes());
        out.extend(varint(x.value.len() as u64));
        out.extend(x.value.as_bytes());
    }
    out
}

fn sample() -> FileAttributes {
    FileAttributes {
        name: "report.txt".to_string(),
        type_: FileType::File,
        compress: 3,
        mode: 0o644,
        uid: 1000,
        gid: 100,
        nlinks: 2,
        mtime: 1_700_000_000,
        size: 123_456_789_012,
        inode: 0x0123_4567_89ab_cdef,
        bpc_digest: BpcDigest {
            len: 16,
            digest: vec![
                0xd4, 0x1d, 0x8c, 0xd9, 0x8f, 0x00, 0xb2, 0x04, 0xe9, 0x80, 0x09, 0x98, 0xec,
                0xf8, 0x42, 0x7e,
            ],
        },
        xattr_num_entries: 2,
        xattrs: vec![
            XattrEntry { key: "user.a".to_string(), value: "1".to_string() },
            XattrEntry { key: "user.b".to_string(), value: "".to_string() },
        ],
    }
}

#[test]
fn varint_reads_seven_bits_per_byte() {
    let data = [0x00, 0x7f, 0x80, 0x01, 0xed, 0x03, 0xff, 0xff, 0x03];
    let mut r = ByteReader::new(&data);
    assert_eq!(r.read_varint(), Ok(0));
    assert_eq!(r.read_varint(), Ok(127));
    assert_eq!(r.read_varint(), Ok(128));
    assert_eq!(r.read_varint(), Ok(0o755));
    assert_eq!(r.read_varint(), Ok(0xffff));
    assert!(r.is_empty());
    assert_eq!(r.read_varint(), Err(PoolError::CorruptData));
}

#[test]
fn varint_takes_the_largest_number_and_no_more() {
    let max = [0xff, 0xff, 0xff, 0xff, 0xff, 0xff, 0xff, 0xff, 0xff, 0x01];
    assert_eq!(ByteReader::new(&max).read_varint(), Ok(u64::MAX));
    let too_large = [0xff, 0xff, 0xff, 0xff, 0xff, 0xff, 0xff, 0xff, 0xff, 0x02];
    assert_eq!(ByteReader::new(&too_large).read_varint(), Err(PoolError::CorruptData));
    let too_long = [0x80, 0x80, 0x80, 0x80, 0x80, 0x80, 0x80, 0x80, 0x80, 0x80, 0x00];
    assert_eq!(ByteReader::new(&too_long).read_varint(), Err(PoolError::CorruptData));
    let cut = [0x80, 0x80];
    let mut r = ByteReader::new(&cut);
    assert_eq!(r.read_varint(), Err(PoolError::CorruptData));
    assert_eq!(r.remaining(), 2);
    let padded = [0x81, 0x80, 0x00];
    assert_eq!(ByteReader::new(&padded).read_varint(), Ok(1));
}

#[test]
fn varint_narrowing_fails_with_overflow() {
    let v = varint(0x1_0000);
    let mut r = ByteReader::new(&v);
    assert_eq!(r.read_varint_u16(), Err(PoolError::Overflow));
    assert_eq!(r.remaining(), v.len());
    assert_eq!(r.read_varint_u32(), Ok(0x1_0000));
    let v = varint(0xffff);
    assert_eq!(ByteReader::new(&v).read_varint_u16(), Ok(0xffff));
    let v = varint(0x1_0000_0000);
    assert_eq!(ByteReader::new(&v).read_varint_u32(), Err(PoolError::Overflow));
    assert_eq!(ByteReader::new(&v).read_varint_usize(), Ok(0x1_0000_0000));
    let v = varint(0xffff_ffff);
    assert_eq!(ByteReader::new(&v).read_varint_u32(), Ok(0xffff_ffff));
}

#[test]
fn big_endian_number_and_exact_reads() {
    let data = [0x17, 0x56, 0x53, 0x53, 0x01, 0x02];
    let mut r = ByteReader::new(&data);
    assert_eq!(r.read_u32_be(), Ok(0x1756_5353));
    assert_eq!(r.read_exact(3), Err(PoolError::CorruptData));
    assert_eq!(r.read_exact(2), Ok(vec![1, 2]));
    assert_eq!(r.read_u32_be(), Err(PoolError::CorruptData));
    assert_eq!(r.read_exact(0), Ok(vec![]));
    let other = [0x01, 0x02, 0x03, 0x04];
    assert_eq!(ByteReader::new(&other).read_u32_be(), Ok(0x0102_0304));
}

#[test]
fn record_with_every_field_reads_back() {
    let f = sample();
    let mut data = encode(&f);
    data.push(0xaa);
    let mut r = ByteReader::new(&data);
    assert_eq!(FileAttributes::read_from(&mut r), Ok(f));
    assert_eq!(r.remaining(), 1);
}

#[test]
fn record_of_a_plain_directory() {
    let data = [0x01, b'f', 0x00, 0x05, 0x01, 0xed, 0x03, 0, 0, 0, 0, 0, 0, 0];
    let mut r = ByteReader::new(&data);
    let f = FileAttributes::read_from(&mut r).unwrap();
    assert_eq!(f.name, "f");
    assert_eq!(f.type_, FileType::Dir);
    assert_eq!(f.mtime, 1);
    assert_eq!(f.mode, 0o755);
    assert_eq!(f.bpc_digest, BpcDigest { len: 0, digest: vec![] });
    assert!(f.xattrs.is_empty());
    assert!(r.is_empty());
}

#[test]
fn record_type_codes() {
    let kinds = [
        (0, FileType::File),
        (1, FileType::Hardlink),
        (2, FileType::Symlink),
        (3, FileType::Chardev),
        (4, FileType::Blockdev),
        (5, FileType::Dir),
        (6, FileType::Fifo),
        (7, FileType::Unknown),
        (8, FileType::Socket),
        (9, FileType::Unknown),
        (10, FileType::Deleted),
    ];
    for (code, kind) in kinds {
        let data = [0x01, b'x', 0x00, code, 0, 0, 0, 0, 0, 0, 0, 0, 0];
        let f = FileAttributes::read_from(&mut ByteReader::new(&data)).unwrap();
        assert_eq!(f.type_, kind);
    }
    let data = [0x01, b'x', 0x00, 11, 0, 0, 0, 0, 0, 0, 0, 0, 0];
    let mut r = ByteReader::new(&data);
    assert_eq!(FileAttributes::read_from(&mut r), Err(PoolError::CorruptData));
    assert_eq!(r.remaining(), data.len());
}

#[test]
fn record_errors_name_the_first_bad_field() {
    let empty: [u8; 0] = [];
    assert_eq!(
        FileAttributes::read_from(&mut ByteReader::new(&empty)),
        Err(PoolError::CorruptData)
    );
    // the name is longer than what is left
    let data = [0x05, b'a', b'b'];
    assert_eq!(
        FileAttributes::read_from(&mut ByteReader::new(&data)),
        Err(PoolError::CorruptData)
    );
    // the mode does not fit 16 bits
    let mut f = sample();
    let good = encode(&f);
    let mut data = vec![0x01, b'x', 0x00, 0x00, 0x00];
    data.extend(varint(0x1_0000));
    data.extend([0, 0, 0, 0, 0, 0, 0]);
    assert_eq!(
        FileAttributes::read_from(&mut ByteReader::new(&data)),
        Err(PoolError::Overflow)
    );
    // cut in the middle of the record
    for cut in 0..good.len() {
        assert_eq!(
            FileAttributes::read_from(&mut ByteReader::new(&good[..cut])),
            Err(PoolError::CorruptData)
        );
    }
    // more attributes announced than present
    f.xattr_num_entries = 3;
    let data = encode(&f);
    assert_eq!(
        FileAttributes::read_from(&mut ByteReader::new(&data)),
        Err(PoolError::CorruptData)
    );
}

#[test]
fn record_text_that_is_not_utf8_reads_as_empty() {
    let data = [0x02, 0xff, 0xfe, 0x01, 0x00, 0, 0, 0, 0, 0, 0, 0, 0, 0, 0x01, 0xc3, 0x02, b'o', b'k'];
    let f = FileAttributes::read_from(&mut ByteReader::new(&data)).unwrap();
    assert_eq!(f.name, "");
    assert_eq!(f.xattrs, vec![XattrEntry { key: "".to_string(), value: "ok".to_string() }]);
    let data = [0x02, 0xc3, 0xa9, 0x00, 0x00, 0, 0, 0, 0, 0, 0, 0, 0, 0];
    let f = FileAttributes::read_from(&mut ByteReader::new(&data)).unwrap();
    assert_eq!(f.name, "é");
}

#[test]
fn record_digest_is_as_long_as_its_length_field() {
    for len in [0usize, 2, 16, 20, 64] {
        let mut f = sample();
        f.bpc_digest = BpcDigest { len: len as u64, digest: vec![7; len] };
        let data = encode(&f);
        let g = FileAttributes::read_from(&mut ByteReader::new(&data)).unwrap();
        assert_eq!(g.bpc_digest.digest.len(), len);
        assert_eq!(g.bpc_digest.len, len as u64);
    }
}

#[test]
fn record_digest_of_no_length_that_a_digest_has_fails() {
    for len in [1usize, 65, 66, 200, 70_000] {
        let mut f = sample();
        f.bpc_digest = BpcDigest { len: len as u64, digest: vec![7; len] };
        let data = encode(&f);
        let mut r = ByteReader::new(&data);
        assert_eq!(FileAttributes::read_from(&mut r), Err(PoolError::CorruptData), "{len}");
        assert_eq!(r.remaining(), data.len());
    }
    // a record with a length field of one, followed by one byte
    let data = [0x01, b'x', 0x00, 0x00, 0, 0, 0, 0, 0, 0, 0, 0, 0x01, 0xaa];
    assert_eq!(
        FileAttributes::read_from(&mut ByteReader::new(&data)),
        Err(PoolError::CorruptData)
    );
    // the file decoder stops there and keeps what came before
    let good = encode(&sample());
    let mut file = vec![0x17, 0x56, 0x53, 0x53];
    file.extend(&good);
    file.extend(data);
    let read = AttributeFile::read_from(&mut ByteReader::new(&file)).unwrap();
    assert_eq!(read.attributes, vec![sample()]);
}

#[test]
fn attribute_file_with_one_directory() {
    let data = [
        0x17, 0x56, 0x53, 0x53, 0x01, b'f', 0x00, 0x05, 0x01, 0xed, 0x03, 0, 0, 0, 0, 0, 0, 0,
    ];
    let file = AttributeFile::read_from(&mut ByteReader::new(&data)).unwrap();
    assert_eq!(file.attributes.len(), 1);
    assert_eq!(file.attributes[0].name, "f");
    assert_eq!(file.attributes[0].type_, FileType::Dir);
    assert_eq!(file.attributes[0].mode, 0o755);
    assert_eq!(file.attributes[0].mtime, 1);
}

#[test]
fn attribute_file_needs_its_magic_number() {
    let data = [0x17, 0x56, 0x53, 0x54, 0x01, b'f'];
    let mut r = ByteReader::new(&data);
    assert_eq!(AttributeFile::read_from(&mut r).err(), Some(PoolError::InvalidMagic));
    assert_eq!(r.remaining(), data.len());
    let short = [0x17, 0x56, 0x53];
    assert_eq!(
        AttributeFile::read_from(&mut ByteReader::new(&short)).err(),
        Some(PoolError::InvalidMagic)
    );
    let only = [0x17, 0x56, 0x53, 0x53];
    let file = AttributeFile::read_from(&mut ByteReader::new(&only)).unwrap();
    assert!(file.attributes.is_empty());
}

#[test]
fn attribute_file_keeps_the_records_before_a_bad_one() {
    let a = sample();
    let mut b = sample();
    b.name = "second".to_string();
    let mut data = vec![0x17, 0x56, 0x53, 0x53];
    data.extend(encode(&a));
    data.extend(encode(&b));
    let whole = data.len();
    data.extend(&encode(&a)[..7]);
    let mut r = ByteReader::new(&data);
    let file = AttributeFile::read_from(&mut r).unwrap();
    assert_eq!(file.attributes, vec![a.clone(), b.clone()]);
    assert_eq!(r.remaining(), data.len() - whole);
    let mut r = ByteReader::new(&data[..whole]);
    let file = AttributeFile::read_from(&mut r).unwrap();
    assert_eq!(file.attributes, vec![a, b]);
    assert!(r.is_empty());
}

#[test]
fn directories_for_hosts_and_shares() {
    let d = FileAttributes::from_host("pc-1".to_string());
    assert_eq!(d.name, "pc-1");
    assert_eq!(d.type_, FileType::Dir);
    assert_eq!(d.mtime, 0);
    assert_eq!(d.bpc_digest, BpcDigest { len: 0, digest: vec![] });
    assert_eq!(FileAttributes::from_share("home".to_string()), FileAttributes {
        name: "home".to_string(),
        ..d.clone()
    });
    assert_eq!(d.copy(), d);
    assert_eq!(sample().copy(), sample());
}
