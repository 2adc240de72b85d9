use backuppc_pool_reader::compress::{decompress, BackupPCReader};
use backuppc_pool_reader::error::PoolError;
use backuppc_pool_reader::stream::{OpenedFile, PoolStream};
use std::io::Write;

fn zlib(payload: &[u8]) -> Vec<u8> {
    let mut encoder =
        flate2::write::ZlibEncoder::new(Vec::new(), flate2::Compression::default());
    encoder.write_all(payload).unwrap();
    encoder.finish().unwrap()
}

/// A frame as the pool stores it: a zlib stream whose first byte is rewritten.
fn frame(payload: &[u8], first: u8) -> Vec<u8> {
    let mut bytes = zlib(payload);
    assert_eq!(bytes[0], 0x78);
    bytes[0] = first;
    bytes
}

fn sample(len: usize, seed: u8) -> Vec<u8> {
    (0..len).map(|i| (i as u8).wrapping_mul(31).wrapping_add(seed)).collect()
}

#[test]
fn one_frame_then_end_mark() {
    let payload = b"hello, pool".to_vec();
    let mut data = frame(&payload, 0xd6);
    assert_eq!(data[0], 0xd6);
    assert_eq!(data[1], 0x9c);
    data.push(0xb3);
    let mut reader = BackupPCReader::new(data.clone());
    assert_eq!(reader.read(1024), Ok(payload.clone()));
    assert_eq!(reader.read(1024), Ok(vec![]));
    assert_eq!(decompress(data), Ok(payload));
}

#[test]
fn first_byte_d7_stands_for_a_zlib_header_too() {
    let payload = sample(300, 3);
    assert_eq!(decompress(frame(&payload, 0xd7)), Ok(payload.clone()));
    assert_eq!(decompress(frame(&payload, 0x78)), Ok(payload));
}

#[test]
fn two_frames_read_as_one_stream() {
    let a = sample(1000, 1);
    let b = sample(700, 2);
    let mut data = frame(&a, 0xd6);
    data.extend(frame(&b, 0xd7));
    let mut whole = a.clone();
    whole.extend(&b);
    assert_eq!(decompress(data.clone()), Ok(whole.clone()));
    // one read across the boundary gives bytes of both frames
    let mut reader = BackupPCReader::new(data.clone());
    assert_eq!(reader.read(900), Ok(whole[..900].to_vec()));
    assert_eq!(reader.read(300), Ok(whole[900..1200].to_vec()));
    assert_eq!(reader.read(10_000), Ok(whole[1200..].to_vec()));
    assert_eq!(reader.read(1), Ok(vec![]));
    let mut reader = BackupPCReader::new(data);
    assert_eq!(reader.read(whole.len() + 5), Ok(whole));
}

#[test]
fn end_mark_first_gives_nothing() {
    assert_eq!(decompress(vec![0xb3]), Ok(vec![]));
    assert_eq!(decompress(vec![0xb3, 1, 2, 3]), Ok(vec![]));
    assert_eq!(decompress(vec![]), Ok(vec![]));
    let mut data = vec![0xb3];
    data.extend(frame(b"never read", 0xd6));
    let mut reader = BackupPCReader::new(data);
    assert_eq!(reader.read(16), Ok(vec![]));
}

#[test]
fn frame_of_nothing_between_frames() {
    let mut data = frame(b"ab", 0xd6);
    data.extend(frame(b"", 0xd6));
    data.extend(frame(b"cd", 0xd6));
    data.push(0xb3);
    assert_eq!(decompress(data), Ok(b"abcd".to_vec()));
}

#[test]
fn frame_that_cannot_be_read_fails() {
    assert_eq!(decompress(vec![0xd6, 0x9c, 0xff, 0xff, 0xff]), Err(PoolError::CorruptData));
    assert_eq!(decompress(vec![0x00, 0x01, 0x02]), Err(PoolError::CorruptData));
    let good = frame(&sample(64, 9), 0xd6);
    // cut short
    assert_eq!(decompress(good[..good.len() - 3].to_vec()), Err(PoolError::CorruptData));
    // the bytes before the bad frame can still be read
    let mut data = good.clone();
    data.extend([0x01, 0x02, 0x03]);
    let mut reader = BackupPCReader::new(data.clone());
    assert_eq!(reader.read(64), Ok(sample(64, 9)));
    assert_eq!(reader.read(1), Err(PoolError::CorruptData));
    let mut reader = BackupPCReader::new(data.clone());
    assert_eq!(reader.read(65), Err(PoolError::CorruptData));
    assert_eq!(decompress(data), Err(PoolError::CorruptData));
}

#[test]
fn rewind_starts_the_content_anew() {
    let mut data = frame(&sample(50, 4), 0xd6);
    data.extend(frame(&sample(50, 5), 0xd6));
    let mut reader = BackupPCReader::new(data);
    let first = reader.read(70).unwrap();
    reader.rewind();
    assert_eq!(reader.read(70), Ok(first));
    let rest = reader.read_to_end().unwrap();
    assert_eq!(rest.len(), 30);
}

#[test]
fn stream_of_a_plain_file_and_of_no_file() {
    let data = sample(100, 7);
    let mut plain = PoolStream::open(data.clone(), false);
    assert_eq!(plain.read(30), Ok(data[..30].to_vec()));
    assert_eq!(plain.read(100), Ok(data[30..].to_vec()));
    assert_eq!(plain.read(100), Ok(vec![]));
    plain.rewind();
    assert_eq!(plain.read(0), Ok(vec![]));
    assert_eq!(plain.read(1), Ok(vec![data[0]]));
    let mut none = PoolStream::empty();
    assert_eq!(none.read(10), Ok(vec![]));
    let mut packed = PoolStream::open(frame(&data, 0xd6), true);
    assert_eq!(packed.read(1000), Ok(data));
}

#[test]
fn reads_at_offsets_go_back_and_forth() {
    let content = sample(100_000, 11);
    let mut data = frame(&content[..60_000], 0xd6);
    data.extend(frame(&content[60_000..], 0xd6));
    let mut file = OpenedFile::new(PoolStream::open(data, true));
    assert_eq!(file.read_at(0, 10), Ok(content[..10].to_vec()));
    assert_eq!(file.offset, 10);
    // forward, over more than one chunk of skipping
    assert_eq!(file.read_at(70_000, 100), Ok(content[70_000..70_100].to_vec()));
    assert_eq!(file.offset, 70_100);
    // backward
    assert_eq!(file.read_at(59_990, 20), Ok(content[59_990..60_010].to_vec()));
    // the same place again
    assert_eq!(file.read_at(60_010, 5), Ok(content[60_010..60_015].to_vec()));
    // up to the end and behind it
    assert_eq!(file.read_at(99_990, 100), Ok(content[99_990..].to_vec()));
    assert_eq!(file.offset, 100_000);
    assert_eq!(file.read_at(200_000, 100), Ok(vec![]));
    assert_eq!(file.offset, 200_000);
    assert_eq!(file.read_at(5, 5), Ok(content[5..10].to_vec()));
    // a negative offset reads from the start
    assert_eq!(file.read_at(-3, 4), Ok(content[..4].to_vec()));
    assert_eq!(file.read_at(50, 0), Ok(vec![]));
    assert_eq!(file.offset, 50);
}

#[test]
fn reads_at_offsets_fail_where_the_stream_does() {
    let content = sample(100, 13);
    let mut data = frame(&content, 0xd6);
    data.extend([0x01, 0x02]);
    let mut file = OpenedFile::new(PoolStream::open(data, true));
    assert_eq!(file.read_at(90, 10), Ok(content[90..].to_vec()));
    assert_eq!(file.offset, 100);
    assert_eq!(file.read_at(90, 11), Err(PoolError::CorruptData));
    assert_eq!(file.offset, 0);
    assert_eq!(file.read_at(0, 100), Ok(content.clone()));
    assert_eq!(file.read_at(101, 0), Err(PoolError::CorruptData));
    assert_eq!(file.read_at(100, 0), Ok(vec![]));
    assert_eq!(file.read_at(i64::MAX, 1), Err(PoolError::Overflow));
    assert_eq!(file.read_at(i64::MAX - 1, 1), Err(PoolError::CorruptData));
    let mut plain = OpenedFile::new(PoolStream::open(content.clone(), false));
    assert_eq!(plain.read_at(i64::MAX - 1, 1), Ok(vec![]));
    assert_eq!(plain.read_at(i64::MAX, 1), Err(PoolError::Overflow));
    assert_eq!(plain.read_at(10, 10), Ok(content[10..20].to_vec()));
}
