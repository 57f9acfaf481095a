use fastdata_tfrecord::crc32c::get_masked_crc;
use fastdata_tfrecord::error::Error;
use fastdata_tfrecord::indexing::{IndexReader, SyncIndexWriter};
use fastdata_tfrecord::random_reader::read_indexed;
use fastdata_tfrecord::sync_reader::TfrecordReader;
use fastdata_tfrecord::sync_writer::TfrecordWriter;

/// A file of ten thousand records, record `i` being `i` copies of the
/// byte 100.
fn growing_records_file() -> Vec<u8> {
    let mut writer = TfrecordWriter::new(Vec::new());
    for i in 0..10000usize {
        writer.write(&vec![100u8; i]).unwrap();
    }
    writer.flush().unwrap();
    writer.into_inner()
}

#[test]
fn growing_records_total_bytes_and_lengths() {
    let bytes = growing_records_file();
    assert_eq!(bytes.len(), 50_155_000);
    let mut reader = TfrecordReader::new(bytes, true);
    let mut count = 0usize;
    while let Some(p) = reader.read().unwrap() {
        assert_eq!(p.len(), count);
        assert!(p.iter().all(|&b| b == 100));
        count += 1;
    }
    assert_eq!(count, 10000);
}

#[test]
fn hello_frame_layout() {
    let mut writer = TfrecordWriter::new(Vec::new());
    writer.write(b"hello").unwrap();
    let frame = writer.into_inner();
    let length_bytes = [5u8, 0, 0, 0, 0, 0, 0, 0];
    assert_eq!(&frame[0..8], &length_bytes);
    assert_eq!(&frame[8..12], &get_masked_crc(&length_bytes).to_le_bytes());
    assert_eq!(&frame[12..17], b"hello");
    assert_eq!(&frame[17..21], &get_masked_crc(b"hello").to_le_bytes());
    assert_eq!(frame.len(), 21);
}

#[test]
fn index_entries_follow_the_prefix_sums() {
    let bytes = growing_records_file();
    let reader = TfrecordReader::new(bytes, true);
    let mut index_writer = SyncIndexWriter::new(Vec::new());
    let mut indices = reader.indices();
    while let Some(entry) = indices.next() {
        let (offset, length) = entry.unwrap();
        index_writer.write_index(offset, length).unwrap();
    }
    index_writer.flush().unwrap();
    let index = IndexReader::new(index_writer.into_inner());
    assert_eq!(index.len(), 10000);
    assert_eq!(index.get(0), Some((0, 16)));
    assert_eq!(index.get(1), Some((16, 17)));
    assert_eq!(index.get(2), Some((33, 18)));
    let mut expect_offset = 0u64;
    for i in 0..10000u64 {
        let (offset, length) = index.read_index(i as usize);
        assert_eq!(offset, expect_offset);
        assert_eq!(length, 16 + i);
        expect_offset += length;
    }
    assert_eq!(index.get(10000), None);
}

#[test]
fn reversed_index_delivers_records_backwards() {
    let bytes = growing_records_file();
    let reader = TfrecordReader::new(bytes.clone(), true);
    let mut entries = Vec::new();
    let mut indices = reader.indices();
    while let Some(entry) = indices.next() {
        entries.push(entry.unwrap());
    }
    entries.reverse();
    let mut index_writer = SyncIndexWriter::new(Vec::new());
    for (offset, length) in &entries {
        index_writer.write_index(*offset, *length).unwrap();
    }
    let index = IndexReader::new(index_writer.into_inner());
    let records = read_indexed(&bytes, &index, true).unwrap();
    assert_eq!(records.len(), 10000);
    for (k, p) in records.iter().enumerate() {
        assert_eq!(p.len(), 9999 - k);
    }
}

#[test]
fn flipped_crc_byte_only_fails_with_integrity_on() {
    let mut bytes = growing_records_file();
    // The byte at offset 12 sits in the payload CRC of the first,
    // zero-length record.
    bytes[12] ^= 0xFF;
    let mut checked = TfrecordReader::new(bytes.clone(), true);
    match checked.read() {
        Err(Error::ChecksumMismatch { .. }) => {}
        other => panic!("expected a checksum mismatch, got {:?}", other),
    }
    let mut unchecked = TfrecordReader::new(bytes, false);
    let mut count = 0usize;
    while let Some(p) = unchecked.read().unwrap() {
        assert_eq!(p.len(), count);
        count += 1;
    }
    assert_eq!(count, 10000);
}
