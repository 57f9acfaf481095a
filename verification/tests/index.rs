use fastdata_tfrecord::error::Error;
use fastdata_tfrecord::indexing::{build_index, read_index_entry, IndexReader, SyncIndexWriter};
use fastdata_tfrecord::sync_writer::TfrecordWriter;

fn sample_index() -> IndexReader {
    let mut writer = SyncIndexWriter::new(Vec::new());
    writer.write_index(0, 16).unwrap();
    writer.write_index(16, 17).unwrap();
    writer.write_index(33, 100).unwrap();
    writer.flush().unwrap();
    IndexReader::new(writer.into_inner())
}

#[test]
fn index_writer_emits_fixed_width_entries() {
    let mut writer = SyncIndexWriter::new(Vec::new());
    writer.write_index(0x0102_0304_0506_0708, 0x1112_1314_1516_1718).unwrap();
    let bytes = writer.into_inner();
    assert_eq!(bytes.len(), 16);
    assert_eq!(&bytes[0..8], &[0x08, 0x07, 0x06, 0x05, 0x04, 0x03, 0x02, 0x01]);
    assert_eq!(&bytes[8..16], &[0x18, 0x17, 0x16, 0x15, 0x14, 0x13, 0x12, 0x11]);
}

#[test]
fn index_reader_reads_back_entries() {
    let index = sample_index();
    assert_eq!(index.len(), 3);
    assert_eq!(index.read_index(0), (0, 16));
    assert_eq!(index.read_index(1), (16, 17));
    assert_eq!(index.read_index(2), (33, 100));
    assert_eq!(index.get(2), Some((33, 100)));
    assert_eq!(index.get(3), None);
}

#[test]
fn index_iterators_walk_all_entries() {
    let index = sample_index();
    let mut iter = index.iter();
    let mut got = Vec::new();
    while let Some(e) = iter.next() {
        got.push(e);
    }
    assert_eq!(got, vec![(0, 16), (16, 17), (33, 100)]);

    let mut into_iter = index.into_iter();
    let mut got2 = Vec::new();
    while let Some(e) = into_iter.next() {
        got2.push(e);
    }
    assert_eq!(got2, vec![(0, 16), (16, 17), (33, 100)]);
}

#[test]
fn build_index_lists_every_record() {
    let mut writer = TfrecordWriter::new(Vec::new());
    writer.write_many(&vec![b"a".to_vec(), b"bb".to_vec(), b"ccc".to_vec()]).unwrap();
    let index_bytes = build_index(writer.into_inner(), true).unwrap();
    let index = IndexReader::new(index_bytes);
    assert_eq!(index.len(), 3);
    assert_eq!(index.read_index(0), (0, 17));
    assert_eq!(index.read_index(1), (17, 18));
    assert_eq!(index.read_index(2), (35, 19));
}

#[test]
fn build_index_rejects_truncated_files() {
    let mut writer = TfrecordWriter::new(Vec::new());
    writer.write(b"payload").unwrap();
    let mut bytes = writer.into_inner();
    bytes.truncate(bytes.len() - 1);
    match build_index(bytes, true) {
        Err(Error::DataLoss(_)) => {}
        other => panic!("expected data loss, got {:?}", other),
    }
}

#[test]
fn index_entry_parsing_matches_reader() {
    let mut writer = SyncIndexWriter::new(Vec::new());
    writer.write_index(5, 21).unwrap();
    writer.write_index(26, 17).unwrap();
    let bytes = writer.into_inner();
    assert_eq!(read_index_entry(&bytes, 0), Some((5, 21)));
    assert_eq!(read_index_entry(&bytes, 1), Some((26, 17)));
    assert_eq!(read_index_entry(&bytes, 2), None);
    // Trailing bytes short of a whole entry are ignored.
    let index = IndexReader::new(bytes[..20].to_vec());
    assert_eq!(index.len(), 1);
    assert_eq!(read_index_entry(&bytes[..20], 1), None);
}
