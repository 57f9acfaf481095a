use fastdata_tfrecord::chunk_reader::{read_chunked, read_stream_record, AsyncBufReader, Buffer, ChunkReorderer};
use fastdata_tfrecord::error::Error;
use fastdata_tfrecord::indexing::{IndexReader, SyncIndexWriter};
use fastdata_tfrecord::multi_files::read_files_interleaved;
use fastdata_tfrecord::random_reader::read_indexed;
use fastdata_tfrecord::single_file::read_file_records;
use fastdata_tfrecord::sync_reader::TfrecordReader;
use fastdata_tfrecord::sync_writer::TfrecordWriter;

fn write_all(payloads: &[Vec<u8>]) -> Vec<u8> {
    let mut writer = TfrecordWriter::new(Vec::new());
    for p in payloads {
        writer.write(p).unwrap();
    }
    writer.into_inner()
}

fn sync_read_all(bytes: Vec<u8>) -> Vec<Vec<u8>> {
    let mut reader = TfrecordReader::new(bytes, true);
    let mut out = Vec::new();
    while let Some(p) = reader.read().unwrap() {
        out.push(p);
    }
    out
}

fn index_of(bytes: &[u8]) -> IndexReader {
    let reader = TfrecordReader::new(bytes.to_vec(), true);
    let mut index_writer = SyncIndexWriter::new(Vec::new());
    let mut indices = reader.indices();
    while let Some(entry) = indices.next() {
        let (offset, length) = entry.unwrap();
        index_writer.write_index(offset, length).unwrap();
    }
    IndexReader::new(index_writer.into_inner())
}

#[test]
fn all_modes_produce_identical_sequences() {
    let payloads = vec![
        b"alpha".to_vec(),
        b"".to_vec(),
        vec![7u8; 100],
        b"delta".to_vec(),
        vec![0u8; 33],
    ];
    let bytes = write_all(&payloads);

    // Streaming reader.
    assert_eq!(sync_read_all(bytes.clone()), payloads);

    // Depth-one engine.
    assert_eq!(read_file_records(&bytes, true).unwrap(), payloads);

    // Interleaved engine over one file.
    let files = vec![bytes.clone()];
    let tagged = read_files_interleaved(&files, 4, true).unwrap();
    let only: Vec<Vec<u8>> = tagged.into_iter().map(|(_, p)| p).collect();
    assert_eq!(only, payloads);

    // Indexed random reader, in index order.
    let index = index_of(&bytes);
    assert_eq!(read_indexed(&bytes, &index, true).unwrap(), payloads);

    // Whole-file chunk reader feeding the frame parser.
    assert_eq!(read_chunked(&bytes, 7, true).unwrap(), payloads);
    assert_eq!(read_chunked(&bytes, 1024, true).unwrap(), payloads);
}

#[test]
fn depth_one_short_file_ends_cleanly() {
    let bytes = write_all(&[b"abc".to_vec(), b"defg".to_vec()]);
    // Cut inside the second record's payload: the engine delivers the
    // first record and treats the short read as a clean end.
    let truncated = bytes[..bytes.len() - 6].to_vec();
    let records = read_file_records(&truncated, true).unwrap();
    assert_eq!(records, vec![b"abc".to_vec()]);
}

#[test]
fn depth_one_detects_corrupt_payload() {
    let mut bytes = write_all(&[b"abc".to_vec()]);
    bytes[12] ^= 0x10;  // a payload byte
    match read_file_records(&bytes, true) {
        Err(Error::ChecksumMismatch { .. }) => {}
        other => panic!("expected a checksum mismatch, got {:?}", other),
    }
    // With verification off the corrupt payload is delivered as read:
    // the first byte 0x61 came back with bit 4 flipped.
    let records = read_file_records(&bytes, false).unwrap();
    assert_eq!(records, vec![b"qbc".to_vec()]);
}

#[test]
fn two_files_interleaved_preserve_per_file_order() {
    let payloads = vec![b"a".to_vec(), b"bb".to_vec(), b"ccc".to_vec()];
    let file = write_all(&payloads);
    let files = vec![file.clone(), file];
    let tagged = read_files_interleaved(&files, 2, true).unwrap();
    assert_eq!(tagged.len(), 6);
    for fid in 0..2usize {
        let per_file: Vec<Vec<u8>> = tagged
            .iter()
            .filter(|(f, _)| *f == fid)
            .map(|(_, p)| p.clone())
            .collect();
        assert_eq!(per_file, payloads);
    }
}

#[test]
fn interleaved_many_files_varied_sizes() {
    let mut files = Vec::new();
    let mut expected = Vec::new();
    for f in 0..7usize {
        let payloads: Vec<Vec<u8>> = (0..f).map(|i| vec![f as u8; i]).collect();
        files.push(write_all(&payloads));
        expected.push(payloads);
    }
    let tagged = read_files_interleaved(&files, 3, true).unwrap();
    for fid in 0..7usize {
        let per_file: Vec<Vec<u8>> = tagged
            .iter()
            .filter(|(f, _)| *f == fid)
            .map(|(_, p)| p.clone())
            .collect();
        assert_eq!(per_file, expected[fid]);
    }
}

#[test]
fn chunk_reorderer_releases_in_offset_order() {
    let mut reorder = ChunkReorderer::new(4);
    reorder.push(Buffer { data: vec![8, 9], offset: 8 });
    reorder.push(Buffer { data: vec![4, 5, 6, 7], offset: 4 });
    assert!(reorder.pop_ready().is_none());
    reorder.push(Buffer { data: vec![0, 1, 2, 3], offset: 0 });
    let first = reorder.pop_ready().unwrap();
    assert_eq!((first.offset, first.data), (0, vec![0, 1, 2, 3]));
    let second = reorder.pop_ready().unwrap();
    assert_eq!((second.offset, second.data), (4, vec![4, 5, 6, 7]));
    let third = reorder.pop_ready().unwrap();
    assert_eq!((third.offset, third.data), (8, vec![8, 9]));
    assert!(reorder.pop_ready().is_none());
}

#[test]
fn buffered_reader_crosses_chunk_boundaries() {
    let chunks = vec![
        Buffer { data: vec![1, 2, 3], offset: 0 },
        Buffer { data: vec![], offset: 3 },
        Buffer { data: vec![4, 5], offset: 3 },
        Buffer { data: vec![6], offset: 5 },
    ];
    let mut reader = AsyncBufReader::new(chunks);
    assert_eq!(reader.read(2), vec![1, 2]);
    assert_eq!(reader.read(3), vec![3, 4, 5]);
    assert_eq!(reader.read(4), vec![6]);
    assert_eq!(reader.read(4), Vec::<u8>::new());
}

#[test]
fn out_of_order_chunks_parse_as_the_same_stream() {
    let payloads = vec![b"one".to_vec(), b"two two".to_vec(), b"three three three".to_vec()];
    let bytes = write_all(&payloads);
    // Cut the file into 5-byte chunks and hand them over back to front.
    let chunk_size = 5u64;
    let mut arrived: Vec<Buffer> = bytes
        .chunks(chunk_size as usize)
        .enumerate()
        .map(|(i, c)| Buffer { data: c.to_vec(), offset: i as u64 * chunk_size })
        .collect();
    arrived.reverse();
    let mut reorder = ChunkReorderer::new(chunk_size);
    let mut ordered = Vec::new();
    for chunk in arrived {
        reorder.push(chunk);
        while let Some(ready) = reorder.pop_ready() {
            ordered.push(ready);
        }
    }
    assert_eq!(ordered.len(), (bytes.len() + 4) / 5);
    let mut stream = AsyncBufReader::new(ordered);
    let mut records = Vec::new();
    while let Some(p) = read_stream_record(&mut stream, true).unwrap() {
        records.push(p);
    }
    assert_eq!(records, payloads);
}

#[test]
fn write_many_equals_one_by_one() {
    let payloads = vec![b"a".to_vec(), b"bb".to_vec(), b"".to_vec()];
    let mut writer = TfrecordWriter::new(Vec::new());
    writer.write_many(&payloads).unwrap();
    assert_eq!(writer.into_inner(), write_all(&payloads));
}

#[test]
fn chunked_reader_detects_corruption() {
    let mut bytes = write_all(&[b"hello".to_vec(), b"world".to_vec()]);
    bytes[0] ^= 0x02;  // corrupt the first length field
    match read_chunked(&bytes, 8, true) {
        Err(Error::ChecksumMismatch { .. }) => {}
        other => panic!("expected a checksum mismatch, got {:?}", other),
    }
}

#[test]
fn chunked_reader_truncation_is_data_loss() {
    let bytes = write_all(&[b"hello".to_vec()]);
    let truncated = bytes[..bytes.len() - 2].to_vec();
    match read_chunked(&truncated, 4, true) {
        Err(Error::DataLoss(_)) => {}
        other => panic!("expected data loss, got {:?}", other),
    }
}

#[test]
fn indexed_reader_rejects_entry_outside_file() {
    let bytes = write_all(&[b"hello".to_vec()]);
    let mut index_writer = SyncIndexWriter::new(Vec::new());
    index_writer.write_index(0, 1000).unwrap();
    let index = IndexReader::new(index_writer.into_inner());
    match read_indexed(&bytes, &index, true) {
        Err(Error::DataLoss(_)) => {}
        other => panic!("expected data loss, got {:?}", other),
    }
}
