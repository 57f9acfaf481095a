use fastdata_tfrecord::error::Error;
use fastdata_tfrecord::sync_reader::TfrecordReader;
use fastdata_tfrecord::sync_writer::TfrecordWriter;

fn write_all(payloads: &[Vec<u8>]) -> Vec<u8> {
    let mut writer = TfrecordWriter::new(Vec::new());
    for p in payloads {
        writer.write(p).unwrap();
    }
    writer.flush().unwrap();
    writer.into_inner()
}

fn read_all(bytes: Vec<u8>, check: bool) -> Vec<Vec<u8>> {
    let mut reader = TfrecordReader::new(bytes, check);
    let mut out = Vec::new();
    loop {
        match reader.read() {
            Ok(Some(p)) => out.push(p),
            Ok(None) => return out,
            Err(e) => panic!("unexpected read error: {:?}", e),
        }
    }
}

#[test]
fn write_then_read_round_trips() {
    let payloads = vec![
        b"first".to_vec(),
        b"".to_vec(),
        b"third record, a bit longer than the others".to_vec(),
        vec![0u8; 300],
        vec![0xFFu8; 7],
    ];
    let bytes = write_all(&payloads);
    assert_eq!(read_all(bytes.clone(), true), payloads);
    assert_eq!(read_all(bytes, false), payloads);
}

#[test]
fn empty_payload_round_trips() {
    let payloads = vec![b"".to_vec()];
    let bytes = write_all(&payloads);
    assert_eq!(bytes.len(), 16);
    assert_eq!(read_all(bytes, true), payloads);
}

#[test]
fn empty_file_reads_as_empty_sequence() {
    let mut reader = TfrecordReader::new(Vec::new(), true);
    match reader.read() {
        Ok(None) => {}
        other => panic!("expected a clean end, got {:?}", other),
    }
    // Further steps keep returning a clean end.
    assert!(matches!(reader.read(), Ok(None)));
}

#[test]
fn truncation_inside_length_field_is_data_loss() {
    let bytes = write_all(&[b"payload".to_vec()]);
    // Cut inside the 8-byte length field of the record.
    let truncated = bytes[..5].to_vec();
    let mut reader = TfrecordReader::new(truncated, true);
    match reader.read() {
        Err(e) => assert!(e.is_data_loss() && !e.is_checksum_mismatch()),
        other => panic!("expected data loss, got {:?}", other),
    }
    // Once an error was returned, further steps return a clean end.
    assert!(matches!(reader.read(), Ok(None)));
}

#[test]
fn truncation_inside_payload_is_data_loss() {
    let bytes = write_all(&[b"a payload that is long enough".to_vec()]);
    let truncated = bytes[..20].to_vec();
    let mut reader = TfrecordReader::new(truncated, true);
    assert!(matches!(reader.read(), Err(Error::DataLoss(_))));
}

#[test]
fn length_byte_flip_with_integrity_on_is_checksum_mismatch() {
    let mut bytes = write_all(&[b"hello".to_vec()]);
    // Flip one byte of the 8-byte length field.
    bytes[1] ^= 0x01;
    let mut reader = TfrecordReader::new(bytes, true);
    match reader.read() {
        Err(Error::ChecksumMismatch { found, expect }) => {
            assert_ne!(found, expect);
        }
        other => panic!("expected a checksum mismatch, got {:?}", other),
    }
}

#[test]
fn position_and_read_index_track_offsets() {
    let payloads = vec![b"ab".to_vec(), b"cdef".to_vec()];
    let bytes = write_all(&payloads);
    let mut reader = TfrecordReader::new(bytes, true);
    assert_eq!(reader.position().unwrap(), 0);
    assert_eq!(reader.read_index().unwrap(), Some((0, 18)));
    assert_eq!(reader.position().unwrap(), 18);
    assert_eq!(reader.read_index().unwrap(), Some((18, 20)));
    assert_eq!(reader.read_index().unwrap(), None);
}

#[test]
fn indices_yield_offset_and_total_length() {
    let payloads = vec![b"a".to_vec(), b"bb".to_vec(), b"ccc".to_vec()];
    let bytes = write_all(&payloads);
    let reader = TfrecordReader::new(bytes, true);
    let mut indices = reader.indices();
    let mut got = Vec::new();
    while let Some(step) = indices.next() {
        got.push(step.unwrap());
    }
    assert_eq!(got, vec![(0, 17), (17, 18), (35, 19)]);
}

#[test]
fn set_check_integrity_toggles_verification() {
    let mut bytes = write_all(&[b"hello".to_vec()]);
    // Corrupt the length CRC field (bytes 8..12).
    bytes[9] ^= 0xFF;
    let mut reader = TfrecordReader::new(bytes, false);
    // With verification off the length CRC is not looked at.
    assert_eq!(reader.read().unwrap(), Some(b"hello".to_vec()));
    let mut bytes2 = write_all(&[b"hello".to_vec()]);
    bytes2[9] ^= 0xFF;
    let mut reader2 = TfrecordReader::new(bytes2, false);
    reader2.set_check_integrity(true);
    assert!(matches!(reader2.read(), Err(Error::ChecksumMismatch { .. })));
}
