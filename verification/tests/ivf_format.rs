use seqsearch::ivf::{
    check_checksum, check_data_array, check_query_dimensions, check_record, decode_records,
    encode_records, metadata_checksum, IvfError, IvfFooter, IvfHeader, IvfMetadata, RecordBits,
    IVF_FOOTER_MAGIC_LE,
};
use seqsearch::ivf_file::{check_file_readable, decode_file, encode_file, records_in_partitions};

fn bits(v: &[f32]) -> Vec<u32> {
    v.iter().map(|x| x.to_bits()).collect()
}

fn floats(b: &[u32]) -> Vec<f32> {
    b.iter().map(|x| f32::from_bits(*x)).collect()
}

fn test_metadata() -> IvfMetadata {
    let centroids = vec![
        0.0f32, 0.0, 0.0, 0.0, // Partition 0
        1.0, 1.0, 1.0, 1.0, // Partition 1
        2.0, 2.0, 2.0, 2.0, // Partition 2
    ];
    IvfMetadata::new(3, 4, bits(&centroids)).unwrap()
}

fn record(row_id: u64, v: &[f32], partition_id: u32) -> RecordBits {
    RecordBits { row_id, vector_bits: bits(v), partition_id }
}

#[test]
fn test_metadata_roundtrip() {
    let centroids = vec![
        0.0f32, 0.1, 0.2, 0.3, // Partition 0
        1.0, 1.1, 1.2, 1.3, // Partition 1
        2.0, 2.1, 2.2, 2.3, // Partition 2
    ];
    let metadata = IvfMetadata::new(3, 4, bits(&centroids)).unwrap();
    let bytes = metadata.serialize();
    assert_eq!(bytes.len(), metadata.serialized_size());
    let deserialized = IvfMetadata::deserialize(&bytes).unwrap();
    assert_eq!(deserialized.num_partitions, 3);
    assert_eq!(deserialized.dimensions, 4);
    assert_eq!(floats(&deserialized.centroid_bits), centroids);
}

#[test]
fn test_metadata_invalid_magic() {
    let bytes = b"XXXX\x01\x00\x00\x00\x03\x00\x00\x00\x04\x00\x00\x00";
    let result = IvfMetadata::deserialize(bytes);
    assert!(result.is_err());
}

#[test]
fn test_metadata_invalid_version() {
    let bytes = b"IVFM\xFF\x00\x00\x00\x03\x00\x00\x00\x04\x00\x00\x00";
    let result = IvfMetadata::deserialize(bytes);
    assert!(result.is_err());
}

#[test]
fn test_metadata_too_short() {
    let bytes = b"IVFM\x01\x00\x00\x00";
    let result = IvfMetadata::deserialize(bytes);
    assert!(result.is_err());
}

#[test]
fn test_serialized_size() {
    let centroids = vec![0.0f32; 12];
    let metadata = IvfMetadata::new(3, 4, bits(&centroids)).unwrap();
    assert_eq!(metadata.serialized_size(), 64);
}

#[test]
fn test_ivf_config() {
    let metadata = test_metadata();
    let c = floats(&metadata.centroid_bits);
    let (s, e) = metadata.centroid_range(0).unwrap();
    assert_eq!(&c[s..e], &[0.0, 0.0, 0.0, 0.0]);
    let (s, e) = metadata.centroid_range(1).unwrap();
    assert_eq!(&c[s..e], &[1.0, 1.0, 1.0, 1.0]);
    let (s, e) = metadata.centroid_range(2).unwrap();
    assert_eq!(&c[s..e], &[2.0, 2.0, 2.0, 2.0]);
    assert!(metadata.centroid_range(3).is_none());
}

#[test]
fn test_write_read_roundtrip() {
    let metadata = test_metadata();
    let records = vec![
        record(0, &[0.1, 0.1, 0.1, 0.1], 0),
        record(1, &[1.1, 1.1, 1.1, 1.1], 1),
        record(2, &[2.1, 2.1, 2.1, 2.1], 2),
    ];
    let (bytes, summary) = encode_file(&records, &metadata);
    assert_eq!(summary.num_vectors, 3);
    assert_eq!(summary.num_partitions, 3);
    assert!(check_file_readable(&bytes));
    let (read_meta, read_records) = decode_file(&bytes).unwrap();
    assert_eq!(read_records.len(), 3);
    assert_eq!(read_meta.num_partitions, metadata.num_partitions);
    assert_eq!(read_meta.dimensions, metadata.dimensions);
    assert_eq!(read_meta.centroid_bits, metadata.centroid_bits);
    assert_eq!(read_records[0].row_id, 0);
    assert_eq!(read_records[0].partition_id, 0);
    assert_eq!(read_records[1].row_id, 1);
    assert_eq!(read_records[1].partition_id, 1);
    assert_eq!(read_records[2].row_id, 2);
    assert_eq!(read_records[2].partition_id, 2);
}

#[test]
fn test_invalid_dimension() {
    let metadata = test_metadata();
    let result = check_record(3, 0, metadata.dimensions, metadata.num_partitions);
    assert!(result.is_err());
}

#[test]
fn test_invalid_partition() {
    let metadata = test_metadata();
    let result = check_record(4, 5, metadata.dimensions, metadata.num_partitions);
    assert!(result.is_err());
}

#[test]
fn record_checks_name_the_problem() {
    assert_eq!(check_record(3, 0, 4, 3), Err(IvfError::VectorDimensionMismatch { got: 3, expected: 4 }));
    assert_eq!(check_record(4, 5, 4, 3), Err(IvfError::PartitionOutOfRange { partition_id: 5, num_partitions: 3 }));
    assert_eq!(check_record(4, 2, 4, 3), Ok(()));
    assert_eq!(check_query_dimensions(3, 4), Err(IvfError::QueryDimensionMismatch { got: 3, expected: 4 }));
    assert_eq!(check_query_dimensions(4, 4), Ok(()));
}

#[test]
fn data_array_checks() {
    assert_eq!(
        check_data_array(3, 11, 3, 4),
        Err(IvfError::VectorsLengthMismatch { len: 11, expected: 12, num_vectors: 3, dimensions: 4 })
    );
    assert_eq!(check_data_array(3, 12, 2, 4), Err(IvfError::PartitionIdsLengthMismatch { len: 2, num_vectors: 3 }));
    assert_eq!(check_data_array(3, 12, 3, 4), Ok(()));
}

#[test]
fn metadata_length_mismatch() {
    assert_eq!(
        IvfMetadata::new(3, 4, vec![0u32; 11]).unwrap_err(),
        IvfError::CentroidsLengthMismatch { len: 11, expected: 12, num_partitions: 3, dimensions: 4 }
    );
}

#[test]
fn metadata_errors_are_exact() {
    assert_eq!(IvfMetadata::deserialize(b"IVFM\x01\x00\x00\x00").unwrap_err(), IvfError::MetadataHeaderTooShort { got: 8 });
    let bytes = b"IVFM\x01\x00\x00\x00\x03\x00\x00\x00\x04\x00\x00\x00";
    assert_eq!(IvfMetadata::deserialize(bytes).unwrap_err(), IvfError::MetadataTooShort { expected: 64, got: 16 });
    assert_eq!(
        IvfMetadata::deserialize(b"XXXX\x01\x00\x00\x00\x03\x00\x00\x00\x04\x00\x00\x00").unwrap_err(),
        IvfError::InvalidMetadataMagic { got: u32::from_le_bytes(*b"XXXX") }
    );
}

#[test]
fn header_and_footer_bytes() {
    let h = IvfHeader::new_current();
    let hb = h.encode();
    assert_eq!(&hb[0..4], b"IVFV");
    assert_eq!(&hb[4..8], &1u32.to_le_bytes());
    assert_eq!(&hb[8..16], &16u64.to_le_bytes());
    assert_eq!(IvfHeader::decode(&hb), Ok(h));
    let f = IvfFooter { centroids_offset: 1234, magic: IVF_FOOTER_MAGIC_LE, checksum: 77 };
    let fb = f.encode();
    assert_eq!(&fb[8..12], b"FVFI");
    assert_eq!(IvfFooter::decode(&fb), Ok(f));
    let mut bad = hb.clone();
    bad[0] = b'X';
    assert!(matches!(IvfHeader::decode(&bad), Err(IvfError::InvalidFileMagic { .. })));
}

#[test]
fn checksum_is_byte_sum() {
    assert_eq!(metadata_checksum(&[1, 2, 3, 250]), 256);
    assert_eq!(check_checksum(&[1, 2, 3], 6), Ok(()));
    assert_eq!(check_checksum(&[1, 2, 3], 7), Err(IvfError::ChecksumMismatch { expected: 6, got: 7 }));
}

#[test]
fn corrupted_file_is_refused() {
    let metadata = test_metadata();
    let records = vec![record(9, &[0.5, 0.5, 0.5, 0.5], 1)];
    let (mut bytes, _) = encode_file(&records, &metadata);
    let n = bytes.len();
    // Flip one byte of the metadata block: the checksum no longer matches.
    bytes[n - 20] ^= 1;
    assert!(check_file_readable(&bytes));
    assert!(matches!(decode_file(&bytes), Err(IvfError::ChecksumMismatch { .. })));
    assert_eq!(decode_file(&bytes[..10]).unwrap_err(), IvfError::FileTooShort { len: 10 });
}

#[test]
fn record_section_roundtrip() {
    let rs = vec![record(7, &[1.5, -2.0], 0), record(8, &[0.25, 4.0], 1)];
    let bytes = encode_records(&rs, 2);
    assert_eq!(bytes.len(), 16 + 2 * (8 + 8 + 4));
    let back = decode_records(&bytes).unwrap();
    assert_eq!(back.len(), 2);
    assert_eq!(back[1].row_id, 8);
    assert_eq!(floats(&back[0].vector_bits), vec![1.5, -2.0]);
    assert_eq!(back[1].partition_id, 1);
    assert_eq!(decode_records(&bytes[..10]).unwrap_err(), IvfError::VortexDataTooShort);
}

#[test]
fn records_in_chosen_partitions() {
    let rs: Vec<RecordBits> = (0..10u64).map(|i| record(i, &[0.0; 4], (i % 3) as u32)).collect();
    assert_eq!(records_in_partitions(&rs, &vec![0]), vec![0, 3, 6, 9]);
    assert_eq!(records_in_partitions(&rs, &vec![0, 1]), vec![0, 1, 3, 4, 6, 7, 9]);
    assert_eq!(records_in_partitions(&rs, &vec![]), Vec::<usize>::new());
}
