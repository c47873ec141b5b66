//! The IVF container format: centroid tables, the metadata block that
//! stores them, the file header and footer, the metadata checksum and the
//! record section, with their encoders, decoders and checks.
//!
//! Centroid and vector components are IEEE-754 single-precision values; this
//! module holds each as its 32-bit pattern, which is exactly what the format
//! stores (little-endian).
use vstd::prelude::*;
use vstd::bytes::{
    lemma_auto_spec_u32_to_from_le_bytes, lemma_auto_spec_u64_to_from_le_bytes,
    spec_u32_to_le_bytes, spec_u64_to_le_bytes,
};
use crate::le_bytes::{
    le32_all, le64_all, lemma_le32_all, lemma_le64_all, push_le32, push_le64, read_le32,
    read_le64, u32_at, u64_at,
};

verus! {

/// Magic bytes of the metadata block, "IVFM", read as a little-endian value.
pub const IVF_METADATA_MAGIC_LE: u32 = 0x4D46_5649;

/// Version of the metadata format.
pub const IVF_METADATA_VERSION: u32 = 1;

/// Magic bytes of the file header, "IVFV", read as a little-endian value.
pub const IVF_FILE_MAGIC_LE: u32 = 0x5646_5649;

/// Magic bytes of the file footer, "FVFI", read as a little-endian value.
pub const IVF_FOOTER_MAGIC_LE: u32 = 0x4946_5646;

/// Version of the file format.
pub const IVF_FILE_VERSION: u32 = 1;

/// Size of the file header in bytes.
pub const IVF_HEADER_SIZE: usize = 16;

/// Size of the file footer in bytes.
pub const IVF_FOOTER_SIZE: usize = 16;

/// Errors of the IVF format and its checks.
#[allow(inconsistent_fields)]
#[derive(Debug, Clone, Copy, PartialEq, Eq, Structural)]
pub enum IvfError {
    /// The centroid table does not have `num_partitions * dimensions` values.
    CentroidsLengthMismatch { len: usize, expected: usize, num_partitions: u32, dimensions: u32 },
    /// A query vector has the wrong number of dimensions.
    QueryDimensionMismatch { got: usize, expected: u32 },
    /// A vector to be added has the wrong number of dimensions.
    VectorDimensionMismatch { got: usize, expected: u32 },
    /// A partition id is not below the number of partitions.
    PartitionOutOfRange { partition_id: u32, num_partitions: u32 },
    /// The flat vector buffer does not hold `num_vectors * dimensions` values.
    VectorsLengthMismatch { len: usize, expected: usize, num_vectors: usize, dimensions: usize },
    /// There is not one partition id per vector.
    PartitionIdsLengthMismatch { len: usize, num_vectors: usize },
    /// The metadata block is shorter than its fixed 16-byte part.
    MetadataHeaderTooShort { got: usize },
    /// The metadata block is shorter than its centroid table requires.
    MetadataTooShort { expected: usize, got: usize },
    /// The metadata block does not start with "IVFM" (the four bytes found,
    /// read little-endian).
    InvalidMetadataMagic { got: u32 },
    /// The metadata version is not supported.
    UnsupportedMetadataVersion { got: u32 },
    /// The file does not start with "IVFV" (the four bytes found, read
    /// little-endian).
    InvalidFileMagic { got: u32 },
    /// The file version is not supported.
    UnsupportedFileVersion { got: u32 },
    /// The footer magic is not "FVFI" (the four bytes found, read
    /// little-endian).
    InvalidFooterMagic { got: u32 },
    /// The stored checksum differs from the one computed over the metadata.
    ChecksumMismatch { expected: u32, got: u32 },
    /// The record section is shorter than its 16-byte count fields.
    VortexDataTooShort,
    /// The file is shorter than its 16-byte header.
    FileTooShort { len: usize },
}

/// The centroids of an IVF index: `num_partitions` vectors of `dimensions`
/// components each, stored row after row as 32-bit patterns.
#[derive(Debug, Clone)]
pub struct IvfMetadata {
    /// Number of partitions (K in K-means).
    pub num_partitions: u32,
    /// Vector dimensions.
    pub dimensions: u32,
    /// Centroid components, partition after partition.
    pub centroid_bits: Vec<u32>,
}

/// The centroid table has one value per partition and dimension.
pub open spec fn centroids_wf(c: IvfMetadata) -> bool {
    c.centroid_bits.len() == c.num_partitions * c.dimensions
}

/// The metadata block of a centroid table: "IVFM", the version, the
/// partition count, the dimension count, then the components.
pub open spec fn metadata_encoding(num_partitions: u32, dimensions: u32, bits: Seq<u32>) -> Seq<u8> {
    spec_u32_to_le_bytes(IVF_METADATA_MAGIC_LE) + spec_u32_to_le_bytes(IVF_METADATA_VERSION)
        + spec_u32_to_le_bytes(num_partitions) + spec_u32_to_le_bytes(dimensions) + le32_all(bits)
}

/// Number of components that a metadata block announces.
pub open spec fn announced_count(bytes: Seq<u8>) -> int {
    u32_at(bytes, 8) * u32_at(bytes, 12)
}

/// The metadata block's fixed part is well formed and announces a table
/// whose size is representable.
pub open spec fn metadata_header_ok(bytes: Seq<u8>) -> bool {
    &&& bytes.len() >= 16
    &&& u32_at(bytes, 0) == IVF_METADATA_MAGIC_LE
    &&& u32_at(bytes, 4) == IVF_METADATA_VERSION
}

/// What decoding a metadata block gives: the partition count, dimension
/// count and components, or the first problem found.
pub open spec fn metadata_outcome(bytes: Seq<u8>) -> Result<(u32, u32, Seq<u32>), IvfError> {
    if bytes.len() < 16 {
        Err(IvfError::MetadataHeaderTooShort { got: bytes.len() as usize })
    } else if u32_at(bytes, 0) != IVF_METADATA_MAGIC_LE {
        Err(IvfError::InvalidMetadataMagic { got: u32_at(bytes, 0) })
    } else if u32_at(bytes, 4) != IVF_METADATA_VERSION {
        Err(IvfError::UnsupportedMetadataVersion { got: u32_at(bytes, 4) })
    } else if bytes.len() < 16 + 4 * announced_count(bytes) {
        Err(
            IvfError::MetadataTooShort {
                expected: (16 + 4 * announced_count(bytes)) as usize,
                got: bytes.len() as usize,
            },
        )
    } else {
        Ok(
            (
                u32_at(bytes, 8),
                u32_at(bytes, 12),
                Seq::new(announced_count(bytes) as nat, |i: int| u32_at(bytes, 16 + 4 * i)),
            ),
        )
    }
}

impl IvfMetadata {
    /// A centroid table, provided it has one value per partition and
    /// dimension.
    pub fn new(num_partitions: u32, dimensions: u32, centroid_bits: Vec<u32>) -> (res: Result<
        IvfMetadata,
        IvfError,
    >)
        requires
            num_partitions * dimensions <= usize::MAX,
        ensures
            centroid_bits.len() == num_partitions * dimensions ==> (res matches Ok(c) && c.num_partitions
                == num_partitions && c.dimensions == dimensions && c.centroid_bits@ == centroid_bits@),
            centroid_bits.len() != num_partitions * dimensions ==> res == Err::<IvfMetadata, IvfError>(
                IvfError::CentroidsLengthMismatch {
                    len: centroid_bits.len(),
                    expected: (num_partitions * dimensions) as usize,
                    num_partitions,
                    dimensions,
                },
            ),
    {
        let expected_len = (num_partitions as usize) * (dimensions as usize);
        if centroid_bits.len() != expected_len {
            return Err(
                IvfError::CentroidsLengthMismatch {
                    len: centroid_bits.len(),
                    expected: expected_len,
                    num_partitions,
                    dimensions,
                },
            );
        }
        Ok(IvfMetadata { num_partitions, dimensions, centroid_bits })
    }

    /// The index range of the centroid of `partition` within the table, or
    /// nothing for a partition out of range.
    pub fn centroid_range(&self, partition: u32) -> (r: Option<(usize, usize)>)
        requires
            centroids_wf(*self),
        ensures
            partition >= self.num_partitions ==> r is None,
            partition < self.num_partitions ==> r == Some(
                (
                    (partition * self.dimensions) as usize,
                    ((partition + 1) * self.dimensions) as usize,
                ),
            ),
            r matches Some((s, e)) ==> s <= e <= self.centroid_bits.len(),
    {
        if partition >= self.num_partitions {
            return None;
        }
        proof {
            assert(partition * self.dimensions + self.dimensions <= self.num_partitions
                * self.dimensions) by (nonlinear_arith)
                requires
                    partition < self.num_partitions,
            ;
        }
        let start = (partition as usize) * (self.dimensions as usize);
        let end = start + (self.dimensions as usize);
        proof {
            assert((partition + 1) * self.dimensions == partition * self.dimensions
                + self.dimensions) by (nonlinear_arith);
        }
        Some((start, end))
    }

    /// Size of the metadata block of this table in bytes.
    pub fn serialized_size(&self) -> (r: usize)
        requires
            16 + 4 * self.centroid_bits.len() <= usize::MAX,
        ensures
            r == 16 + 4 * self.centroid_bits.len(),
    {
        4 + 4 + 4 + 4 + (self.centroid_bits.len() * 4)
    }

    /// The metadata block of this table.
    pub fn serialize(&self) -> (bytes: Vec<u8>)
        ensures
            bytes@ == metadata_encoding(self.num_partitions, self.dimensions, self.centroid_bits@),
    {
        let mut bytes: Vec<u8> = Vec::new();
        push_le32(&mut bytes, IVF_METADATA_MAGIC_LE);
        push_le32(&mut bytes, IVF_METADATA_VERSION);
        push_le32(&mut bytes, self.num_partitions);
        push_le32(&mut bytes, self.dimensions);
        let ghost prefix = bytes@;
        let mut i: usize = 0;
        while i < self.centroid_bits.len()
            invariant
                i <= self.centroid_bits.len(),
                bytes@ == prefix + le32_all(self.centroid_bits@.subrange(0, i as int)),
            decreases self.centroid_bits.len() - i,
        {
            push_le32(&mut bytes, self.centroid_bits[i]);
            assert(self.centroid_bits@.subrange(0, i + 1).drop_last() =~= self.centroid_bits@.subrange(
                0,
                i as int,
            ));
            i += 1;
        }
        assert(self.centroid_bits@.subrange(0, self.centroid_bits.len() as int)
            =~= self.centroid_bits@);
        bytes
    }

    /// Decode a metadata block. Bytes after the announced table are ignored.
    pub fn deserialize(bytes: &[u8]) -> (res: Result<IvfMetadata, IvfError>)
        requires
            metadata_header_ok(bytes@) ==> 16 + 4 * announced_count(bytes@) <= usize::MAX,
        ensures
            match metadata_outcome(bytes@) {
                Ok((np, d, bits)) => res matches Ok(c) && c.num_partitions == np && c.dimensions
                    == d && c.centroid_bits@ == bits,
                Err(e) => res == Err::<IvfMetadata, IvfError>(e),
            },
    {
        if bytes.len() < 16 {
            return Err(IvfError::MetadataHeaderTooShort { got: bytes.len() });
        }
        let magic = read_le32(bytes, 0);
        if magic != IVF_METADATA_MAGIC_LE {
            return Err(IvfError::InvalidMetadataMagic { got: magic });
        }
        let version = read_le32(bytes, 4);
        if version != IVF_METADATA_VERSION {
            return Err(IvfError::UnsupportedMetadataVersion { got: version });
        }
        let num_partitions = read_le32(bytes, 8);
        let dimensions = read_le32(bytes, 12);
        proof {
            assert(0 <= num_partitions * dimensions) by (nonlinear_arith);
        }
        let centroids_count = (num_partitions as usize) * (dimensions as usize);
        let expected_len = 16 + centroids_count * 4;
        if bytes.len() < expected_len {
            return Err(IvfError::MetadataTooShort { expected: expected_len, got: bytes.len() });
        }
        let mut centroid_bits: Vec<u32> = Vec::new();
        let mut i: usize = 0;
        while i < centroids_count
            invariant
                centroids_count == announced_count(bytes@),
                16 + 4 * centroids_count <= bytes.len(),
                i <= centroids_count,
                centroid_bits.len() == i,
                forall|j: int| 0 <= j < i ==> #[trigger] centroid_bits[j] == u32_at(bytes@, 16 + 4 * j),
            decreases centroids_count - i,
        {
            centroid_bits.push(read_le32(bytes, 16 + 4 * i));
            i += 1;
        }
        let c = IvfMetadata { num_partitions, dimensions, centroid_bits };
        assert(c.centroid_bits@ =~= Seq::new(
            announced_count(bytes@) as nat,
            |i: int| u32_at(bytes@, 16 + 4 * i),
        ));
        Ok(c)
    }
}

/// Decoding the metadata block of a well-formed table gives the table back.
pub proof fn lemma_metadata_roundtrip(num_partitions: u32, dimensions: u32, bits: Seq<u32>)
    requires
        bits.len() == num_partitions * dimensions,
    ensures
        metadata_outcome(metadata_encoding(num_partitions, dimensions, bits)) == Ok::<
            (u32, u32, Seq<u32>),
            IvfError,
        >((num_partitions, dimensions, bits)),
{
    lemma_auto_spec_u32_to_from_le_bytes();
    lemma_le32_all(bits);
    let bytes = metadata_encoding(num_partitions, dimensions, bits);
    let m = spec_u32_to_le_bytes(IVF_METADATA_MAGIC_LE);
    let v = spec_u32_to_le_bytes(IVF_METADATA_VERSION);
    let p = spec_u32_to_le_bytes(num_partitions);
    let d = spec_u32_to_le_bytes(dimensions);
    assert(bytes.subrange(0, 4) =~= m);
    assert(bytes.subrange(4, 8) =~= v);
    assert(bytes.subrange(8, 12) =~= p);
    assert(bytes.subrange(12, 16) =~= d);
    let decoded = Seq::new(announced_count(bytes) as nat, |i: int| u32_at(bytes, 16 + 4 * i));
    assert forall|i: int| 0 <= i < bits.len() implies decoded[i] == bits[i] by {
        assert(bytes.subrange(16 + 4 * i, 16 + 4 * i + 4) =~= le32_all(bits).subrange(
            4 * i,
            4 * i + 4,
        ));
    }
    assert(decoded =~= bits);
}

/// The metadata block of a table is as long as `serialized_size` reports:
/// 16 bytes and four per component.
pub proof fn lemma_serialized_size(num_partitions: u32, dimensions: u32, bits: Seq<u32>)
    ensures
        metadata_encoding(num_partitions, dimensions, bits).len() == 16 + 4 * bits.len(),
{
    lemma_auto_spec_u32_to_from_le_bytes();
    lemma_le32_all(bits);
}

/// A query vector must have the table's number of dimensions.
pub fn check_query_dimensions(query_len: usize, dimensions: u32) -> (res: Result<(), IvfError>)
    ensures
        query_len == dimensions ==> res is Ok,
        query_len != dimensions ==> res == Err::<(), IvfError>(
            IvfError::QueryDimensionMismatch { got: query_len, expected: dimensions },
        ),
{
    if query_len != dimensions as usize {
        return Err(IvfError::QueryDimensionMismatch { got: query_len, expected: dimensions });
    }
    Ok(())
}

/// What adding a vector to a writer requires: the table's number of
/// dimensions, and a partition id below the number of partitions.
pub open spec fn record_check(vector_len: usize, partition_id: u32, dimensions: u32, num_partitions: u32) -> Result<(), IvfError> {
    if vector_len != dimensions {
        Err(IvfError::VectorDimensionMismatch { got: vector_len, expected: dimensions })
    } else if partition_id >= num_partitions {
        Err(IvfError::PartitionOutOfRange { partition_id, num_partitions })
    } else {
        Ok(())
    }
}

/// Checks of a vector about to be added with an explicit partition.
pub fn check_record(vector_len: usize, partition_id: u32, dimensions: u32, num_partitions: u32) -> (res: Result<(), IvfError>)
    ensures
        res == record_check(vector_len, partition_id, dimensions, num_partitions),
{
    if vector_len != dimensions as usize {
        return Err(IvfError::VectorDimensionMismatch { got: vector_len, expected: dimensions });
    }
    if partition_id >= num_partitions {
        return Err(IvfError::PartitionOutOfRange { partition_id, num_partitions });
    }
    Ok(())
}

/// What building the columnar data array requires of its three inputs.
pub open spec fn data_array_check(num_vectors: usize, vectors_len: usize, partition_ids_len: usize, dimensions: usize) -> Result<(), IvfError> {
    if vectors_len != num_vectors * dimensions {
        Err(
            IvfError::VectorsLengthMismatch {
                len: vectors_len,
                expected: (num_vectors * dimensions) as usize,
                num_vectors,
                dimensions,
            },
        )
    } else if partition_ids_len != num_vectors {
        Err(IvfError::PartitionIdsLengthMismatch { len: partition_ids_len, num_vectors })
    } else {
        Ok(())
    }
}

/// Length checks of the inputs of the columnar data array: one row id,
/// `dimensions` components and one partition id per vector.
pub fn check_data_array(num_vectors: usize, vectors_len: usize, partition_ids_len: usize, dimensions: usize) -> (res: Result<(), IvfError>)
    requires
        num_vectors * dimensions <= usize::MAX,
    ensures
        res == data_array_check(num_vectors, vectors_len, partition_ids_len, dimensions),
{
    let expected = num_vectors * dimensions;
    if vectors_len != expected {
        return Err(
            IvfError::VectorsLengthMismatch {
                len: vectors_len,
                expected,
                num_vectors,
                dimensions,
            },
        );
    }
    if partition_ids_len != num_vectors {
        return Err(IvfError::PartitionIdsLengthMismatch { len: partition_ids_len, num_vectors });
    }
    Ok(())
}

/// The file header: magic, version and the offset of the record section.
#[derive(Debug, Clone, Copy, PartialEq, Eq, Structural)]
pub struct IvfHeader {
    /// The four magic bytes, read little-endian.
    pub magic: u32,
    /// Format version.
    pub version: u32,
    /// Offset of the record section from the start of the file.
    pub vortex_offset: u64,
}

/// The bytes of a header.
pub open spec fn header_encoding(h: IvfHeader) -> Seq<u8> {
    spec_u32_to_le_bytes(h.magic) + spec_u32_to_le_bytes(h.version) + spec_u64_to_le_bytes(
        h.vortex_offset,
    )
}

/// What decoding the 16 header bytes gives.
pub open spec fn header_outcome(bytes: Seq<u8>) -> Result<IvfHeader, IvfError> {
    if u32_at(bytes, 0) != IVF_FILE_MAGIC_LE {
        Err(IvfError::InvalidFileMagic { got: u32_at(bytes, 0) })
    } else if u32_at(bytes, 4) != IVF_FILE_VERSION {
        Err(IvfError::UnsupportedFileVersion { got: u32_at(bytes, 4) })
    } else {
        Ok(IvfHeader { magic: u32_at(bytes, 0), version: u32_at(bytes, 4), vortex_offset: u64_at(bytes, 8) })
    }
}

impl IvfHeader {
    /// The header of a file whose record section starts right after it.
    pub fn new_current() -> (h: IvfHeader)
        ensures
            h == (IvfHeader { magic: IVF_FILE_MAGIC_LE, version: IVF_FILE_VERSION, vortex_offset: 16 }),
    {
        IvfHeader { magic: IVF_FILE_MAGIC_LE, version: IVF_FILE_VERSION, vortex_offset: IVF_HEADER_SIZE as u64 }
    }

    /// The 16 bytes of the header.
    pub fn encode(&self) -> (bytes: Vec<u8>)
        ensures
            bytes@ == header_encoding(*self),
    {
        let mut bytes: Vec<u8> = Vec::new();
        push_le32(&mut bytes, self.magic);
        push_le32(&mut bytes, self.version);
        push_le64(&mut bytes, self.vortex_offset);
        bytes
    }

    /// Decode the 16 header bytes.
    pub fn decode(bytes: &[u8]) -> (res: Result<IvfHeader, IvfError>)
        requires
            bytes.len() == 16,
        ensures
            res == header_outcome(bytes@),
    {
        let magic = read_le32(bytes, 0);
        if magic != IVF_FILE_MAGIC_LE {
            return Err(IvfError::InvalidFileMagic { got: magic });
        }
        let version = read_le32(bytes, 4);
        if version != IVF_FILE_VERSION {
            return Err(IvfError::UnsupportedFileVersion { got: version });
        }
        let vortex_offset = read_le64(bytes, 8);
        Ok(IvfHeader { magic, version, vortex_offset })
    }
}

/// The file footer: where the metadata block starts, the magic, and the
/// checksum of the metadata block.
#[derive(Debug, Clone, Copy, PartialEq, Eq, Structural)]
pub struct IvfFooter {
    /// Offset of the metadata block from the start of the file.
    pub centroids_offset: u64,
    /// The four magic bytes, read little-endian.
    pub magic: u32,
    /// Sum of the metadata block's bytes.
    pub checksum: u32,
}

/// The bytes of a footer.
pub open spec fn footer_encoding(f: IvfFooter) -> Seq<u8> {
    spec_u64_to_le_bytes(f.centroids_offset) + spec_u32_to_le_bytes(f.magic) + spec_u32_to_le_bytes(
        f.checksum,
    )
}

/// What decoding the 16 footer bytes gives.
pub open spec fn footer_outcome(bytes: Seq<u8>) -> Result<IvfFooter, IvfError> {
    if u32_at(bytes, 8) != IVF_FOOTER_MAGIC_LE {
        Err(IvfError::InvalidFooterMagic { got: u32_at(bytes, 8) })
    } else {
        Ok(IvfFooter { centroids_offset: u64_at(bytes, 0), magic: u32_at(bytes, 8), checksum: u32_at(bytes, 12) })
    }
}

impl IvfFooter {
    /// The 16 bytes of the footer.
    pub fn encode(&self) -> (bytes: Vec<u8>)
        ensures
            bytes@ == footer_encoding(*self),
    {
        let mut bytes: Vec<u8> = Vec::new();
        push_le64(&mut bytes, self.centroids_offset);
        push_le32(&mut bytes, self.magic);
        push_le32(&mut bytes, self.checksum);
        bytes
    }

    /// Decode the 16 footer bytes.
    pub fn decode(bytes: &[u8]) -> (res: Result<IvfFooter, IvfError>)
        requires
            bytes.len() == 16,
        ensures
            res == footer_outcome(bytes@),
    {
        let centroids_offset = read_le64(bytes, 0);
        let magic = read_le32(bytes, 8);
        if magic != IVF_FOOTER_MAGIC_LE {
            return Err(IvfError::InvalidFooterMagic { got: magic });
        }
        let checksum = read_le32(bytes, 12);
        Ok(IvfFooter { centroids_offset, magic, checksum })
    }
}

/// Decoding the bytes of a header with the current magic and version gives
/// the header back.
pub proof fn lemma_header_roundtrip(h: IvfHeader)
    requires
        h.magic == IVF_FILE_MAGIC_LE,
        h.version == IVF_FILE_VERSION,
    ensures
        header_outcome(header_encoding(h)) == Ok::<IvfHeader, IvfError>(h),
{
    lemma_auto_spec_u32_to_from_le_bytes();
    lemma_auto_spec_u64_to_from_le_bytes();
    let b = header_encoding(h);
    assert(b.subrange(0, 4) =~= spec_u32_to_le_bytes(h.magic));
    assert(b.subrange(4, 8) =~= spec_u32_to_le_bytes(h.version));
    assert(b.subrange(8, 16) =~= spec_u64_to_le_bytes(h.vortex_offset));
}

/// Decoding the bytes of a footer with the current magic gives the footer
/// back.
pub proof fn lemma_footer_roundtrip(f: IvfFooter)
    requires
        f.magic == IVF_FOOTER_MAGIC_LE,
    ensures
        footer_outcome(footer_encoding(f)) == Ok::<IvfFooter, IvfError>(f),
{
    lemma_auto_spec_u32_to_from_le_bytes();
    lemma_auto_spec_u64_to_from_le_bytes();
    let b = footer_encoding(f);
    assert(b.subrange(0, 8) =~= spec_u64_to_le_bytes(f.centroids_offset));
    assert(b.subrange(8, 12) =~= spec_u32_to_le_bytes(f.magic));
    assert(b.subrange(12, 16) =~= spec_u32_to_le_bytes(f.checksum));
}

/// Sum of the first `k` bytes.
pub open spec fn byte_sum(bytes: Seq<u8>, k: int) -> nat
    decreases k,
{
    if k <= 0 {
        0
    } else {
        byte_sum(bytes, k - 1) + bytes[k - 1] as nat
    }
}

proof fn lemma_byte_sum_mono(bytes: Seq<u8>, k: int, m: int)
    requires
        k <= m,
    ensures
        byte_sum(bytes, k) <= byte_sum(bytes, m),
    decreases m - k,
{
    if k < m {
        lemma_byte_sum_mono(bytes, k, m - 1);
    }
}

/// Checksum of the metadata block: the sum of its bytes.
pub fn metadata_checksum(bytes: &[u8]) -> (r: u32)
    requires
        byte_sum(bytes@, bytes.len() as int) <= u32::MAX,
    ensures
        r == byte_sum(bytes@, bytes.len() as int),
{
    let mut total: u32 = 0;
    let mut i: usize = 0;
    while i < bytes.len()
        invariant
            i <= bytes.len(),
            total == byte_sum(bytes@, i as int),
            byte_sum(bytes@, bytes.len() as int) <= u32::MAX,
        decreases bytes.len() - i,
    {
        proof {
            lemma_byte_sum_mono(bytes@, i + 1, bytes.len() as int);
        }
        total = total + bytes[i] as u32;
        i += 1;
    }
    total
}

/// Check a stored checksum against the one computed over the metadata.
pub fn check_checksum(metadata: &[u8], stored: u32) -> (res: Result<(), IvfError>)
    requires
        byte_sum(metadata@, metadata.len() as int) <= u32::MAX,
    ensures
        byte_sum(metadata@, metadata.len() as int) == stored ==> res is Ok,
        byte_sum(metadata@, metadata.len() as int) != stored ==> res == Err::<(), IvfError>(
            IvfError::ChecksumMismatch {
                expected: byte_sum(metadata@, metadata.len() as int) as u32,
                got: stored,
            },
        ),
{
    let expected = metadata_checksum(metadata);
    if expected != stored {
        return Err(IvfError::ChecksumMismatch { expected, got: stored });
    }
    Ok(())
}

/// One stored vector: its row id, components and partition.
#[derive(Debug, Clone)]
pub struct RecordBits {
    /// Unique row identifier.
    pub row_id: u64,
    /// The vector's components as 32-bit patterns.
    pub vector_bits: Vec<u32>,
    /// Assigned partition.
    pub partition_id: u32,
}

/// The row ids of the records, in order.
pub open spec fn row_ids_of(rs: Seq<RecordBits>) -> Seq<u64> {
    rs.map_values(|r: RecordBits| r.row_id)
}

/// The partition ids of the records, in order.
pub open spec fn partition_ids_of(rs: Seq<RecordBits>) -> Seq<u32> {
    rs.map_values(|r: RecordBits| r.partition_id)
}

/// All vector components of the records, record after record.
pub open spec fn flat_vectors(rs: Seq<RecordBits>) -> Seq<u32>
    decreases rs.len(),
{
    if rs.len() == 0 {
        Seq::empty()
    } else {
        flat_vectors(rs.drop_last()) + rs.last().vector_bits@
    }
}

/// The record section: the record count and the dimension count as 64-bit
/// values, then all row ids, all vector components and all partition ids.
pub open spec fn records_encoding(rs: Seq<RecordBits>, dimensions: u32) -> Seq<u8> {
    spec_u64_to_le_bytes(rs.len() as u64) + spec_u64_to_le_bytes(dimensions as u64) + le64_all(
        row_ids_of(rs),
    ) + le32_all(flat_vectors(rs)) + le32_all(partition_ids_of(rs))
}

/// Number of records a record section announces.
pub open spec fn section_count(data: Seq<u8>) -> int {
    u64_at(data, 0) as int
}

/// Number of components per vector a record section announces.
pub open spec fn section_dims(data: Seq<u8>) -> int {
    u64_at(data, 8) as int
}

/// The record section holds everything its counts announce.
pub open spec fn section_complete(data: Seq<u8>) -> bool {
    16 + section_count(data) * (12 + 4 * section_dims(data)) <= data.len()
}

/// `rs` is what the record section `data` holds.
pub open spec fn records_decoded(data: Seq<u8>, rs: Seq<RecordBits>) -> bool {
    let n = section_count(data);
    let d = section_dims(data);
    &&& rs.len() == n
    &&& forall|i: int|
        0 <= i < n ==> {
            &&& (#[trigger] rs[i]).row_id == u64_at(data, 16 + 8 * i)
            &&& rs[i].vector_bits.len() == d
            &&& forall|j: int|
                0 <= j < d ==> #[trigger] rs[i].vector_bits[j] == u32_at(
                    data,
                    16 + 8 * n + 4 * (i * d + j),
                )
            &&& rs[i].partition_id == u32_at(data, 16 + 8 * n + 4 * (n * d) + 4 * i)
        }
}

proof fn lemma_le32_all_concat(a: Seq<u32>, b: Seq<u32>)
    ensures
        le32_all(a + b) == le32_all(a) + le32_all(b),
    decreases b.len(),
{
    if b.len() == 0 {
        assert(a + b =~= a);
        assert(le32_all(a) + le32_all(b) =~= le32_all(a));
    } else {
        lemma_le32_all_concat(a, b.drop_last());
        assert((a + b).drop_last() =~= a + b.drop_last());
        assert((a + b).last() == b.last());
        assert(le32_all(a) + le32_all(b) =~= le32_all(a) + le32_all(b.drop_last())
            + spec_u32_to_le_bytes(b.last()));
    }
}

/// Encode the record section for vectors of `dimensions` components.
pub fn encode_records(records: &[RecordBits], dimensions: u32) -> (bytes: Vec<u8>)
    ensures
        bytes@ == records_encoding(records@, dimensions),
{
    let ghost rs = records@;
    let n = records.len();
    let mut bytes: Vec<u8> = Vec::new();
    push_le64(&mut bytes, n as u64);
    push_le64(&mut bytes, dimensions as u64);
    let ghost p0 = bytes@;
    let mut i: usize = 0;
    while i < n
        invariant
            n == rs.len(),
            rs == records@,
            i <= n,
            bytes@ == p0 + le64_all(row_ids_of(rs.subrange(0, i as int))),
        decreases n - i,
    {
        push_le64(&mut bytes, records[i].row_id);
        assert(row_ids_of(rs.subrange(0, i + 1)).drop_last() =~= row_ids_of(rs.subrange(0, i as int)));
        i += 1;
    }
    assert(rs.subrange(0, n as int) =~= rs);
    let ghost p1 = bytes@;
    let mut i: usize = 0;
    while i < n
        invariant
            n == rs.len(),
            rs == records@,
            i <= n,
            bytes@ == p1 + le32_all(flat_vectors(rs.subrange(0, i as int))),
        decreases n - i,
    {
        let v = &records[i].vector_bits;
        let ghost p2 = bytes@;
        let mut j: usize = 0;
        while j < v.len()
            invariant
                j <= v.len(),
                bytes@ == p2 + le32_all(v@.subrange(0, j as int)),
            decreases v.len() - j,
        {
            push_le32(&mut bytes, v[j]);
            assert(v@.subrange(0, j + 1).drop_last() =~= v@.subrange(0, j as int));
            j += 1;
        }
        proof {
            assert(v@.subrange(0, v.len() as int) =~= v@);
            assert(rs.subrange(0, i + 1).drop_last() =~= rs.subrange(0, i as int));
            lemma_le32_all_concat(flat_vectors(rs.subrange(0, i as int)), v@);
        }
        i += 1;
    }
    let ghost p3 = bytes@;
    let mut i: usize = 0;
    while i < n
        invariant
            n == rs.len(),
            rs == records@,
            i <= n,
            bytes@ == p3 + le32_all(partition_ids_of(rs.subrange(0, i as int))),
        decreases n - i,
    {
        push_le32(&mut bytes, records[i].partition_id);
        assert(partition_ids_of(rs.subrange(0, i + 1)).drop_last() =~= partition_ids_of(
            rs.subrange(0, i as int),
        ));
        i += 1;
    }
    bytes
}

/// Decode a record section. Sections shorter than the two count fields are
/// refused; a section must hold every record that its counts announce.
pub fn decode_records(data: &[u8]) -> (res: Result<Vec<RecordBits>, IvfError>)
    requires
        data.len() >= 16 ==> section_complete(data@),
    ensures
        data.len() < 16 ==> res == Err::<Vec<RecordBits>, IvfError>(IvfError::VortexDataTooShort),
        data.len() >= 16 ==> (res matches Ok(rs) && records_decoded(data@, rs@)),
{
    if data.len() < 16 {
        return Err(IvfError::VortexDataTooShort);
    }
    let ghost n = section_count(data@);
    let ghost d = section_dims(data@);
    let mut offset: usize = 0;
    let num_vectors_u64 = read_le64(data, offset);
    offset += 8;
    let dimensions_u64 = read_le64(data, offset);
    offset += 8;
    proof {
        lemma_section_bounds(n, d, data.len() as int);
    }
    let num_vectors = num_vectors_u64 as usize;
    let dimensions = #[verifier::truncate] (dimensions_u64 as usize);

    // Row ids.
    let mut row_ids: Vec<u64> = Vec::new();
    let mut i: usize = 0;
    while i < num_vectors
        invariant
            num_vectors == n,
            n == section_count(data@),
            16 + 12 * n + 4 * (n * d) <= data.len(),
            0 <= n * d,
            i <= num_vectors,
            offset == 16 + 8 * i,
            row_ids.len() == i,
            forall|k: int| 0 <= k < i ==> #[trigger] row_ids[k] == u64_at(data@, 16 + 8 * k),
        decreases num_vectors - i,
    {
        row_ids.push(read_le64(data, offset));
        offset += 8;
        i += 1;
    }

    // Vectors, each of `dimensions` components.
    let mut vectors: Vec<Vec<u32>> = Vec::new();
    let mut i: usize = 0;
    while i < num_vectors
        invariant
            num_vectors == n,
            n == section_count(data@),
            d == section_dims(data@),
            n > 0 ==> dimensions == d,
            16 + 12 * n + 4 * (n * d) <= data.len(),
            i <= num_vectors,
            offset == 16 + 8 * n + 4 * (i * d),
            vectors.len() == i,
            forall|k: int|
                0 <= k < i ==> {
                    &&& (#[trigger] vectors[k]).len() == d
                    &&& forall|j: int|
                        0 <= j < d ==> #[trigger] vectors[k][j] == u32_at(
                            data@,
                            16 + 8 * n + 4 * (k * d + j),
                        )
                },
        decreases num_vectors - i,
    {
        proof {
            lemma_row_fits(n, d, i as int);
        }
        let mut vector: Vec<u32> = Vec::new();
        let mut j: usize = 0;
        while j < dimensions
            invariant
                num_vectors == n,
                d == section_dims(data@),
                dimensions == d,
                i < n,
                (i + 1) * d <= n * d,
                (i + 1) * d == i * d + d,
                16 + 12 * n + 4 * (n * d) <= data.len(),
                j <= dimensions,
                offset == 16 + 8 * n + 4 * (i * d + j),
                vector.len() == j,
                forall|m: int|
                    0 <= m < j ==> #[trigger] vector[m] == u32_at(data@, 16 + 8 * n + 4 * (i * d + m)),
            decreases dimensions - j,
        {
            vector.push(read_le32(data, offset));
            offset += 4;
            j += 1;
        }
        vectors.push(vector);
        i += 1;
    }

    // Partition ids.
    let mut partition_ids: Vec<u32> = Vec::new();
    let mut i: usize = 0;
    proof {
        lemma_section_bounds(n, d, data.len() as int);
    }
    while i < num_vectors
        invariant
            num_vectors == n,
            16 + 12 * n + 4 * (n * d) <= data.len(),
            i <= num_vectors,
            offset == 16 + 8 * n + 4 * (n * d) + 4 * i,
            partition_ids.len() == i,
            forall|k: int|
                0 <= k < i ==> #[trigger] partition_ids[k] == u32_at(
                    data@,
                    16 + 8 * n + 4 * (n * d) + 4 * k,
                ),
        decreases num_vectors - i,
    {
        partition_ids.push(read_le32(data, offset));
        offset += 4;
        i += 1;
    }

    // Build the records, collecting them last to first and then reversing.
    let mut reversed: Vec<RecordBits> = Vec::new();
    let mut vectors = vectors;
    let mut k: usize = num_vectors;
    let ghost all_vectors = vectors@;
    while k > 0
        invariant
            num_vectors == n,
            k <= num_vectors,
            row_ids.len() == n,
            partition_ids.len() == n,
            vectors.len() == k,
            forall|x: int| 0 <= x < k ==> #[trigger] vectors[x] == all_vectors[x],
            reversed.len() == n - k,
            forall|x: int|
                0 <= x < n - k ==> {
                    &&& (#[trigger] reversed[x]).row_id == row_ids[n - 1 - x]
                    &&& reversed[x].vector_bits@ == all_vectors[n - 1 - x]@
                    &&& reversed[x].partition_id == partition_ids[n - 1 - x]
                },
        decreases k,
    {
        k -= 1;
        let vector = vectors.pop().unwrap();
        reversed.push(
            RecordBits { row_id: row_ids[k], vector_bits: vector, partition_id: partition_ids[k] },
        );
    }
    let mut records: Vec<RecordBits> = Vec::new();
    let ghost all_reversed = reversed@;
    while reversed.len() > 0
        invariant
            all_reversed.len() == n,
            reversed.len() + records.len() == n,
            forall|x: int| 0 <= x < reversed.len() ==> #[trigger] reversed[x] == all_reversed[x],
            forall|x: int| 0 <= x < records.len() ==> #[trigger] records[x] == all_reversed[n - 1 - x],
        decreases reversed.len(),
    {
        let r = reversed.pop().unwrap();
        records.push(r);
    }
    Ok(records)
}

proof fn lemma_section_bounds(n: int, d: int, len: int)
    requires
        n >= 0,
        d >= 0,
        16 + n * (12 + 4 * d) <= len,
    ensures
        16 + 12 * n + 4 * (n * d) <= len,
        0 <= n * d,
        n <= len,
        n > 0 ==> d <= len,
{
    assert(n * (12 + 4 * d) == 12 * n + 4 * (n * d)) by (nonlinear_arith);
    assert(0 <= n * d) by (nonlinear_arith)
        requires
            n >= 0,
            d >= 0,
    ;
    if n > 0 {
        assert(d <= n * d) by (nonlinear_arith)
            requires
                n >= 1,
                d >= 0,
        ;
    }
}

proof fn lemma_row_fits(n: int, d: int, i: int)
    requires
        0 <= i < n,
        d >= 0,
    ensures
        (i + 1) * d <= n * d,
        (i + 1) * d == i * d + d,
        0 <= i * d,
{
    assert((i + 1) * d <= n * d) by (nonlinear_arith)
        requires
            i + 1 <= n,
            d >= 0,
    ;
    assert((i + 1) * d == i * d + d) by (nonlinear_arith);
    assert(0 <= i * d) by (nonlinear_arith)
        requires
            i >= 0,
            d >= 0,
    ;
}

/// Every record's vector has `d` components.
pub open spec fn uniform_dims(rs: Seq<RecordBits>, d: int) -> bool {
    forall|i: int| 0 <= i < rs.len() ==> (#[trigger] rs[i]).vector_bits.len() == d
}

proof fn lemma_flat_vectors(rs: Seq<RecordBits>, d: int)
    requires
        d >= 0,
        uniform_dims(rs, d),
    ensures
        flat_vectors(rs).len() == rs.len() * d,
        forall|i: int, j: int|
            0 <= i < rs.len() && 0 <= j < d ==> #[trigger] flat_vectors(rs)[i * d + j]
                == rs[i].vector_bits[j],
    decreases rs.len(),
{
    if rs.len() == 0 {
        assert(rs.len() * d == 0);
    } else {
        let init = rs.drop_last();
        lemma_flat_vectors(init, d);
        let m = rs.len() - 1;
        assert(rs.len() * d == m * d + d) by (nonlinear_arith)
            requires
                m == rs.len() - 1,
        ;
        assert(rs[m].vector_bits.len() == d);
        assert(flat_vectors(rs) == flat_vectors(init) + rs[m].vector_bits@);
        assert forall|i: int, j: int| 0 <= i < rs.len() && 0 <= j < d implies #[trigger] flat_vectors(
            rs,
        )[i * d + j] == rs[i].vector_bits[j] by {
            if i < m {
                assert(i * d + j < m * d) by (nonlinear_arith)
                    requires
                        i < m,
                        0 <= j < d,
                ;
                assert(init[i] == rs[i]);
            } else {
                assert(i * d == m * d);
            }
        }
    }
}

/// Decoding an encoded record section gives the records back, provided
/// every vector has the announced number of components.
pub proof fn lemma_records_roundtrip(rs: Seq<RecordBits>, dimensions: u32, decoded: Seq<RecordBits>)
    requires
        uniform_dims(rs, dimensions as int),
        rs.len() <= u64::MAX,
        records_decoded(records_encoding(rs, dimensions), decoded),
    ensures
        section_complete(records_encoding(rs, dimensions)),
        decoded.len() == rs.len(),
        forall|i: int|
            0 <= i < rs.len() ==> (#[trigger] decoded[i]).row_id == rs[i].row_id
                && decoded[i].vector_bits@ == rs[i].vector_bits@ && decoded[i].partition_id
                == rs[i].partition_id,
{
    lemma_records_encoding_layout(rs, dimensions);
    let data = records_encoding(rs, dimensions);
    let n = rs.len() as int;
    let d = dimensions as int;
    assert forall|i: int| 0 <= i < n implies (#[trigger] decoded[i]).row_id == rs[i].row_id
        && decoded[i].vector_bits@ == rs[i].vector_bits@ && decoded[i].partition_id
        == rs[i].partition_id by {
        assert(decoded[i].vector_bits@ =~= rs[i].vector_bits@) by {
            assert forall|j: int| 0 <= j < d implies decoded[i].vector_bits@[j]
                == rs[i].vector_bits@[j] by {
                assert(decoded[i].vector_bits[j] == u32_at(data, 16 + 8 * n + 4 * (i * d + j)));
            }
        }
    }
}

/// Where each field lies in an encoded record section.
pub proof fn lemma_records_encoding_layout(rs: Seq<RecordBits>, dimensions: u32)
    requires
        uniform_dims(rs, dimensions as int),
        rs.len() <= u64::MAX,
    ensures
        section_count(records_encoding(rs, dimensions)) == rs.len(),
        section_dims(records_encoding(rs, dimensions)) == dimensions,
        section_complete(records_encoding(rs, dimensions)),
        forall|i: int|
            0 <= i < rs.len() ==> u64_at(records_encoding(rs, dimensions), 16 + 8 * i)
                == (#[trigger] rs[i]).row_id,
        forall|i: int, j: int|
            0 <= i < rs.len() && 0 <= j < dimensions ==> u32_at(
                records_encoding(rs, dimensions),
                16 + 8 * rs.len() + 4 * (i * dimensions + j),
            ) == #[trigger] rs[i].vector_bits[j],
        forall|i: int|
            0 <= i < rs.len() ==> u32_at(
                records_encoding(rs, dimensions),
                16 + 8 * rs.len() + 4 * (rs.len() * dimensions) + 4 * i,
            ) == (#[trigger] rs[i]).partition_id,
{
    lemma_auto_spec_u32_to_from_le_bytes();
    lemma_auto_spec_u64_to_from_le_bytes();
    let n = rs.len() as int;
    let d = dimensions as int;
    let data = records_encoding(rs, dimensions);
    let ids = row_ids_of(rs);
    let flat = flat_vectors(rs);
    let pids = partition_ids_of(rs);
    lemma_le64_all(ids);
    lemma_le32_all(flat);
    lemma_le32_all(pids);
    lemma_flat_vectors(rs, d);
    let a = spec_u64_to_le_bytes(rs.len() as u64);
    let b = spec_u64_to_le_bytes(dimensions as u64);
    assert(data.subrange(0, 8) =~= a);
    assert(data.subrange(8, 16) =~= b);
    assert(data.len() == 16 + n * (12 + 4 * d)) by {
        assert(n * (12 + 4 * d) == 8 * n + 4 * (n * d) + 4 * n) by (nonlinear_arith);
    }
    assert forall|i: int| 0 <= i < n implies u64_at(data, 16 + 8 * i) == (#[trigger] rs[i]).row_id by {
        assert(data.subrange(16 + 8 * i, 16 + 8 * i + 8) =~= le64_all(ids).subrange(8 * i, 8 * i + 8));
    }
    assert forall|i: int, j: int| 0 <= i < n && 0 <= j < d implies u32_at(
        data,
        16 + 8 * n + 4 * (i * d + j),
    ) == #[trigger] rs[i].vector_bits[j] by {
        let k = i * d + j;
        assert(0 <= k < n * d) by (nonlinear_arith)
            requires
                0 <= i < n,
                0 <= j < d,
                k == i * d + j,
        ;
        assert(data.subrange(16 + 8 * n + 4 * k, 16 + 8 * n + 4 * k + 4) =~= le32_all(flat).subrange(
            4 * k,
            4 * k + 4,
        ));
    }
    assert forall|i: int| 0 <= i < n implies u32_at(data, 16 + 8 * n + 4 * (n * d) + 4 * i)
        == (#[trigger] rs[i]).partition_id by {
        let off = 16 + 8 * n + 4 * (n * d);
        assert(data.subrange(off + 4 * i, off + 4 * i + 4) =~= le32_all(pids).subrange(4 * i, 4 * i + 4));
    }
}

} // verus!
