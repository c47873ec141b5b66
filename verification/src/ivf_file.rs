//! Whole IVF files: the header, the record section, the metadata block and
//! the footer, laid out one after another; writing a file's bytes, reading
//! them back, and which stored records belong to chosen partitions.
use vstd::prelude::*;
use vstd::bytes::{lemma_auto_spec_u32_to_from_le_bytes, lemma_auto_spec_u64_to_from_le_bytes};
use crate::counting::passing;
use crate::ivf::{
    IVF_FILE_MAGIC_LE, IVF_FILE_VERSION, IVF_FOOTER_MAGIC_LE, IvfError, IvfFooter, IvfHeader,
    IvfMetadata, RecordBits, announced_count, byte_sum, check_checksum, decode_records,
    encode_records, footer_encoding, footer_outcome, header_encoding, header_outcome,
    lemma_footer_roundtrip, lemma_header_roundtrip, metadata_checksum, metadata_encoding,
    metadata_header_ok, metadata_outcome, records_decoded, records_encoding, section_complete,
    uniform_dims, lemma_metadata_roundtrip, lemma_records_roundtrip, lemma_records_encoding_layout,
};

verus! {

/// What writing a file reports.
#[derive(Debug, Clone, Copy, PartialEq, Eq, Structural)]
pub struct IvfWriteSummary {
    /// Total file size in bytes.
    pub total_size: u64,
    /// Size of the record section.
    pub vortex_data_size: u64,
    /// Size of the metadata block.
    pub metadata_size: u64,
    /// Number of vectors written.
    pub num_vectors: usize,
    /// Number of partitions.
    pub num_partitions: usize,
}

/// The header a file is written with: its record section starts right
/// after the 16 header bytes.
pub open spec fn written_header() -> IvfHeader {
    IvfHeader { magic: IVF_FILE_MAGIC_LE, version: IVF_FILE_VERSION, vortex_offset: 16 }
}

/// The footer written after a record section of `data_len` bytes and the
/// metadata block `metadata`.
pub open spec fn written_footer(data_len: int, metadata: Seq<u8>) -> IvfFooter {
    IvfFooter {
        centroids_offset: (16 + data_len) as u64,
        magic: IVF_FOOTER_MAGIC_LE,
        checksum: byte_sum(metadata, metadata.len() as int) as u32,
    }
}

/// The bytes of a file: header, record section, metadata block, footer.
pub open spec fn file_encoding(data: Seq<u8>, metadata: Seq<u8>) -> Seq<u8> {
    header_encoding(written_header()) + data + metadata + footer_encoding(
        written_footer(data.len() as int, metadata),
    )
}

/// The header read from the first 16 bytes of a file.
pub open spec fn file_header(b: Seq<u8>) -> Result<IvfHeader, IvfError> {
    header_outcome(b.subrange(0, 16))
}

/// The footer read from the last 16 bytes of a file.
pub open spec fn file_footer(b: Seq<u8>) -> Result<IvfFooter, IvfError> {
    footer_outcome(b.subrange(b.len() - 16, b.len() as int))
}

/// The metadata block: from the footer's offset to the footer.
pub open spec fn metadata_section(b: Seq<u8>) -> Seq<u8> {
    b.subrange(file_footer(b)->Ok_0.centroids_offset as int, b.len() - 16)
}

/// The record section: from the header's offset to the metadata block.
pub open spec fn data_section(b: Seq<u8>) -> Seq<u8> {
    b.subrange(
        file_header(b)->Ok_0.vortex_offset as int,
        file_footer(b)->Ok_0.centroids_offset as int,
    )
}

/// Reading the file does not run past a limit of the reader: the metadata
/// block starts before the footer, its table size and checksum are
/// representable, the record section does not start after the metadata
/// block, and a record section holds the records it announces.
pub open spec fn file_readable(b: Seq<u8>) -> bool {
    b.len() >= 16 && file_header(b) is Ok && file_footer(b) is Ok ==> {
        let h = file_header(b)->Ok_0;
        let f = file_footer(b)->Ok_0;
        let meta = b.subrange(f.centroids_offset as int, b.len() - 16);
        &&& f.centroids_offset <= b.len() - 16
        &&& metadata_header_ok(meta) ==> 16 + 4 * announced_count(meta) <= usize::MAX
        &&& metadata_outcome(meta) is Ok ==> {
            &&& byte_sum(meta, meta.len() as int) <= u32::MAX
            &&& byte_sum(meta, meta.len() as int) == f.checksum ==> {
                &&& h.vortex_offset <= f.centroids_offset
                &&& f.centroids_offset - h.vortex_offset >= 16 ==> section_complete(
                    b.subrange(h.vortex_offset as int, f.centroids_offset as int),
                )
            }
        }
    }
}

/// The first problem that reading a file meets, in the order the reader
/// checks: length, header, footer, metadata block, checksum, record
/// section.
pub open spec fn file_check(b: Seq<u8>) -> Result<(), IvfError> {
    if b.len() < 16 {
        Err(IvfError::FileTooShort { len: b.len() as usize })
    } else if file_header(b) is Err {
        Err(file_header(b)->Err_0)
    } else if file_footer(b) is Err {
        Err(file_footer(b)->Err_0)
    } else if metadata_outcome(metadata_section(b)) is Err {
        Err(metadata_outcome(metadata_section(b))->Err_0)
    } else if byte_sum(metadata_section(b), metadata_section(b).len() as int)
        != file_footer(b)->Ok_0.checksum {
        Err(
            IvfError::ChecksumMismatch {
                expected: byte_sum(metadata_section(b), metadata_section(b).len() as int) as u32,
                got: file_footer(b)->Ok_0.checksum,
            },
        )
    } else if data_section(b).len() < 16 {
        Err(IvfError::VortexDataTooShort)
    } else {
        Ok(())
    }
}

/// Whether reading `bytes` stays within the reader's limits
/// (`file_readable`); a reader that is not would fail.
pub fn check_file_readable(bytes: &[u8]) -> (r: bool)
    ensures
        r == file_readable(bytes@),
{
    let len = bytes.len();
    if len < 16 {
        return true;
    }
    let header = match IvfHeader::decode(&bytes[0..16]) {
        Ok(h) => h,
        Err(_) => {
            return true;
        },
    };
    let footer = match IvfFooter::decode(&bytes[len - 16..len]) {
        Ok(f) => f,
        Err(_) => {
            return true;
        },
    };
    let file_end = len - 16;
    let co = footer.centroids_offset;
    if co > file_end as u64 {
        return false;
    }
    let meta = &bytes[co as usize..file_end];
    assert(meta@ == bytes@.subrange(co as int, bytes@.len() - 16));
    if meta.len() >= 16 {
        let magic = crate::le_bytes::read_le32(meta, 0);
        let version = crate::le_bytes::read_le32(meta, 4);
        if magic == crate::ivf::IVF_METADATA_MAGIC_LE && version == crate::ivf::IVF_METADATA_VERSION {
            let np = crate::le_bytes::read_le32(meta, 8) as u128;
            let d = crate::le_bytes::read_le32(meta, 12) as u128;
            assert(np * d <= 0xffff_ffffu128 * 0xffff_ffffu128) by (nonlinear_arith)
                requires
                    np <= 0xffff_ffffu128,
                    d <= 0xffff_ffffu128,
            ;
            if 16 + 4 * (np * d) > usize::MAX as u128 {
                return false;
            }
        }
    }
    if let Err(_) = IvfMetadata::deserialize(meta) {
        return true;
    }
    if !checksum_fits(meta) {
        return false;
    }
    let sum = metadata_checksum(meta);
    if sum != footer.checksum {
        return true;
    }
    let vo = header.vortex_offset;
    if vo > co {
        return false;
    }
    if co - vo < 16 {
        return true;
    }
    let data = &bytes[vo as usize..co as usize];
    section_fits(data)
}

/// Whether the sum of the bytes fits in 32 bits.
fn checksum_fits(bytes: &[u8]) -> (r: bool)
    ensures
        r == (byte_sum(bytes@, bytes.len() as int) <= u32::MAX),
{
    let mut total: u64 = 0;
    let mut i: usize = 0;
    while i < bytes.len()
        invariant
            i <= bytes.len(),
            total == byte_sum(bytes@, i as int),
            total <= u32::MAX,
        decreases bytes.len() - i,
    {
        total = total + bytes[i] as u64;
        i += 1;
        if total > u32::MAX as u64 {
            proof {
                lemma_byte_sum_grows(bytes@, i as int, bytes.len() as int);
            }
            return false;
        }
    }
    true
}

proof fn lemma_byte_sum_grows(bytes: Seq<u8>, k: int, m: int)
    requires
        0 <= k <= m,
    ensures
        byte_sum(bytes, k) <= byte_sum(bytes, m),
    decreases m - k,
{
    if k < m {
        lemma_byte_sum_grows(bytes, k, m - 1);
    }
}

/// Whether a record section of at least 16 bytes holds every record it
/// announces.
fn section_fits(data: &[u8]) -> (r: bool)
    requires
        data.len() >= 16,
    ensures
        r == section_complete(data@),
{
    let n = crate::le_bytes::read_le64(data, 0) as u128;
    let d = crate::le_bytes::read_le64(data, 8) as u128;
    let per = 12 + 4 * d;
    match n.checked_mul(per) {
        Some(total) => total <= data.len() as u128 - 16,
        None => false,
    }
}

/// Read a file's bytes: the metadata block's centroid table and the stored
/// records, or the first problem met (`file_check`).
pub fn decode_file(bytes: &[u8]) -> (res: Result<(IvfMetadata, Vec<RecordBits>), IvfError>)
    requires
        file_readable(bytes@),
    ensures
        file_check(bytes@) matches Err(e) ==> res == Err::<(IvfMetadata, Vec<RecordBits>), IvfError>(e),
        file_check(bytes@) is Ok ==> (res matches Ok((m, rs)) && metadata_outcome(metadata_section(bytes@))
            == Ok::<(u32, u32, Seq<u32>), IvfError>((m.num_partitions, m.dimensions, m.centroid_bits@))
            && records_decoded(data_section(bytes@), rs@)),
{
    let len = bytes.len();
    if len < 16 {
        return Err(IvfError::FileTooShort { len });
    }
    let header = match IvfHeader::decode(&bytes[0..16]) {
        Ok(h) => h,
        Err(e) => {
            return Err(e);
        },
    };
    let footer = match IvfFooter::decode(&bytes[len - 16..len]) {
        Ok(f) => f,
        Err(e) => {
            return Err(e);
        },
    };
    let file_end = len - 16;
    let co = footer.centroids_offset;
    let meta = &bytes[co as usize..file_end];
    assert(meta@ == metadata_section(bytes@));
    let metadata = match IvfMetadata::deserialize(meta) {
        Ok(m) => m,
        Err(e) => {
            return Err(e);
        },
    };
    match check_checksum(meta, footer.checksum) {
        Ok(()) => {},
        Err(e) => {
            return Err(e);
        },
    }
    let vo = header.vortex_offset;
    let data = &bytes[vo as usize..co as usize];
    assert(data@ == data_section(bytes@));
    match decode_records(data) {
        Ok(records) => Ok((metadata, records)),
        Err(e) => Err(e),
    }
}

/// The bytes of a file holding `records` (vectors of the table's dimension
/// count) and the centroid table `metadata`, and what writing them reports.
pub fn encode_file(records: &Vec<RecordBits>, metadata: &IvfMetadata) -> (r: (Vec<u8>, IvfWriteSummary))
    requires
        byte_sum(
            metadata_encoding(metadata.num_partitions, metadata.dimensions, metadata.centroid_bits@),
            metadata_encoding(metadata.num_partitions, metadata.dimensions, metadata.centroid_bits@).len() as int,
        ) <= u32::MAX,
        32 + records_encoding(records@, metadata.dimensions).len() + metadata_encoding(
            metadata.num_partitions,
            metadata.dimensions,
            metadata.centroid_bits@,
        ).len() <= usize::MAX,
    ensures
        r.0@ == file_encoding(
            records_encoding(records@, metadata.dimensions),
            metadata_encoding(metadata.num_partitions, metadata.dimensions, metadata.centroid_bits@),
        ),
        r.1 == (IvfWriteSummary {
            total_size: r.0@.len() as u64,
            vortex_data_size: records_encoding(records@, metadata.dimensions).len() as u64,
            metadata_size: metadata_encoding(
                metadata.num_partitions,
                metadata.dimensions,
                metadata.centroid_bits@,
            ).len() as u64,
            num_vectors: records.len(),
            num_partitions: metadata.num_partitions as usize,
        }),
{
    let mut bytes = IvfHeader::new_current().encode();
    proof {
        lemma_auto_spec_u32_to_from_le_bytes();
        lemma_auto_spec_u64_to_from_le_bytes();
        assert(bytes@.len() == 16);
    }
    let data = encode_records(records.as_slice(), metadata.dimensions);
    let meta = metadata.serialize();
    bytes.extend_from_slice(data.as_slice());
    let centroids_offset = bytes.len() as u64;
    bytes.extend_from_slice(meta.as_slice());
    let checksum = metadata_checksum(meta.as_slice());
    let footer = IvfFooter { centroids_offset, magic: IVF_FOOTER_MAGIC_LE, checksum };
    assert(footer == written_footer(data@.len() as int, meta@));
    let tail = footer.encode();
    bytes.extend_from_slice(tail.as_slice());
    assert(bytes@ =~= file_encoding(data@, meta@));
    let summary = IvfWriteSummary {
        total_size: bytes.len() as u64,
        vortex_data_size: data.len() as u64,
        metadata_size: meta.len() as u64,
        num_vectors: records.len(),
        num_partitions: metadata.num_partitions as usize,
    };
    (bytes, summary)
}

/// Where the sections of a written file lie: its header and footer read
/// back as written, and the metadata block and record section cut out of it
/// are the ones written.
pub proof fn lemma_file_layout(data: Seq<u8>, metadata: Seq<u8>)
    requires
        data.len() + 16 <= u64::MAX,
    ensures
        file_encoding(data, metadata).len() == 32 + data.len() + metadata.len(),
        file_header(file_encoding(data, metadata)) == Ok::<IvfHeader, IvfError>(written_header()),
        file_footer(file_encoding(data, metadata)) == Ok::<IvfFooter, IvfError>(
            written_footer(data.len() as int, metadata),
        ),
        metadata_section(file_encoding(data, metadata)) == metadata,
        data_section(file_encoding(data, metadata)) == data,
{
    lemma_auto_spec_u32_to_from_le_bytes();
    lemma_auto_spec_u64_to_from_le_bytes();
    let b = file_encoding(data, metadata);
    let h = header_encoding(written_header());
    let f = footer_encoding(written_footer(data.len() as int, metadata));
    assert(h.len() == 16);
    assert(f.len() == 16);
    assert(b.subrange(0, 16) =~= h);
    assert(b.subrange(b.len() - 16, b.len() as int) =~= f);
    lemma_header_roundtrip(written_header());
    lemma_footer_roundtrip(written_footer(data.len() as int, metadata));
    assert(b.subrange(16 + data.len() as int, b.len() - 16) =~= metadata);
    assert(b.subrange(16, 16 + data.len() as int) =~= data);
}

/// Reading the bytes of a written file gives back what was written: the
/// file stays within the reader's limits and passes every check, its
/// metadata block decodes to the written centroid table, and any decoding
/// of its record section holds the written records, in order.
pub proof fn lemma_file_roundtrip(rs: Seq<RecordBits>, num_partitions: u32, dimensions: u32, bits: Seq<u32>)
    requires
        bits.len() == num_partitions * dimensions,
        uniform_dims(rs, dimensions as int),
        rs.len() <= u64::MAX,
        records_encoding(rs, dimensions).len() + 16 <= u64::MAX,
        16 + 4 * bits.len() <= usize::MAX,
        byte_sum(
            metadata_encoding(num_partitions, dimensions, bits),
            metadata_encoding(num_partitions, dimensions, bits).len() as int,
        ) <= u32::MAX,
    ensures
        file_readable(
            file_encoding(records_encoding(rs, dimensions), metadata_encoding(num_partitions, dimensions, bits)),
        ),
        file_check(
            file_encoding(records_encoding(rs, dimensions), metadata_encoding(num_partitions, dimensions, bits)),
        ) is Ok,
        metadata_outcome(
            metadata_section(
                file_encoding(
                    records_encoding(rs, dimensions),
                    metadata_encoding(num_partitions, dimensions, bits),
                ),
            ),
        ) == Ok::<(u32, u32, Seq<u32>), IvfError>((num_partitions, dimensions, bits)),
        forall|decoded: Seq<RecordBits>|
            #[trigger] records_decoded(
                data_section(
                    file_encoding(
                        records_encoding(rs, dimensions),
                        metadata_encoding(num_partitions, dimensions, bits),
                    ),
                ),
                decoded,
            ) ==> decoded.len() == rs.len() && forall|i: int|
                0 <= i < rs.len() ==> (#[trigger] decoded[i]).row_id == rs[i].row_id
                    && decoded[i].vector_bits@ == rs[i].vector_bits@ && decoded[i].partition_id
                    == rs[i].partition_id,
{
    let data = records_encoding(rs, dimensions);
    let meta = metadata_encoding(num_partitions, dimensions, bits);
    let b = file_encoding(data, meta);
    lemma_file_layout(data, meta);
    lemma_records_encoding_layout(rs, dimensions);
    lemma_metadata_roundtrip(num_partitions, dimensions, bits);
    lemma_auto_spec_u32_to_from_le_bytes();
    assert(metadata_section(b) == meta);
    assert(data_section(b) == data);
    let f = written_footer(data.len() as int, meta);
    assert(b.subrange(f.centroids_offset as int, b.len() - 16) == meta);
    assert(metadata_header_ok(meta) ==> 16 + 4 * announced_count(meta) <= usize::MAX) by {
        assert(meta.subrange(8, 12) =~= vstd::bytes::spec_u32_to_le_bytes(num_partitions));
        assert(meta.subrange(12, 16) =~= vstd::bytes::spec_u32_to_le_bytes(dimensions));
    }
    assert forall|decoded: Seq<RecordBits>|
        #[trigger] records_decoded(data_section(b), decoded) implies decoded.len() == rs.len() && forall|i: int|
            0 <= i < rs.len() ==> (#[trigger] decoded[i]).row_id == rs[i].row_id
                && decoded[i].vector_bits@ == rs[i].vector_bits@ && decoded[i].partition_id
                == rs[i].partition_id by {
        lemma_records_roundtrip(rs, dimensions, decoded);
    }
}

/// Record `i` lies in one of the given partitions.
pub open spec fn in_partitions(records: Seq<RecordBits>, partitions: Seq<u32>) -> spec_fn(int) -> bool {
    |i: int| partitions.contains(records[i].partition_id)
}

/// The records that lie in one of the given partitions (such as the
/// partitions nearest a query), as ascending indices.
pub fn records_in_partitions(records: &Vec<RecordBits>, partitions: &Vec<u32>) -> (r: Vec<usize>)
    ensures
        r@ == passing(in_partitions(records@, partitions@), records.len() as int),
{
    let ghost p = in_partitions(records@, partitions@);
    let mut r: Vec<usize> = Vec::new();
    let mut i: usize = 0;
    while i < records.len()
        invariant
            i <= records.len(),
            p == in_partitions(records@, partitions@),
            r@ == passing(p, i as int),
        decreases records.len() - i,
    {
        let pid = records[i].partition_id;
        let mut found = false;
        let mut j: usize = 0;
        while j < partitions.len()
            invariant
                j <= partitions.len(),
                found == exists|x: int| 0 <= x < j && partitions@[x] == pid,
            decreases partitions.len() - j,
        {
            if partitions[j] == pid {
                found = true;
            }
            j += 1;
        }
        assert(found == p(i as int));
        if found {
            r.push(i);
        }
        i += 1;
    }
    r
}

} // verus!
