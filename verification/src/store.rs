//! The data lake: an append-only, content-addressed blob store over one
//! memory mapping.
//!
//! On-disk layout, all integers little-endian:
//!   - byte 0: the 44-byte lake header, inside the first 256-byte slot;
//!   - slot 1 up to `data_offset - 1`: the primary index, an array of u32
//!     slot pointers probed linearly from `checksum32(id, 50) % index_mod`;
//!   - slot `data_offset` onward: the arena of 256-byte-aligned chunks,
//!     each a 54-byte header (identifier, uncompressed and compressed
//!     length) followed by the deflate stream of the blob.
//!
//! The verified model is a ghost map from identifier to a record naming
//! the index cell, the arena slot and the stored bytes; a lake built by
//! `create` keeps the model exact (`is_complete`), one reopened by `load`
//! trusts the file and carries the weaker contracts.

use vstd::prelude::*;
use crate::compression;
use crate::compression::CompressorCollection;
use crate::errors::{UssError, UssResult};
use crate::hasher;
use crate::le;
use crate::mapping::{u32_at, mapping_seq, mapping_writable, MemoryMapping};
use crate::sieve;

verus! {

/// The fixed 54-byte chunk header: identifier, then the two lengths.
pub const CHUNK_HEADER_SIZE: usize = 54;

/// Converts an arena slot number to its byte offset (256-byte grid).
pub fn offset_to_data_offset(offset: u32) -> (r: usize)
    requires
        (offset as int) * 256 <= usize::MAX,
    ensures
        r == (offset as int) * 256,
{
    (offset as usize) * 256
}

/// The bytes `b"DataLake"` that open every lake file.
pub open spec fn magic_seq() -> Seq<u8> {
    seq![68u8, 97u8, 116u8, 97u8, 76u8, 97u8, 107u8, 101u8]
}

/// The in-memory copy of the on-disk lake header.
#[derive(Clone, Copy)]
struct LakeHeader {
    file_size: u64,
    data_size: u32,
    data_offset: u32,
    data_next: u32,
    index_mod: u32,
    index_max: u32,
    index_offset: u32,
    index_offset_u32: u32,
}

/// The 44 bytes a lake header occupies on disk.
pub open spec fn header_bytes_of(
    file_size: u64,
    data_size: u32,
    data_offset: u32,
    data_next: u32,
    index_mod: u32,
    index_max: u32,
    index_offset: u32,
    index_offset_u32: u32,
) -> Seq<u8> {
    magic_seq() + le::u64_le(file_size) + le::u32_le(data_size) + le::u32_le(data_offset)
        + le::u32_le(data_next) + le::u32_le(index_mod) + le::u32_le(index_max) + le::u32_le(
        index_offset,
    ) + le::u32_le(index_offset_u32)
}

spec fn header_bytes(h: LakeHeader) -> Seq<u8> {
    header_bytes_of(
        h.file_size,
        h.data_size,
        h.data_offset,
        h.data_next,
        h.index_mod,
        h.index_max,
        h.index_offset,
        h.index_offset_u32,
    )
}

/// The header of one stored chunk: the 50-byte identifier and the two
/// lengths, as they stand on disk.
#[derive(Clone)]
pub struct DataChunkHeader {
    pub hash: Vec<u8>,
    pub uncompressed_length: u16,
    pub compressed_length: u16,
}

/// The 54 bytes a chunk header occupies on disk.
pub open spec fn chunk_header_bytes(hash: Seq<u8>, ul: u16, cl: u16) -> Seq<u8> {
    hash + le::u16_le(ul) + le::u16_le(cl)
}

/// A handle onto one stored chunk: its header and its arena slot. The
/// ghost field carries the uncompressed bytes the chunk stands for.
#[derive(Clone)]
pub struct DataChunk {
    pub header: DataChunkHeader,
    pub offset: u32,
    pub data: Ghost<Seq<u8>>,
}

/// What the ghost model remembers of one stored blob.
pub ghost struct ChunkRecord {
    /// The index cell (in u32 units) holding the pointer to the chunk.
    pub slot: int,
    /// The arena slot (in 256-byte units) where the chunk lies.
    pub offset: u32,
    /// The uncompressed bytes of the blob.
    pub data: Seq<u8>,
}

/// The index cell where probing for an identifier begins.
pub open spec fn home_slot(index_mod: u32, id: Seq<u8>) -> int
    recommends
        index_mod >= 1,
{
    hasher::checksum_of(id, 50) as int % index_mod as int + 64
}

/// The record's chunk stands on disk exactly as stored: identifier,
/// lengths, and the deflate stream of its data, all below `data_next`.
pub open spec fn chunk_region_ok(
    bytes: Seq<u8>,
    data_offset: u32,
    data_next: u32,
    r: ChunkRecord,
    id: Seq<u8>,
) -> bool {
    let off = r.offset as int * 256;
    let cl = compression::deflate_of(r.data).len() as int;
    &&& id.len() == 50
    &&& hasher::hash_of(r.data) == id
    &&& r.data.len() <= 65535
    &&& cl <= 4111
    &&& data_offset <= r.offset
    &&& off + 54 + cl <= data_next as int * 256
    &&& bytes.subrange(off, off + 50) == id
    &&& bytes.subrange(off + 50, off + 52) == le::u16_le(r.data.len() as u16)
    &&& bytes.subrange(off + 52, off + 54) == le::u16_le(cl as u16)
    &&& bytes.subrange(off + 54, off + 54 + cl) == compression::deflate_of(r.data)
}

/// The record's index cell holds the chunk pointer, and linear probing
/// from the identifier's home cell reaches it through occupied cells.
pub open spec fn rec_probe_ok(
    bytes: Seq<u8>,
    index_mod: u32,
    index_max: u32,
    r: ChunkRecord,
    id: Seq<u8>,
) -> bool {
    &&& home_slot(index_mod, id) <= r.slot < index_max as int
    &&& u32_at(bytes, r.slot) == r.offset
    &&& r.offset != 0
    &&& forall|j: int| home_slot(index_mod, id) <= j < r.slot ==> u32_at(bytes, j) != 0
}

/// The lake: the mapping, the header copy, the compressor pool, and the
/// ghost model of what is stored where.
pub struct DataLake {
    data: MemoryMapping,
    header: LakeHeader,
    readonly: bool,
    compressors: CompressorCollection,
    model: Ghost<Map<Seq<u8>, ChunkRecord>>,
    slot_ids: Ghost<Map<int, Seq<u8>>>,
    complete: Ghost<bool>,
}

impl DataLake {
    /// The raw bytes of the whole mapped file.
    pub closed spec fn bytes(&self) -> Seq<u8> {
        mapping_seq(self.data)
    }

    /// The ghost record of every blob this handle knows it stored.
    pub closed spec fn records(&self) -> Map<Seq<u8>, ChunkRecord> {
        self.model@
    }

    /// Identifier-to-blob view of the lake's known contents.
    pub open spec fn contents(&self) -> Map<Seq<u8>, Seq<u8>> {
        self.records().map_values(|r: ChunkRecord| r.data)
    }

    /// Whether the model is exact: every occupied index cell is a known
    /// record. Holds for lakes built by `create`, not for reopened ones.
    pub closed spec fn is_complete(&self) -> bool {
        self.complete@
    }

    pub closed spec fn spec_readonly(&self) -> bool {
        self.readonly
    }

    pub closed spec fn spec_file_size(&self) -> u64 {
        self.header.file_size
    }

    pub closed spec fn spec_data_size(&self) -> u32 {
        self.header.data_size
    }

    pub closed spec fn spec_data_offset(&self) -> u32 {
        self.header.data_offset
    }

    pub closed spec fn spec_data_next(&self) -> u32 {
        self.header.data_next
    }

    pub closed spec fn spec_index_mod(&self) -> u32 {
        self.header.index_mod
    }

    pub closed spec fn spec_index_max(&self) -> u32 {
        self.header.index_max
    }

    pub closed spec fn spec_index_offset(&self) -> u32 {
        self.header.index_offset
    }

    pub closed spec fn spec_index_offset_u32(&self) -> u32 {
        self.header.index_offset_u32
    }

    /// The header fields are mutually consistent and mirrored at byte 0.
    spec fn header_wf(&self) -> bool {
        let s = self.bytes();
        let h = self.header;
        &&& s.len() == h.file_size as int
        &&& h.file_size <= usize::MAX as u64
        &&& s.subrange(0, 44) == header_bytes(h)
        &&& h.index_offset == 1
        &&& h.index_offset_u32 == 64
        &&& h.index_mod >= 1
        &&& h.data_offset as int == 2 + (h.index_mod as int - 1) / 64
        &&& h.index_max as int == h.data_offset as int * 64
        &&& h.data_size as int == h.file_size as int / 256 - h.data_offset as int
        &&& h.data_offset <= h.data_next
        &&& h.data_next as int <= h.data_offset as int + h.data_size as int
        &&& h.data_offset as int + h.data_size as int <= u32::MAX
        &&& !self.readonly ==> mapping_writable(self.data)
        &&& self.compressors.wf()
        &&& self.compressors.size() < usize::MAX
    }

    /// Every known record stands on disk and is reachable by probing;
    /// in a complete lake, every occupied index cell is a known record.
    spec fn records_wf(&self) -> bool {
        let s = self.bytes();
        let h = self.header;
        &&& forall|id: Seq<u8>| #[trigger]
            self.model@.dom().contains(id) ==> chunk_region_ok(
                s,
                h.data_offset,
                h.data_next,
                self.model@[id],
                id,
            ) && rec_probe_ok(s, h.index_mod, h.index_max, self.model@[id], id)
                && self.slot_ids@.dom().contains(self.model@[id].slot) && self.slot_ids@[self.model@[id].slot]
                == id
        &&& forall|j: int| #[trigger]
            self.slot_ids@.dom().contains(j) ==> 64 <= j < h.index_max as int
                && self.model@.dom().contains(self.slot_ids@[j])
                && self.model@[self.slot_ids@[j]].slot == j
        &&& (self.complete@ ==> forall|j: int|
            64 <= j < h.index_max as int && #[trigger] u32_at(s, j) != 0
                ==> self.slot_ids@.dom().contains(j))
    }

    /// The lake's full invariant.
    pub closed spec fn wf(&self) -> bool {
        self.header_wf() && self.records_wf()
    }

    pub fn file_size(&self) -> (r: u64)
        ensures
            r == self.spec_file_size(),
    {
        self.header.file_size
    }

    pub fn data_size(&self) -> (r: u32)
        ensures
            r == self.spec_data_size(),
    {
        self.header.data_size
    }

    pub fn data_offset(&self) -> (r: u32)
        ensures
            r == self.spec_data_offset(),
    {
        self.header.data_offset
    }

    pub fn data_next(&self) -> (r: u32)
        ensures
            r == self.spec_data_next(),
    {
        self.header.data_next
    }

    pub fn index_mod(&self) -> (r: u32)
        ensures
            r == self.spec_index_mod(),
    {
        self.header.index_mod
    }

    pub fn index_max(&self) -> (r: u32)
        ensures
            r == self.spec_index_max(),
    {
        self.header.index_max
    }

    /// A copy of the whole backing region, so that an in-memory lake can
    /// be closed and reopened from its bytes.
    pub fn to_vec(&self) -> (r: Vec<u8>)
        ensures
            r@ == self.bytes(),
    {
        self.data.to_vec()
    }

    pub fn is_readonly(&self) -> (r: bool)
        ensures
            r == self.spec_readonly(),
    {
        self.readonly
    }

    /// The index cell where probing for `hash` begins.
    pub fn get_index_offset(&self, hash: &[u8]) -> (r: u32)
        requires
            self.wf(),
            hash@.len() == 50,
        ensures
            r as int == home_slot(self.spec_index_mod(), hash@),
            64 <= r < self.spec_index_max(),
    {
        let checksum = hasher::checksum_u32(hash, 50);
        let r = checksum % self.header.index_mod + self.header.index_offset_u32;
        proof {
            let h = self.header;
            assert((checksum as int) % (h.index_mod as int) < h.index_mod as int);
            assert(h.index_max as int == (2 + (h.index_mod as int - 1) / 64) * 64);
            assert((h.index_mod as int - 1) / 64 * 64 >= h.index_mod as int - 1 - 63);
        }
        r
    }
}

/// Reopens a lake over a mapped file, trusting and checking its header.
/// `readonly` only marks the handle: a writable mapping may be opened
/// read-only, but a read-only mapping must not be opened writable.
impl DataLake {
    pub fn load(data_map: MemoryMapping, readonly: bool) -> (r: UssResult<DataLake>)
        requires
            !readonly ==> mapping_writable(data_map),
        ensures
            r matches Ok(lake) ==> lake.wf() && !lake.is_complete() && lake.contents()
                == Map::<Seq<u8>, Seq<u8>>::empty() && lake.spec_readonly() == readonly,
            r is Ok <==> header_valid(mapping_seq(data_map)),
    {
        let len = data_map.len();
        if len < 256 {
            return Err(UssError::StaticError("DataLake::load: file too small"));
        }
        let hb = data_map.get_ro_slice(0, 44);
        if hb[0] != 68 || hb[1] != 97 || hb[2] != 116 || hb[3] != 97 || hb[4] != 76 || hb[5] != 97
            || hb[6] != 107 || hb[7] != 101 {
            return Err(UssError::StaticError("DataLake::load: bad magic"));
        }
        proof {
            assert(hb@.subrange(0, 8) =~= magic_seq());
            assert(mapping_seq(data_map).subrange(0, 8) =~= hb@.subrange(0, 8));
        }
        let file_size = le::u64_from_le(&hb[8..16]);
        let data_size = le::u32_from_le(hb[16], hb[17], hb[18], hb[19]);
        let data_offset = le::u32_from_le(hb[20], hb[21], hb[22], hb[23]);
        let data_next = le::u32_from_le(hb[24], hb[25], hb[26], hb[27]);
        let index_mod = le::u32_from_le(hb[28], hb[29], hb[30], hb[31]);
        let index_max = le::u32_from_le(hb[32], hb[33], hb[34], hb[35]);
        let index_offset = le::u32_from_le(hb[36], hb[37], hb[38], hb[39]);
        let index_offset_u32 = le::u32_from_le(hb[40], hb[41], hb[42], hb[43]);
        proof {
            let s = mapping_seq(data_map);
            assert(hb@.subrange(8, 16) =~= s.subrange(8, 16));
            lemma_parsed_header_eq(s, hb@);
        }
        if file_size != len as u64 {
            return Err(UssError::StaticError("DataLake::load: size mismatch"));
        }
        if index_offset != 1 || index_offset_u32 != 64 || index_mod < 1 {
            return Err(UssError::StaticError("DataLake::load: invalid header"));
        }
        if data_offset as u64 != 2 + (index_mod as u64 - 1) / 64 {
            return Err(UssError::StaticError("DataLake::load: invalid header"));
        }
        if index_max as u64 != data_offset as u64 * 64 {
            return Err(UssError::StaticError("DataLake::load: invalid header"));
        }
        if data_offset as u64 > file_size / 256 || data_size as u64 != file_size / 256
            - data_offset as u64 {
            return Err(UssError::StaticError("DataLake::load: invalid header"));
        }
        if data_next < data_offset || data_next as u64 > data_offset as u64 + data_size as u64 {
            return Err(UssError::StaticError("DataLake::load: invalid header"));
        }
        if data_offset as u64 + data_size as u64 > u32::MAX as u64 {
            return Err(UssError::StaticError("DataLake::load: invalid header"));
        }
        let header = LakeHeader {
            file_size,
            data_size,
            data_offset,
            data_next,
            index_mod,
            index_max,
            index_offset,
            index_offset_u32,
        };
        let lake = DataLake {
            data: data_map,
            header,
            readonly,
            compressors: CompressorCollection::new(),
            model: Ghost(Map::empty()),
            slot_ids: Ghost(Map::empty()),
            complete: Ghost(false),
        };
        proof {
            let s = lake.bytes();
            assert(s.subrange(0, 44) =~= header_bytes(lake.header)) by {
                lemma_header_bytes_roundtrip(s);
            }
            assert(lake.contents() =~= Map::<Seq<u8>, Seq<u8>>::empty());
        }
        Ok(lake)
    }
}

impl DataLake {
    /// Builds a fresh lake over a zero-filled writable region: sizes the
    /// index by the largest prime not above `file_size / 1024`, writes the
    /// header, and starts with an empty, exactly tracked store. Fails
    /// exactly when the region is too small to hold header, index and a
    /// nonempty arena.
    pub fn create(data_map: MemoryMapping, file_size: u64) -> (r: UssResult<DataLake>)
        requires
            mapping_writable(data_map),
            mapping_seq(data_map).len() == file_size,
            file_size <= usize::MAX as u64,
            file_size < 0x10000000000,
            forall|i: int| 0 <= i < mapping_seq(data_map).len() ==> mapping_seq(data_map)[i] == 0,
        ensures
            r matches Ok(lake) ==> {
                &&& lake.wf()
                &&& lake.is_complete()
                &&& lake.contents() == Map::<Seq<u8>, Seq<u8>>::empty()
                &&& !lake.spec_readonly()
                &&& lake.spec_file_size() == file_size
                &&& lake.spec_index_mod() as int == sieve::greatest_prime_le(
                    file_size as int / 1024,
                )
                &&& lake.spec_data_offset() as int == 2 + (lake.spec_index_mod() as int - 1) / 64
                &&& lake.spec_data_next() == lake.spec_data_offset()
                &&& lake.spec_data_size() as int == file_size as int / 256
                    - lake.spec_data_offset() as int
                &&& lake.spec_index_offset() == 1
                &&& lake.spec_index_offset_u32() == 64
                &&& lake.spec_index_max() as int == lake.spec_data_offset() as int * 64
                &&& lake.bytes().len() == file_size as int
                &&& lake.bytes().subrange(0, 44) == header_bytes_of(
                    file_size,
                    lake.spec_data_size(),
                    lake.spec_data_offset(),
                    lake.spec_data_next(),
                    lake.spec_index_mod(),
                    lake.spec_index_max(),
                    1,
                    64,
                )
                &&& forall|i: int| 44 <= i < lake.bytes().len() ==> lake.bytes()[i] == 0
            },
            r is Ok <==> file_size as int / 256 > 2 + (sieve::greatest_prime_le(
                file_size as int / 1024,
            ) - 1) / 64,
    {
        let limit: u32 = (file_size / 1024) as u32;
        let index_mod = sieve::get_le_prime(limit);
        proof {
            assert(limit as int == file_size as int / 1024);
            assert(index_mod < 0x40000000) by {
                assert(limit < 0x40000000);
                if limit >= 2 {
                } else {
                    assert(index_mod == 2);
                }
            }
        }
        let index_offset: u32 = 1;
        let index_offset_u32: u32 = 64;
        let data_offset: u32 = 2 + (index_mod - 1) / 64;
        let index_max: u32 = data_offset * 64;
        let fs_slots: u64 = file_size / 256;
        if fs_slots <= data_offset as u64 {
            return Err(UssError::StaticError("DataLake::create: file too small"));
        }
        let data_size: u32 = (fs_slots - data_offset as u64) as u32;
        let data_next: u32 = data_offset;
        let header = LakeHeader {
            file_size,
            data_size,
            data_offset,
            data_next,
            index_mod,
            index_max,
            index_offset,
            index_offset_u32,
        };
        let mut hv: Vec<u8> = Vec::new();
        hv.push(68);
        hv.push(97);
        hv.push(116);
        hv.push(97);
        hv.push(76);
        hv.push(97);
        hv.push(107);
        hv.push(101);
        let mut fsb = le::u64_to_le(file_size);
        hv.append(&mut fsb);
        let mut b = le::u32_to_le(data_size);
        hv.append(&mut b);
        let mut b = le::u32_to_le(data_offset);
        hv.append(&mut b);
        let mut b = le::u32_to_le(data_next);
        hv.append(&mut b);
        let mut b = le::u32_to_le(index_mod);
        hv.append(&mut b);
        let mut b = le::u32_to_le(index_max);
        hv.append(&mut b);
        let mut b = le::u32_to_le(index_offset);
        hv.append(&mut b);
        let mut b = le::u32_to_le(index_offset_u32);
        hv.append(&mut b);
        proof {
            assert(hv@ =~= header_bytes(header));
        }
        let mut data_map = data_map;
        data_map.write_bytes(0, hv.as_slice());
        let lake = DataLake {
            data: data_map,
            header,
            readonly: false,
            compressors: CompressorCollection::new(),
            model: Ghost(Map::empty()),
            slot_ids: Ghost(Map::empty()),
            complete: Ghost(true),
        };
        proof {
            let s = lake.bytes();
            assert(s.subrange(0, 44) =~= header_bytes(header));
            assert(s.len() == file_size as int);
            assert forall|j: int|
                64 <= j < index_max as int && #[trigger] u32_at(s, j)
                    != 0 implies lake.slot_ids@.dom().contains(j) by {
                assert(j * 4 >= 256);
                assert(j * 4 + 4 <= index_max as int * 4);
                assert(index_max as int * 4 == data_offset as int * 256);
                assert(data_offset as int * 256 <= (file_size as int / 256) * 256);
                assert((file_size as int / 256) * 256 <= file_size as int) by (nonlinear_arith);
                assert(s[j * 4] == 0 && s[j * 4 + 1] == 0 && s[j * 4 + 2] == 0 && s[j * 4 + 3]
                    == 0);
                le::lemma_u32_of_le_zero();
                assert(u32_at(s, j) == 0);
            }
            assert(lake.contents() =~= Map::<Seq<u8>, Seq<u8>>::empty());
        }
        Ok(lake)
    }
}

impl DataChunk {
    /// Parses the chunk header found at arena slot `offset`.
    pub fn at(mapping: &MemoryMapping, offset: u32) -> (r: UssResult<DataChunk>)
        requires
            mapping_seq(*mapping).len() <= usize::MAX,
            (offset as int) * 256 + 54 <= mapping_seq(*mapping).len(),
        ensures
            r matches Ok(c) ==> {
                let off = (offset as int) * 256;
                let s = mapping_seq(*mapping);
                &&& c.offset == offset
                &&& c.header.hash@ == s.subrange(off, off + 50)
                &&& c.header.hash@.len() == 50
                &&& le::u16_le(c.header.uncompressed_length) == s.subrange(off + 50, off + 52)
                &&& le::u16_le(c.header.compressed_length) == s.subrange(off + 52, off + 54)
            },
            r is Ok,
    {
        let off = offset_to_data_offset(offset);
        let hb = mapping.get_ro_slice(off, 54);
        let hash = vstd::slice::slice_to_vec(&hb[0..50]);
        let uncompressed_length = le::u16_from_le(hb[50], hb[51]);
        let compressed_length = le::u16_from_le(hb[52], hb[53]);
        proof {
            let s = mapping_seq(*mapping);
            let o = (offset as int) * 256;
            assert(hash@ =~= s.subrange(o, o + 50));
            le::lemma_u16_of_le_roundtrip(hb[50], hb[51]);
            le::lemma_u16_of_le_roundtrip(hb[52], hb[53]);
            assert(le::u16_le(uncompressed_length) =~= s.subrange(o + 50, o + 52));
            assert(le::u16_le(compressed_length) =~= s.subrange(o + 52, o + 54));
        }
        Ok(DataChunk { header: DataChunkHeader { hash, uncompressed_length, compressed_length }, offset, data: Ghost(Seq::empty()) })
    }
}

impl DataLake {
    /// The chunk's whole on-disk span lies inside the file.
    pub open spec fn chunk_span_ok(&self, c: DataChunk) -> bool {
        (c.offset as int) * 256 + 54 + c.header.compressed_length as int <= self.bytes().len()
    }

    /// The chunk stands for its ghost data: the stored stream is that
    /// data's deflate stream, and the stored length is its length.
    pub closed spec fn chunk_valid(&self, c: DataChunk) -> bool {
        let off = (c.offset as int) * 256;
        &&& self.chunk_span_ok(c)
        &&& self.bytes().subrange(off + 54, off + 54 + c.header.compressed_length as int)
            == compression::deflate_of(c.data@)
        &&& c.header.compressed_length == compression::deflate_of(c.data@).len()
        &&& c.header.uncompressed_length == c.data@.len()
    }
}

impl DataChunk {
    /// The chunk's stored deflate stream, straight from the mapping.
    pub fn read_compressed<'a>(&self, lake: &'a DataLake) -> (r: &'a [u8])
        requires
            lake.wf(),
            lake.chunk_span_ok(*self),
        ensures
            r@ == lake.bytes().subrange(
                (self.offset as int) * 256 + 54,
                (self.offset as int) * 256 + 54 + self.header.compressed_length as int,
            ),
    {
        let off = offset_to_data_offset(self.offset);
        lake.data.get_ro_slice(off + CHUNK_HEADER_SIZE, self.header.compressed_length as usize)
    }

    /// Inflates the chunk back to the blob it stores. On a chunk that
    /// stands for known data this returns exactly that data.
    pub fn read(&self, lake: &DataLake) -> (r: UssResult<Vec<u8>>)
        requires
            lake.wf(),
            lake.chunk_span_ok(*self),
        ensures
            r matches Ok(v) ==> v@.len() <= self.header.uncompressed_length,
            lake.chunk_valid(*self) ==> (r matches Ok(v) && v@ == self.data@),
    {
        let compressed = self.read_compressed(lake);
        let outlen = self.header.uncompressed_length as usize;
        let data = compression::decompress(compressed, outlen);

        match data {
            Ok(v) => Ok(v),
            Err(e) => {
                proof {
                    if lake.chunk_valid(*self) {
                        assert(compressed@ == compression::deflate_of(self.data@));
                        assert(self.data@.len() <= outlen);
                        assert(false);
                    }
                }
                Err(e)
            },
        }
    }
}

fn eq_bytes(a: &[u8], b: &[u8]) -> (r: bool)
    ensures
        r == (a@ == b@),
{
    let n = a.len();
    if n != b.len() {
        return false;
    }
    let mut i: usize = 0;
    while i < n
        invariant
            i <= n,
            n == a@.len() == b@.len(),
            forall|j: int| 0 <= j < i ==> a@[j] == b@[j],
        decreases n - i,
    {
        if a[i] != b[i] {
            return false;
        }
        i += 1;
    }
    proof {
        assert(a@ =~= b@);
    }
    true
}

impl DataLake {
    /// Looks an identifier up in the primary index by linear probing.
    /// On a lake whose model is exact, the result is `Some` exactly when
    /// the identifier was stored, and the chunk is the stored one.
    pub fn get(&self, hash: &[u8]) -> (r: Option<DataChunk>)
        requires
            self.wf(),
            hash@.len() == 50,
        ensures
            r matches Some(c) ==> c.header.hash@ == hash@ && self.chunk_span_ok(c),
            self.is_complete() ==> (r is Some <==> self.records().dom().contains(hash@)),
            self.is_complete() && r is Some ==> ({
                let c = r->Some_0;
                let rec = self.records()[hash@];
                &&& self.records().dom().contains(hash@)
                &&& c.offset == rec.offset
                &&& c.data@ == rec.data
                &&& self.chunk_valid(c)
                &&& c.header.uncompressed_length == rec.data.len()
                &&& c.header.compressed_length == compression::deflate_of(rec.data).len()
            }),
    {
        let ghost s = self.bytes();
        let ghost h = self.header;
        let home = self.get_index_offset(hash);
        let index_max = self.header.index_max;
        let mut slot: u32 = home;
        proof {
            lemma_index_cells_in_file(h);
        }
        while slot < index_max
            invariant
                self.wf(),
                hash@.len() == 50,
                s == self.bytes(),
                h == self.header,
                index_max == h.index_max,
                home as int == home_slot(h.index_mod, hash@),
                home <= slot <= index_max,
                forall|j: int| home as int <= j < slot as int ==> u32_at(s, j) != 0,
                forall|j: int|
                    home as int <= j < slot as int ==> (self.slot_ids@.dom().contains(j)
                        ==> self.slot_ids@[j] != hash@),
            decreases index_max - slot,
        {
            proof {
                assert((slot as int) * 4 + 4 <= (h.index_max as int) * 4);
            }
            let chunk_offset = self.data.read_u32(slot);
            if chunk_offset == 0 {
                proof {
                    if self.model@.dom().contains(hash@) {
                        let rec = self.model@[hash@];
                        if rec.slot < slot as int {
                            assert(self.slot_ids@[rec.slot] == hash@);
                            assert(false);
                        } else {
                            assert(u32_at(s, slot as int) != 0);
                            assert(false);
                        }
                    }
                }
                return None;
            }
            if (chunk_offset as u64) * 256 + 54 > self.header.file_size {
                proof {
                    if self.complete@ {
                        lemma_occupied_cell_is_record(self, slot as int);
                    }
                }
                return None;
            }
            let chunk = match DataChunk::at(&self.data, chunk_offset) {
                Ok(c) => c,
                Err(_) => {
                    proof {
                        assert(false);
                    }
                    return None;
                },
            };
            if !eq_bytes(chunk.header.hash.as_slice(), hash) {
                proof {
                    if self.slot_ids@.dom().contains(slot as int) {
                        let id2 = self.slot_ids@[slot as int];
                        let rec2 = self.model@[id2];
                        assert(rec2.slot == slot as int);
                        assert(rec2.offset == chunk_offset);
                        assert(chunk.header.hash@ == id2);
                    }
                }
                slot = slot + 1;
                continue;
            }
            if (chunk_offset as u64) * 256 + 54 + chunk.header.compressed_length as u64
                > self.header.file_size {
                proof {
                    if self.complete@ {
                        lemma_occupied_cell_is_record(self, slot as int);
                        let id2 = self.slot_ids@[slot as int];
                        let rec2 = self.model@[id2];
                        assert(rec2.offset == chunk_offset);
                        assert(chunk.header.hash@ == id2);
                        le::lemma_u16_le_roundtrip(chunk.header.compressed_length);
                        le::lemma_u16_le_roundtrip(
                            (compression::deflate_of(rec2.data).len() as u16),
                        );
                        assert(false);
                    }
                }
                return None;
            }
            let ghost cdata = if self.model@.dom().contains(hash@) {
                self.model@[hash@].data
            } else {
                Seq::empty()
            };
            let found = DataChunk { header: chunk.header, offset: chunk_offset, data: Ghost(cdata) };
            proof {
                if self.slot_ids@.dom().contains(slot as int) {
                    let id2 = self.slot_ids@[slot as int];
                    let rec2 = self.model@[id2];
                    assert(rec2.slot == slot as int);
                    assert(rec2.offset == chunk_offset);
                    assert(chunk.header.hash@ == id2);
                    assert(id2 == hash@);
                    le::lemma_u16_le_roundtrip(found.header.uncompressed_length);
                    le::lemma_u16_le_roundtrip((rec2.data.len() as u16));
                    le::lemma_u16_le_roundtrip(found.header.compressed_length);
                    le::lemma_u16_le_roundtrip((compression::deflate_of(rec2.data).len() as u16));
                    assert(found.header.uncompressed_length as int == rec2.data.len());
                    assert(found.header.compressed_length as int == compression::deflate_of(
                        rec2.data,
                    ).len());
                }
                if self.complete@ {
                    assert(self.slot_ids@.dom().contains(slot as int));
                }
            }
            return Some(found);
        }
        proof {
            if self.model@.dom().contains(hash@) {
                let rec = self.model@[hash@];
                assert(self.slot_ids@[rec.slot] == hash@);
                assert(false);
            }
        }
        None
    }
}

/// Every index cell lies inside the file: the index ends where the arena
/// begins, and the arena ends inside the file.
proof fn lemma_index_cells_in_file(h: LakeHeader)
    requires
        h.index_max as int == h.data_offset as int * 64,
        h.data_size as int == h.file_size as int / 256 - h.data_offset as int,
    ensures
        (h.index_max as int) * 4 <= h.file_size as int,
{
    assert((h.index_max as int) * 4 == h.data_offset as int * 256);
    assert(h.data_offset as int <= h.file_size as int / 256);
    assert(h.data_offset as int * 256 <= (h.file_size as int / 256) * 256) by (nonlinear_arith)
        requires
            h.data_offset as int <= h.file_size as int / 256,
    ;
    assert((h.file_size as int / 256) * 256 <= h.file_size as int) by (nonlinear_arith);
}

/// Every identifier the model knows is exactly 50 symbols long.
pub proof fn lemma_record_ids_are_identifiers(lake: &DataLake)
    requires
        lake.wf(),
    ensures
        forall|id: Seq<u8>| #[trigger] lake.records().dom().contains(id) ==> id.len() == 50,
{
    assert forall|id: Seq<u8>| #[trigger]
        lake.records().dom().contains(id) implies id.len() == 50 by {
        assert(chunk_region_ok(
            lake.bytes(),
            lake.spec_data_offset(),
            lake.spec_data_next(),
            lake.records()[id],
            id,
        ));
    }
}

/// In a lake with an exact model, an occupied index cell names a record.
proof fn lemma_occupied_cell_is_record(lake: &DataLake, j: int)
    requires
        lake.wf(),
        lake.is_complete(),
        64 <= j < lake.spec_index_max() as int,
        u32_at(lake.bytes(), j) != 0,
    ensures
        lake.slot_ids@.dom().contains(j),
        lake.records().dom().contains(lake.slot_ids@[j]),
        lake.records()[lake.slot_ids@[j]].slot == j,
{
}

/// How many 256-byte slots a chunk with a `cl`-byte stream occupies.
pub open spec fn chunk_slots(cl: int) -> int {
    (53 + cl) / 256 + 1
}

/// Splicing `w` into `s1` at `at` leaves every byte outside `[at, at+|w|)`
/// unchanged and puts `w` there.
proof fn lemma_splice_pointwise(s1: Seq<u8>, s2: Seq<u8>, at: int, w: Seq<u8>)
    requires
        0 <= at,
        at + w.len() <= s1.len(),
        s2 == s1.take(at) + w + s1.skip(at + w.len()),
    ensures
        s2.len() == s1.len(),
        forall|i: int| 0 <= i < at ==> s2[i] == s1[i],
        forall|i: int| at + w.len() <= i < s1.len() ==> s2[i] == s1[i],
        s2.subrange(at, at + w.len()) == w,
{
    assert(s2.subrange(at, at + w.len()) =~= w);
}

/// Every known record survives writes that leave the occupied index cells
/// and the arena below the old high-water mark untouched, even while the
/// high-water mark advances.
proof fn lemma_records_survive(
    s1: Seq<u8>,
    s2: Seq<u8>,
    data_offset: u32,
    data_next1: u32,
    data_next2: u32,
    index_mod: u32,
    index_max: u32,
    model: Map<Seq<u8>, ChunkRecord>,
    slot_ids: Map<int, Seq<u8>>,
)
    requires
        s2.len() == s1.len(),
        index_mod >= 1,
        data_next1 <= data_next2,
        data_next1 as int * 256 <= s1.len(),
        forall|i: int|
            data_offset as int * 256 <= i < data_next1 as int * 256 ==> s2[i] == s1[i],
        forall|j: int|
            64 <= j < index_max as int && u32_at(s1, j) != 0 ==> u32_at(s2, j) == u32_at(s1, j),
        forall|id: Seq<u8>| #[trigger]
            model.dom().contains(id) ==> chunk_region_ok(s1, data_offset, data_next1, model[id], id)
                && rec_probe_ok(s1, index_mod, index_max, model[id], id),
    ensures
        forall|id: Seq<u8>| #[trigger]
            model.dom().contains(id) ==> chunk_region_ok(s2, data_offset, data_next2, model[id], id)
                && rec_probe_ok(s2, index_mod, index_max, model[id], id),
{
    assert forall|id: Seq<u8>| #[trigger] model.dom().contains(id) implies chunk_region_ok(
        s2,
        data_offset,
        data_next2,
        model[id],
        id,
    ) && rec_probe_ok(s2, index_mod, index_max, model[id], id) by {
        let rec = model[id];
        let off = rec.offset as int * 256;
        let cl = compression::deflate_of(rec.data).len() as int;
        assert(data_offset as int * 256 <= off) by (nonlinear_arith)
            requires
                data_offset <= rec.offset,
                off == rec.offset as int * 256,
        ;
        assert(s2.subrange(off, off + 50) =~= s1.subrange(off, off + 50));
        assert(s2.subrange(off + 50, off + 52) =~= s1.subrange(off + 50, off + 52));
        assert(s2.subrange(off + 52, off + 54) =~= s1.subrange(off + 52, off + 54));
        assert(s2.subrange(off + 54, off + 54 + cl) =~= s1.subrange(off + 54, off + 54 + cl));
        assert(u32_at(s2, rec.slot) == u32_at(s1, rec.slot));
        assert forall|j: int|
            home_slot(index_mod, id) <= j < rec.slot implies u32_at(s2, j) != 0 by {
            assert(u32_at(s1, j) != 0);
            assert(64 <= j < index_max as int);
        }
        assert(rec.offset as int * 256 + 54 + cl <= data_next2 as int * 256) by {
            assert(data_next1 as int * 256 <= data_next2 as int * 256) by (nonlinear_arith)
                requires
                    data_next1 <= data_next2,
            ;
        }
    }
}

impl DataLake {
    /// The first free index cell on the probe path of `hash`, if any.
    fn probe_free(&self, hash: &[u8]) -> (r: Option<u32>)
        requires
            self.wf(),
            hash@.len() == 50,
        ensures
            r matches Some(j) ==> ({
                &&& home_slot(self.spec_index_mod(), hash@) <= j as int
                &&& (j as int) < self.spec_index_max() as int
                &&& u32_at(self.bytes(), j as int) == 0
                &&& forall|k: int|
                    home_slot(self.spec_index_mod(), hash@) <= k < j as int ==> u32_at(
                        self.bytes(),
                        k,
                    ) != 0
            }),
            r is None ==> forall|k: int|
                home_slot(self.spec_index_mod(), hash@) <= k < self.spec_index_max() as int
                    ==> u32_at(self.bytes(), k) != 0,
    {
        let home = self.get_index_offset(hash);
        let index_max = self.header.index_max;
        let mut slot: u32 = home;
        while slot < index_max
            invariant
                self.wf(),
                hash@.len() == 50,
                home as int == home_slot(self.spec_index_mod(), hash@),
                home <= slot <= index_max,
                index_max == self.spec_index_max(),
                forall|k: int| home as int <= k < slot as int ==> u32_at(self.bytes(), k) != 0,
            decreases index_max - slot,
        {
            proof {
                lemma_index_cells_in_file(self.header);
                assert((slot as int) * 4 + 4 <= (index_max as int) * 4);
            }
            if self.data.read_u32(slot) == 0 {
                return Some(slot);
            }
            slot = slot + 1;
        }
        None
    }

    /// Whether storing `data` must succeed: it is already stored, or the
    /// lake is writable with room in the arena, a stream that fits the
    /// compression buffer, and a free index cell on the probe path.
    pub open spec fn can_store(&self, data: Seq<u8>) -> bool {
        let id = hasher::hash_of(data);
        let cl = compression::deflate_of(data).len() as int;
        ||| self.records().dom().contains(id)
        ||| (!self.spec_readonly() && cl <= 4111 && self.spec_data_next() as int + chunk_slots(cl)
            <= self.spec_data_offset() as int + self.spec_data_size() as int && exists|j: int|
            home_slot(self.spec_index_mod(), id) <= j < self.spec_index_max() as int && u32_at(
                self.bytes(),
                j,
            ) == 0)
    }

    /// Writes the chunk built from `hash` and `compressed` at the arena's
    /// high-water mark and advances the mark, in the header copy and on
    /// disk. The index and every stored record are untouched.
    #[verifier::spinoff_prover]
    #[verifier::rlimit(100)]
    fn append_chunk(&mut self, hash: &Vec<u8>, uncompressed_length: u16, compressed: &Vec<u8>) -> (offset: u32)
        requires
            old(self).wf(),
            !old(self).spec_readonly(),
            hash@.len() == 50,
            compressed@.len() <= 4111,
            old(self).spec_data_next() as int + chunk_slots(compressed@.len() as int) <= old(self).spec_data_offset() as int + old(self).spec_data_size() as int,
        ensures
            final(self).wf(),
            offset == old(self).spec_data_next(),
            final(self).is_complete() == old(self).is_complete(),
            final(self).spec_readonly() == old(self).spec_readonly(),
            final(self).spec_file_size() == old(self).spec_file_size(),
            final(self).spec_data_offset() == old(self).spec_data_offset(),
            final(self).spec_data_size() == old(self).spec_data_size(),
            final(self).spec_index_mod() == old(self).spec_index_mod(),
            final(self).spec_index_max() == old(self).spec_index_max(),
            final(self).records() == old(self).records(),
            final(self).slot_ids@ == old(self).slot_ids@,
            final(self).bytes().len() == old(self).bytes().len(),
            final(self).spec_data_next() as int == offset as int + chunk_slots(
                compressed@.len() as int,
            ),
            final(self).bytes().subrange(
                offset as int * 256,
                offset as int * 256 + 54 + compressed@.len(),
            ) == chunk_header_bytes(hash@, uncompressed_length, (compressed@.len() as u16))
                + compressed@,
            forall|j: int|
                64 <= j < old(self).spec_index_max() as int ==> u32_at(final(self).bytes(), j)
                    == u32_at(old(self).bytes(), j),
    {
        let ghost s1 = self.bytes();
        let ghost pre = *self;
        let compressed_length: u16 = compressed.len() as u16;
        let offset: u32 = self.header.data_next;
        let alloc_size: u32 = 54 + compressed_length as u32;
        let slots: u32 = (alloc_size - 1) / 256 + 1;
        let data_next2: u32 = offset + slots;

        proof {
            let h = self.header;
            assert(54 + compressed@.len() <= chunk_slots(compressed@.len() as int) * 256) by {
                let x = 53 + compressed@.len() as int;
                assert(x == 256 * (x / 256) + x % 256 && 0 <= x % 256 < 256) by (nonlinear_arith);
            }
            assert(data_next2 as int * 256 <= (h.data_offset as int + h.data_size as int) * 256)
                by (nonlinear_arith)
                requires
                    data_next2 as int <= h.data_offset as int + h.data_size as int,
            ;
            assert((h.data_offset as int + h.data_size as int) * 256 == (h.file_size as int / 256)
                * 256);
            assert((h.file_size as int / 256) * 256 <= h.file_size as int) by (nonlinear_arith);
            assert(offset as int * 256 + 54 + compressed@.len() <= data_next2 as int * 256) by {
                assert(offset as int * 256 + chunk_slots(compressed@.len() as int) * 256
                    == data_next2 as int * 256) by (nonlinear_arith)
                    requires
                        data_next2 as int == offset as int + chunk_slots(compressed@.len() as int),
                ;
            }
        }

        // write the chunk: header then stream, as one contiguous block
        let mut cv: Vec<u8> = Vec::new();
        cv.extend_from_slice(hash.as_slice());
        let ulb = le::u16_to_le(uncompressed_length);
        cv.extend_from_slice(ulb.as_slice());
        let clb = le::u16_to_le(compressed_length);
        cv.extend_from_slice(clb.as_slice());
        cv.extend_from_slice(compressed.as_slice());
        proof {
            assert(cv@ =~= chunk_header_bytes(hash@, uncompressed_length, compressed_length)
                + compressed@);
        }
        let write_at: usize = offset_to_data_offset(offset);
        self.data.write_bytes(write_at, cv.as_slice());

        let ghost s2 = self.bytes();
        proof {
            lemma_splice_pointwise(s1, s2, write_at as int, cv@);
            lemma_index_cells_in_file(self.header);
            assert(self.header.data_offset as int * 256 <= write_at as int) by (nonlinear_arith)
                requires
                    self.header.data_offset <= offset,
                    write_at as int == offset as int * 256,
            ;
            assert forall|j: int|
                64 <= j < self.header.index_max as int implies u32_at(s2, j) == u32_at(
                s1,
                j,
            ) by {
                assert(j * 4 + 4 <= self.header.index_max as int * 4);
            }
            lemma_records_survive(
                s1,
                s2,
                self.header.data_offset,
                self.header.data_next,
                data_next2,
                self.header.index_mod,
                self.header.index_max,
                self.model@,
                self.slot_ids@,
            );
            assert(s2.subrange(0, 44) =~= s1.subrange(0, 44));
        }

        // advance the high-water mark, in the header copy and on disk
        let ghost h_before = self.header;
        self.header.data_next = data_next2;
        self.data.write_u32(6, data_next2);

        let ghost s3 = self.bytes();
        proof {
            lemma_splice_pointwise(s2, s3, 24, le::u32_le(data_next2));
            assert forall|j: int|
                64 <= j < self.header.index_max as int implies u32_at(s3, j) == u32_at(
                s2,
                j,
            ) by {
                assert(j * 4 >= 256);
            }
            lemma_records_survive(
                s2,
                s3,
                self.header.data_offset,
                data_next2,
                data_next2,
                self.header.index_mod,
                self.header.index_max,
                self.model@,
                self.slot_ids@,
            );
            assert(s3.subrange(0, 44) =~= header_bytes(self.header)) by {
                assert(s2.subrange(0, 44) == header_bytes(h_before));
                assert forall|i: int| 0 <= i < 44 implies s3.subrange(0, 44)[i] == header_bytes(
                    self.header,
                )[i] by {
                    if i < 24 {
                        assert(s3[i] == s2[i]);
                        assert(header_bytes(self.header)[i] == header_bytes(h_before)[i]);
                    } else if i < 28 {
                        assert(s3.subrange(24, 28) == le::u32_le(data_next2));
                        assert(header_bytes(self.header)[i] == le::u32_le(data_next2)[i - 24]);
                    } else {
                        assert(s3[i] == s2[i]);
                        assert(header_bytes(self.header)[i] == header_bytes(h_before)[i]);
                    }
                }
            }
            assert(s3.subrange(
                offset as int * 256,
                offset as int * 256 + 54 + compressed@.len(),
            ) =~= s2.subrange(offset as int * 256, offset as int * 256 + 54 + compressed@.len()))
                by {
                assert forall|i: int|
                    offset as int * 256 <= i < offset as int * 256 + 54
                        + compressed@.len() implies s3[i] == s2[i] by {
                    assert(i >= 256);
                }
            }
            assert(s2.subrange(offset as int * 256, offset as int * 256 + 54 + compressed@.len())
                == cv@);
        }
        offset
    }

    /// Links the chunk standing at `offset` into the primary index, at
    /// the first free cell on its identifier's probe path. Fails exactly
    /// when no cell on that path is free.
    #[verifier::spinoff_prover]
    #[verifier::rlimit(100)]
    fn link_chunk(
        &mut self,
        hash: &Vec<u8>,
        offset: u32,
        uncompressed_length: u16,
        compressed_length: u16,
        data: Ghost<Seq<u8>>,
    ) -> (r: UssResult<()>)
        requires
            old(self).wf(),
            !old(self).spec_readonly(),
            hash@.len() == 50,
            hash@ == hasher::hash_of(data@),
            data@.len() <= 65535,
            uncompressed_length == data@.len() as u16,
            compressed_length as int == compression::deflate_of(data@).len(),
            compression::deflate_of(data@).len() <= 4111,
            old(self).spec_data_offset() <= offset,
            offset as int * 256 + 54 + compression::deflate_of(data@).len() <= old(self).spec_data_next() as int * 256,
            old(self).bytes().subrange(
                offset as int * 256,
                offset as int * 256 + 54 + compression::deflate_of(data@).len(),
            ) == chunk_header_bytes(hash@, uncompressed_length, compressed_length)
                + compression::deflate_of(data@),
            old(self).is_complete() ==> !old(self).records().dom().contains(hash@),
        ensures
            final(self).wf(),
            final(self).is_complete() == old(self).is_complete(),
            final(self).spec_readonly() == old(self).spec_readonly(),
            final(self).spec_file_size() == old(self).spec_file_size(),
            final(self).spec_data_offset() == old(self).spec_data_offset(),
            final(self).spec_data_size() == old(self).spec_data_size(),
            final(self).spec_data_next() == old(self).spec_data_next(),
            final(self).spec_index_mod() == old(self).spec_index_mod(),
            final(self).spec_index_max() == old(self).spec_index_max(),
            final(self).bytes().len() == old(self).bytes().len(),
            forall|id: Seq<u8>| #[trigger]
                old(self).records().dom().contains(id) ==> final(self).records().dom().contains(id)
                    && final(self).records()[id] == old(self).records()[id],
            forall|i: int|
                old(self).spec_data_offset() as int * 256 <= i < old(self).bytes().len() ==> final(self).bytes()[i] == old(self).bytes()[i],
            r is Err ==> *final(self) == *old(self),
            r is Err ==> (forall|k: int|
                home_slot(old(self).spec_index_mod(), hash@) <= k < old(self).spec_index_max() as int ==> u32_at(old(self).bytes(), k) != 0),
            r is Ok ==> (exists|j: int|
                home_slot(old(self).spec_index_mod(), hash@) <= j < old(self).spec_index_max() as int && u32_at(old(self).bytes(), j) == 0),
            r is Ok && !old(self).records().dom().contains(hash@) ==> ({
                let rec = final(self).records()[hash@];
                &&& final(self).records().dom().contains(hash@)
                &&& rec.offset == offset
                &&& rec.data == data@
                &&& final(self).records() == old(self).records().insert(hash@, rec)
                &&& u32_at(final(self).bytes(), rec.slot) == rec.offset
                &&& forall|j: int|
                    64 <= j < old(self).spec_index_max() as int && j != rec.slot ==> u32_at(
                        final(self).bytes(),
                        j,
                    ) == u32_at(old(self).bytes(), j)
            }),
            r is Ok && old(self).records().dom().contains(hash@) ==> final(self).records() == old(self).records(),
    {
        let ghost s3 = self.bytes();
        let ghost pre = *self;
        let index_max = self.header.index_max;
        let slot: u32 = match self.probe_free(hash.as_slice()) {
            Some(j) => j,
            None => {
                return Err(UssError::StaticError("DataLake index ran out of space."));
            },
        };
        let ghost home = home_slot(self.header.index_mod, hash@);
        let ghost j0 = slot as int;
        proof {
            assert(u32_at(s3, j0) == 0);
            lemma_index_cells_in_file(self.header);
            assert((slot as int) * 4 + 4 <= (index_max as int) * 4);
        }
        self.data.write_u32(slot, offset);

        let ghost s4 = self.bytes();
        let ghost newrec = ChunkRecord { slot: j0, offset, data: data@ };
        proof {
            lemma_splice_pointwise(s3, s4, j0 * 4, le::u32_le(offset));
            assert forall|j: int|
                64 <= j < index_max as int && j != j0 implies u32_at(s4, j) == u32_at(s3, j) by {
                if j < j0 {
                    assert(j * 4 + 4 <= j0 * 4);
                } else {
                    assert(j * 4 >= j0 * 4 + 4);
                }
            }
            assert forall|j: int|
                64 <= j < index_max as int && u32_at(s3, j) != 0 implies u32_at(s4, j) == u32_at(
                s3,
                j,
            ) by {
                assert(j != j0);
            }
            lemma_records_survive(
                s3,
                s4,
                self.header.data_offset,
                self.header.data_next,
                self.header.data_next,
                self.header.index_mod,
                index_max,
                self.model@,
                self.slot_ids@,
            );
            assert(s4.subrange(0, 44) =~= s3.subrange(0, 44)) by {
                assert forall|i: int| 0 <= i < 44 implies s4[i] == s3[i] by {
                    assert(j0 * 4 >= 256);
                }
            }
            assert forall|i: int|
                self.header.data_offset as int * 256 <= i < s3.len() implies s4[i] == s3[i] by {
                assert(j0 * 4 + 4 <= index_max as int * 4);
                assert(index_max as int * 4 == self.header.data_offset as int * 256);
            }
        }

        let ghost off = offset as int * 256;
        let ghost cl = compression::deflate_of(data@).len() as int;
        proof {
            // the chunk's bytes were untouched by the cell write
            assert(s4.subrange(off, off + 54 + cl) =~= s3.subrange(off, off + 54 + cl)) by {
                assert(self.header.data_offset as int * 256 <= off) by (nonlinear_arith)
                    requires
                        self.header.data_offset <= offset,
                        off == offset as int * 256,
                ;
                assert forall|i: int| off <= i < off + 54 + cl implies s4[i] == s3[i] by {
                    assert(self.header.data_offset as int * 256 <= i < s3.len());
                }
            }
            let cb = chunk_header_bytes(hash@, uncompressed_length, compressed_length)
                + compression::deflate_of(data@);
            assert(s4.subrange(off, off + 50) =~= cb.subrange(0, 50));
            assert(s4.subrange(off + 50, off + 52) =~= cb.subrange(50, 52));
            assert(s4.subrange(off + 52, off + 54) =~= cb.subrange(52, 54));
            assert(s4.subrange(off + 54, off + 54 + cl) =~= cb.subrange(54, 54 + cl));
            assert(cb.subrange(0, 50) =~= hash@);
            assert(cb.subrange(50, 52) =~= le::u16_le(uncompressed_length));
            assert(cb.subrange(52, 54) =~= le::u16_le(compressed_length));
            assert(cb.subrange(54, 54 + cl) =~= compression::deflate_of(data@));
            assert(chunk_region_ok(
                s4,
                self.header.data_offset,
                self.header.data_next,
                newrec,
                hash@,
            ));
            assert(rec_probe_ok(s4, self.header.index_mod, index_max, newrec, hash@)) by {
                assert(u32_at(s4, j0) == offset);
                assert forall|j: int| home <= j < j0 implies u32_at(s4, j) != 0 by {
                    assert(u32_at(s3, j) != 0);
                }
            }
        }

        let ghost was_known = pre.model@.dom().contains(hash@);
        self.model = Ghost(
            if was_known {
                pre.model@
            } else {
                pre.model@.insert(hash@, newrec)
            },
        );
        self.slot_ids = Ghost(
            if was_known {
                pre.slot_ids@
            } else {
                pre.slot_ids@.insert(j0, hash@)
            },
        );

        proof {
            assert forall|q: Seq<u8>| #[trigger]
                self.model@.dom().contains(q) implies chunk_region_ok(
                s4,
                self.header.data_offset,
                self.header.data_next,
                self.model@[q],
                q,
            ) && rec_probe_ok(s4, self.header.index_mod, self.header.index_max, self.model@[q], q)
                && self.slot_ids@.dom().contains(self.model@[q].slot)
                && self.slot_ids@[self.model@[q].slot] == q by {
                if !was_known && q == hash@ {
                } else {
                    assert(pre.model@.dom().contains(q));
                    assert(self.model@[q] == pre.model@[q]);
                    assert(pre.model@[q].slot != j0) by {
                        assert(u32_at(s3, pre.model@[q].slot) != 0);
                    }
                }
            }
            assert forall|j: int| #[trigger]
                self.slot_ids@.dom().contains(j) implies 64 <= j < self.header.index_max as int
                && self.model@.dom().contains(self.slot_ids@[j]) && self.model@[self.slot_ids@[j]].slot
                == j by {
                if !was_known && j == j0 {
                } else {
                    assert(pre.slot_ids@.dom().contains(j));
                    let q = pre.slot_ids@[j];
                    assert(pre.model@.dom().contains(q));
                    if !was_known {
                        assert(q != hash@);
                    }
                }
            }
            if self.complete@ {
                assert forall|j: int|
                    64 <= j < self.header.index_max as int && #[trigger] u32_at(s4, j)
                        != 0 implies self.slot_ids@.dom().contains(j) by {
                    if j != j0 {
                        assert(u32_at(s3, j) == u32_at(s4, j));
                        assert(pre.slot_ids@.dom().contains(j));
                    } else {
                        assert(!was_known);
                    }
                }
            }
        }
        Ok(())
    }

    /// Stores a blob: deduplicates by identifier, compresses, appends the
    /// chunk to the arena and links it into the primary index. Returns a
    /// handle onto the stored chunk. When every index cell on the probe
    /// path is taken, the already appended chunk stays unreferenced and
    /// the high-water mark stays advanced; only a fresh store of the same
    /// bytes can reach it again.
    #[verifier::spinoff_prover]
    #[verifier::rlimit(100)]
    pub fn put(&mut self, data: &[u8]) -> (r: UssResult<DataChunk>)
        requires
            old(self).wf(),
            data@.len() <= 65535,
        ensures
            final(self).wf(),
            final(self).is_complete() == old(self).is_complete(),
            final(self).spec_readonly() == old(self).spec_readonly(),
            final(self).spec_file_size() == old(self).spec_file_size(),
            final(self).spec_data_offset() == old(self).spec_data_offset(),
            final(self).spec_data_size() == old(self).spec_data_size(),
            final(self).spec_index_mod() == old(self).spec_index_mod(),
            final(self).spec_index_max() == old(self).spec_index_max(),
            forall|id: Seq<u8>| #[trigger]
                old(self).records().dom().contains(id) ==> final(self).records().dom().contains(id)
                    && final(self).records()[id] == old(self).records()[id],
            r matches Ok(c) ==> c.header.hash@ == hasher::hash_of(data@)
                && final(self).chunk_span_ok(c),
            old(self).is_complete() ==> (r is Ok <==> old(self).can_store(data@)),
            old(self).is_complete() && r is Ok ==> ({
                let c = r->Ok_0;
                let id = hasher::hash_of(data@);
                let rec = final(self).records()[id];
                &&& final(self).records().dom().contains(id)
                &&& c.offset == rec.offset
                &&& c.data@ == rec.data
                &&& final(self).chunk_valid(c)
                &&& c.header.uncompressed_length == rec.data.len()
                &&& (old(self).records().dom().contains(id)
                    ==> final(self).records() == old(self).records()
                    && final(self).spec_data_next() == old(self).spec_data_next()
                    && rec == old(self).records()[id])
                &&& c.header.compressed_length == compression::deflate_of(rec.data).len()
                &&& (old(self).records().dom().contains(id) ==> *final(self) == *old(self))
                &&& (!old(self).records().dom().contains(id)
                    ==> c.data@ == data@
                    && final(self).records() == old(self).records().insert(id, rec)
                    && rec.data == data@
                    && c.offset == old(self).spec_data_next()
                    && final(self).spec_data_next() as int == old(self).spec_data_next() as int
                        + chunk_slots(compression::deflate_of(data@).len() as int)
                    && u32_at(final(self).bytes(), rec.slot) == rec.offset
                    && (forall|j: int|
                        64 <= j < old(self).spec_index_max() as int && j != rec.slot ==> u32_at(
                            final(self).bytes(),
                            j,
                        ) == u32_at(old(self).bytes(), j)))
            }),
            r is Ok ==> ({
                let id = hasher::hash_of(data@);
                ||| *final(self) == *old(self)
                ||| (final(self).records() == old(self).records()
                    && final(self).records().dom().contains(id))
                ||| (final(self).records() == old(self).records().insert(
                    id,
                    final(self).records()[id],
                ) && final(self).records()[id].data == data@ && final(self).records()[id].offset
                    == r->Ok_0.offset)
            }),
            old(self).is_complete() && old(self).spec_readonly() && !old(
                self,
            ).records().dom().contains(hasher::hash_of(data@)) ==> r is Err && *final(self)
                == *old(self),
            r is Err ==> final(self).records() == old(self).records(),
            r is Err ==> (forall|j: int|
                64 <= j < old(self).spec_index_max() as int ==> u32_at(final(self).bytes(), j)
                    == u32_at(old(self).bytes(), j)),
            r is Err ==> ({
                ||| final(self).spec_data_next() == old(self).spec_data_next()
                ||| final(self).spec_data_next() as int == old(self).spec_data_next() as int
                    + chunk_slots(compression::deflate_of(data@).len() as int)
            }),
    {
        let hash = hasher::hash(data);
        let existing = self.get(hash.as_slice());

        match existing {
            Some(chunk) => {
                return Ok(chunk);
            },
            None => (),
        };

        if self.readonly {
            return Err(UssError::StaticError("Must not call put() on readonly lake."));
        }

        let ghost pre = *self;

        let compressed = match self.compressors.compress(data) {
            Ok(v) => v,
            Err(e) => {
                return Err(e);
            },
        };

        let uncompressed_length: u16 = data.len() as u16;
        let compressed_length: u16 = compressed.len() as u16;
        let alloc_size: u32 = 54 + compressed_length as u32;
        let slots: u32 = (alloc_size - 1) / 256 + 1;

        if self.header.data_next as u64 + slots as u64 > self.header.data_offset as u64
            + self.header.data_size as u64 {
            return Err(UssError::IoProblem);
        }

        let ghost mid0 = *self;
        let offset = self.append_chunk(&hash, uncompressed_length, &compressed);
        let ghost mid = *self;

        let linked = self.link_chunk(
            &hash,
            offset,
            uncompressed_length,
            compressed_length,
            Ghost(data@),
        );

        match linked {
            Ok(_) => {
                proof {
                    // the chunk region survived linking untouched
                    let off = offset as int * 256;
                    let cl = compressed@.len() as int;
                    assert(self.bytes().subrange(off, off + 54 + cl) =~= mid.bytes().subrange(
                        off,
                        off + 54 + cl,
                    )) by {
                        assert(mid.spec_data_offset() as int * 256 <= off) by (nonlinear_arith)
                            requires
                                mid.spec_data_offset() <= offset,
                                off == offset as int * 256,
                        ;
                        assert forall|i: int| off <= i < off + 54 + cl implies self.bytes()[i]
                            == mid.bytes()[i] by {
                            assert(mid.spec_data_offset() as int * 256 <= i < mid.bytes().len());
                        }
                    }
                    assert(self.bytes().subrange(off + 54, off + 54 + cl)
                        =~= compression::deflate_of(data@)) by {
                        let cb = chunk_header_bytes(
                            hash@,
                            uncompressed_length,
                            compressed_length,
                        ) + compressed@;
                        assert(mid.bytes().subrange(off, off + 54 + cl) == cb);
                        assert(self.bytes().subrange(off + 54, off + 54 + cl) =~= cb.subrange(
                            54,
                            54 + cl,
                        ));
                        assert(cb.subrange(54, 54 + cl) =~= compressed@);
                    }
                    if pre.is_complete() {
                        assert(u32_at(pre.bytes(), choose|j: int|
                            home_slot(mid.spec_index_mod(), hash@) <= j
                                < mid.spec_index_max() as int && u32_at(mid.bytes(), j) == 0)
                            == 0) by {
                            let j = choose|j: int|
                                home_slot(mid.spec_index_mod(), hash@) <= j
                                    < mid.spec_index_max() as int && u32_at(mid.bytes(), j) == 0;
                            assert(u32_at(mid.bytes(), j) == u32_at(pre.bytes(), j));
                        }
                    }
                }
                let found = DataChunk {
                    header: DataChunkHeader { hash, uncompressed_length, compressed_length },
                    offset,
                    data: Ghost(data@),
                };
                Ok(found)
            },
            Err(e) => {
                proof {
                    if pre.is_complete() {
                        assert forall|j: int|
                            home_slot(pre.spec_index_mod(), hasher::hash_of(data@)) <= j < pre.spec_index_max() as int implies u32_at(
                            pre.bytes(),
                            j,
                        ) != 0 by {
                            assert(u32_at(mid.bytes(), j) == u32_at(pre.bytes(), j));
                        }
                    }
                }
                Err(e)
            },
        }
    }
}


/// What the fields parsed from a header region are.
pub open spec fn parsed_file_size(s: Seq<u8>) -> u64 {
    le::u64_of_le(s.subrange(8, 16))
}

/// Whether a byte sequence opens with a lake header that describes it.
pub open spec fn header_valid(s: Seq<u8>) -> bool {
    &&& s.len() >= 256
    &&& s.len() <= usize::MAX
    &&& s.subrange(0, 8) == magic_seq()
    &&& {
        let file_size = parsed_file_size(s);
        let data_size = u32_at(s, 4);
        let data_offset = u32_at(s, 5);
        let data_next = u32_at(s, 6);
        let index_mod = u32_at(s, 7);
        let index_max = u32_at(s, 8);
        let index_offset = u32_at(s, 9);
        let index_offset_u32 = u32_at(s, 10);
        &&& file_size as int == s.len()
        &&& index_offset == 1
        &&& index_offset_u32 == 64
        &&& index_mod >= 1
        &&& data_offset as int == 2 + (index_mod as int - 1) / 64
        &&& index_max as int == data_offset as int * 64
        &&& data_offset as int <= file_size as int / 256
        &&& data_size as int == file_size as int / 256 - data_offset as int
        &&& data_offset <= data_next
        &&& data_next as int <= data_offset as int + data_size as int
        &&& data_offset as int + data_size as int <= u32::MAX
    }
}

/// Ties the exec parse over a 44-byte slice to the spec parse over the
/// whole region.
proof fn lemma_parsed_header_eq(s: Seq<u8>, hb: Seq<u8>)
    requires
        s.len() >= 44,
        hb == s.subrange(0, 44),
    ensures
        le::u64_of_le(hb.subrange(8, 16)) == parsed_file_size(s),
        le::u32_of_le(hb[16], hb[17], hb[18], hb[19]) == u32_at(s, 4),
        le::u32_of_le(hb[20], hb[21], hb[22], hb[23]) == u32_at(s, 5),
        le::u32_of_le(hb[24], hb[25], hb[26], hb[27]) == u32_at(s, 6),
        le::u32_of_le(hb[28], hb[29], hb[30], hb[31]) == u32_at(s, 7),
        le::u32_of_le(hb[32], hb[33], hb[34], hb[35]) == u32_at(s, 8),
        le::u32_of_le(hb[36], hb[37], hb[38], hb[39]) == u32_at(s, 9),
        le::u32_of_le(hb[40], hb[41], hb[42], hb[43]) == u32_at(s, 10),
{
    assert(hb.subrange(8, 16) =~= s.subrange(8, 16));
}

/// A region whose header is valid carries at byte 0 exactly the bytes of
/// the header parsed from it.
proof fn lemma_header_bytes_roundtrip(s: Seq<u8>)
    requires
        s.len() >= 44,
        s.subrange(0, 8) == magic_seq(),
    ensures
        s.subrange(0, 44) =~= header_bytes_of(
            parsed_file_size(s),
            u32_at(s, 4),
            u32_at(s, 5),
            u32_at(s, 6),
            u32_at(s, 7),
            u32_at(s, 8),
            u32_at(s, 9),
            u32_at(s, 10),
        ),
{
    le::lemma_u64_of_le_roundtrip(s.subrange(8, 16));
    le::lemma_u32_of_le_roundtrip(s[16], s[17], s[18], s[19]);
    le::lemma_u32_of_le_roundtrip(s[20], s[21], s[22], s[23]);
    le::lemma_u32_of_le_roundtrip(s[24], s[25], s[26], s[27]);
    le::lemma_u32_of_le_roundtrip(s[28], s[29], s[30], s[31]);
    le::lemma_u32_of_le_roundtrip(s[32], s[33], s[34], s[35]);
    le::lemma_u32_of_le_roundtrip(s[36], s[37], s[38], s[39]);
    le::lemma_u32_of_le_roundtrip(s[40], s[41], s[42], s[43]);
}

} // verus!
