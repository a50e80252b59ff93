//! Offset-addressed byte access over one contiguous region: a read-only or
//! writable memory mapping handed in by the embedder, or an owned byte
//! buffer for lakes that live purely in memory.
//!
//! The region is opaque to the rest of the library; everything it holds is
//! reached through the named contents `mapping_seq` and the small trusted
//! accessors below, which the store's verified logic builds on. The
//! mapping is never shared: the lake owns it, and writes go through
//! `&mut`.

use vstd::prelude::*;

verus! {

#[verifier::external_type_specification]
#[verifier::external_body]
pub struct ExMmap(memmap::Mmap);

#[verifier::external_type_specification]
#[verifier::external_body]
pub struct ExMmapMut(memmap::MmapMut);

/// One mapped region. The variants of the hidden backing (read-only
/// mapping, writable mapping, owned buffer) cannot be told apart from
/// outside; only the named contents and writability below speak of it.
#[verifier::external_body]
pub struct MemoryMapping {
    owned_ro: Option<memmap::Mmap>,
    owned_rw: Option<memmap::MmapMut>,
    owned_mem: Option<Vec<u8>>,
}

/// The bytes the region holds.
pub uninterp spec fn mapping_seq(m: MemoryMapping) -> Seq<u8>;

/// Whether the region accepts writes.
pub uninterp spec fn mapping_writable(m: MemoryMapping) -> bool;

impl MemoryMapping {
    /// Relies on nothing outside: wraps an owned zero-copy buffer.
    #[verifier::external_body]
    pub fn from_vec(v: Vec<u8>) -> (r: MemoryMapping)
        ensures
            mapping_seq(r) == v@,
            mapping_writable(r),
    {
        MemoryMapping { owned_ro: None, owned_rw: None, owned_mem: Some(v) }
    }

    /// Relies on `memmap::Mmap` dereferencing to the mapped file's bytes.
    #[verifier::external_body]
    pub fn from_ro_mmap(m: memmap::Mmap) -> (r: MemoryMapping)
        ensures
            !mapping_writable(r),
    {
        MemoryMapping { owned_ro: Some(m), owned_rw: None, owned_mem: None }
    }

    /// Relies on `memmap::MmapMut` dereferencing to the mapped file's
    /// bytes, writes landing in the file.
    #[verifier::external_body]
    pub fn from_rw_mmap(m: memmap::MmapMut) -> (r: MemoryMapping)
        ensures
            mapping_writable(r),
    {
        MemoryMapping { owned_ro: None, owned_rw: Some(m), owned_mem: None }
    }

    /// Relies on `len` of the backing region.
    #[verifier::external_body]
    pub fn len(&self) -> (r: usize)
        ensures
            r == mapping_seq(*self).len(),
    {
        match &self.owned_ro {
            Some(m) => m.len(),
            None => match &self.owned_rw {
                Some(m) => m.len(),
                None => match &self.owned_mem {
                    Some(v) => v.len(),
                    None => 0,
                },
            },
        }
    }

    /// Relies on slice indexing of the backing region.
    #[verifier::external_body]
    pub fn get_ro_slice(&self, offset: usize, length: usize) -> (r: &[u8])
        requires
            offset + length <= mapping_seq(*self).len(),
        ensures
            r@ == mapping_seq(*self).subrange(offset as int, offset as int + length as int),
    {
        match &self.owned_ro {
            Some(m) => &m[offset..offset + length],
            None => match &self.owned_rw {
                Some(m) => &m[offset..offset + length],
                None => match &self.owned_mem {
                    Some(v) => &v[offset..offset + length],
                    None => &[],
                },
            },
        }
    }

    /// Relies on mutable slice writes to the backing region.
    #[verifier::external_body]
    pub fn write_bytes(&mut self, offset: usize, data: &[u8])
        requires
            mapping_writable(*old(self)),
            offset + data@.len() <= mapping_seq(*old(self)).len(),
        ensures
            mapping_writable(*final(self)),
            mapping_seq(*final(self)) == mapping_seq(*old(self)).take(offset as int) + data@
                + mapping_seq(*old(self)).skip(offset as int + data@.len() as int),
    {
        match &mut self.owned_rw {
            Some(m) => m[offset..offset + data.len()].copy_from_slice(data),
            None => match &mut self.owned_mem {
                Some(v) => v[offset..offset + data.len()].copy_from_slice(data),
                None => (),
            },
        }
    }

    /// Relies on nothing outside: copies the whole region out, so that an
    /// in-memory lake can be closed and reopened from its bytes.
    #[verifier::external_body]
    pub fn to_vec(&self) -> (r: Vec<u8>)
        ensures
            r@ == mapping_seq(*self),
    {
        match &self.owned_ro {
            Some(m) => m.to_vec(),
            None => match &self.owned_rw {
                Some(m) => m.to_vec(),
                None => match &self.owned_mem {
                    Some(v) => v.clone(),
                    None => Vec::new(),
                },
            },
        }
    }

    /// Reads the little-endian 32-bit value at u32 cell `offset_in_u32_chunks`.
    pub fn read_u32(&self, offset_in_u32_chunks: u32) -> (r: u32)
        requires
            mapping_seq(*self).len() <= usize::MAX,
            (offset_in_u32_chunks as int) * 4 + 4 <= mapping_seq(*self).len(),
        ensures
            r == u32_at(mapping_seq(*self), offset_in_u32_chunks as int),
    {
        let offset: usize = (offset_in_u32_chunks as usize) * 4;
        let bytes = self.get_ro_slice(offset, 4);
        crate::le::u32_from_le(bytes[0], bytes[1], bytes[2], bytes[3])
    }

    /// Writes the little-endian 32-bit value at u32 cell `offset_in_u32_chunks`.
    pub fn write_u32(&mut self, offset_in_u32_chunks: u32, value: u32)
        requires
            mapping_writable(*old(self)),
            mapping_seq(*old(self)).len() <= usize::MAX,
            (offset_in_u32_chunks as int) * 4 + 4 <= mapping_seq(*old(self)).len(),
        ensures
            mapping_writable(*final(self)),
            mapping_seq(*final(self)) == mapping_seq(*old(self)).take(
                (offset_in_u32_chunks as int) * 4,
            ) + crate::le::u32_le(value) + mapping_seq(*old(self)).skip(
                (offset_in_u32_chunks as int) * 4 + 4,
            ),
            u32_at(mapping_seq(*final(self)), offset_in_u32_chunks as int) == value,
            mapping_seq(*final(self)).len() == mapping_seq(*old(self)).len(),
    {
        let offset: usize = (offset_in_u32_chunks as usize) * 4;
        let bytes = crate::le::u32_to_le(value);
        self.write_bytes(offset, bytes.as_slice());
        proof {
            let s = mapping_seq(*self);
            let o = (offset_in_u32_chunks as int) * 4;
            assert(s.subrange(o, o + 4) =~= crate::le::u32_le(value));
            crate::le::lemma_u32_le_roundtrip(value);
            assert(s.len() == mapping_seq(*old(self)).len());
        }
    }
}

/// The little-endian 32-bit value at u32 cell `i` of a byte sequence.
pub open spec fn u32_at(s: Seq<u8>, i: int) -> u32
    recommends
        0 <= i,
        i * 4 + 4 <= s.len(),
{
    crate::le::u32_of_le(s[i * 4], s[i * 4 + 1], s[i * 4 + 2], s[i * 4 + 3])
}

} // verus!
