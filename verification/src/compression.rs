//! Deflate compression at the highest level, with a free-list pool of
//! compressor instances. For blobs of at most 4096 bytes the compressed
//! stream fits a 4111-byte buffer.

use vstd::prelude::*;
use crate::errors::{UssError, UssResult};

verus! {

// 4096 (max item size) + 15 bytes of worst-case stream overhead
pub const COMPRESSION_VEC_CAPACITY: usize = 4111;

#[verifier::external_type_specification]
#[verifier::external_body]
pub struct ExCompressor(libdeflater::Compressor);

#[verifier::external_type_specification]
#[verifier::external_body]
pub struct ExDecompressor(libdeflater::Decompressor);

/// What deflate at libdeflater's best level produces for a byte sequence.
pub uninterp spec fn deflate_of(s: Seq<u8>) -> Seq<u8>;

/// Whether a compressor instance was made at the best compression level.
pub uninterp spec fn at_best_level(c: libdeflater::Compressor) -> bool;

/// What libdeflate's inflater yields for an input and an output room:
/// the recovered bytes, or nothing exactly when the input is not one
/// whole deflate stream whose decoding fits the room.
pub uninterp spec fn inflate_of(data: Seq<u8>, room: nat) -> Option<Seq<u8>>;

/// Relies on `libdeflater::Compressor::new` with `CompressionLvl::best()`:
/// allocates a compressor pinned to the highest compression level.
#[verifier::external_body]
pub fn alloc_compressor() -> (r: libdeflater::Compressor)
    ensures
        at_best_level(r),
{
    let level = libdeflater::CompressionLvl::best();
    let compressor = libdeflater::Compressor::new(level);

    return compressor;
}

/// Relies on `libdeflater::Compressor::deflate_compress`: writes the
/// deflate stream of `data` into the front of `out` and returns its
/// length, and fails exactly when `out` cannot hold that stream. At a
/// fixed level the stream depends on the input bytes alone.
#[verifier::external_body]
fn deflate_into(c: &mut libdeflater::Compressor, data: &[u8], out: &mut Vec<u8>) -> (r: UssResult<
    usize,
>)
    requires
        at_best_level(*old(c)),
    ensures
        at_best_level(*final(c)),
        final(out)@.len() == old(out)@.len(),
        r matches Ok(n) ==> n == deflate_of(data@).len() && n <= old(out)@.len()
            && final(out)@.subrange(0, n as int) == deflate_of(data@),
        r is Err <==> deflate_of(data@).len() > old(out)@.len(),
{
    match c.deflate_compress(data, out.as_mut_slice()) {
        Ok(n) => Ok(n),
        Err(e) => Err(UssError::DynamicError(format!("{:?}", e))),
    }
}

/// Relies on `libdeflater::Decompressor::new`.
#[verifier::external_body]
fn alloc_decompressor() -> (r: libdeflater::Decompressor) {
    libdeflater::Decompressor::new()
}

/// Relies on `libdeflater::Decompressor::deflate_decompress`: it
/// succeeds exactly when the input is one whole deflate stream whose
/// decoding fits the buffer; what it yields depends on the input and
/// the buffer's length alone; inflating the deflate stream of any
/// sequence that fits recovers that sequence exactly.
#[verifier::external_body]
fn inflate_into(d: &mut libdeflater::Decompressor, data: &[u8], out: &mut Vec<u8>) -> (r: UssResult<
    usize,
>)
    ensures
        final(out)@.len() == old(out)@.len(),
        r is Ok <==> inflate_of(data@, old(out)@.len() as nat) is Some,
        r matches Ok(n) ==> ({
            let s = inflate_of(data@, old(out)@.len() as nat)->Some_0;
            &&& n == s.len()
            &&& n <= old(out)@.len()
            &&& final(out)@.subrange(0, n as int) == s
        }),
        forall|orig: Seq<u8>|
            data@ == deflate_of(orig) && orig.len() <= old(out)@.len() ==> inflate_of(
                data@,
                old(out)@.len() as nat,
            ) == Some(orig),
{
    match d.deflate_decompress(data, out.as_mut_slice()) {
        Ok(n) => Ok(n),
        Err(e) => Err(UssError::DynamicError(format!("{:?}", e))),
    }
}

/// One cell of the compressor free list.
pub struct CompressorCollectionNode {
    compressor: libdeflater::Compressor,
    next: Option<Box<CompressorCollectionNode>>,
}

impl CompressorCollectionNode {
    /// Every compressor on the list is at the best level.
    pub closed spec fn wf(&self) -> bool
        decreases self,
    {
        at_best_level(self.compressor) && match self.next {
            Some(ref n) => n.wf(),
            None => true,
        }
    }

    /// The number of cells from here down.
    pub closed spec fn list_len(&self) -> nat
        decreases self,
    {
        match self.next {
            Some(ref n) => n.list_len() + 1,
            None => 1nat,
        }
    }
}

/// A free-list pool of compressors: taking one allocates if the pool is
/// empty, returning one pushes it back.
pub struct CompressorCollection {
    count: usize,
    first: Option<Box<CompressorCollectionNode>>,
}

impl CompressorCollection {
    pub closed spec fn wf(&self) -> bool {
        match self.first {
            Some(ref n) => n.wf() && self.count == n.list_len(),
            None => self.count == 0,
        }
    }

    /// How many compressors the pool holds.
    pub closed spec fn size(&self) -> nat {
        self.count as nat
    }

    pub fn new() -> (r: CompressorCollection)
        ensures
            r.wf(),
            r.size() == 0,
    {
        CompressorCollection { count: 0, first: None }
    }

    /// Takes a compressor out of the pool, allocating one if none is left.
    pub fn pop(&mut self) -> (r: libdeflater::Compressor)
        requires
            old(self).wf(),
        ensures
            final(self).wf(),
            final(self).size() == if old(self).size() == 0 { 0nat } else {
                (old(self).size() - 1) as nat
            },
            at_best_level(r),
    {
        let taken = self.first.take();

        match taken {
            None => {
                self.first = None;
                return alloc_compressor();
            },
            Some(mut boxed) => {
                self.first = boxed.next.take();
                self.count = self.count - 1;

                return boxed.compressor;
            },
        }
    }

    /// Returns a compressor to the pool.
    pub fn push(&mut self, compressor: libdeflater::Compressor)
        requires
            old(self).wf(),
            at_best_level(compressor),
            old(self).size() < usize::MAX,
        ensures
            final(self).wf(),
            final(self).size() == old(self).size() + 1,
    {
        let node = CompressorCollectionNode { compressor, next: self.first.take() };

        let boxed = Box::new(node);

        self.first = Some(boxed);
        self.count = self.count + 1;
    }

    /// Compresses a byte string, drawing a compressor from the pool and
    /// handing it back afterwards.
    pub fn compress(&mut self, data: &[u8]) -> (r: UssResult<Vec<u8>>)
        requires
            old(self).wf(),
            old(self).size() < usize::MAX,
        ensures
            final(self).wf(),
            final(self).size() == if old(self).size() == 0 { 1nat } else { old(self).size() },
            r matches Ok(v) ==> v@ == deflate_of(data@) && v@.len() <= 4111,
            r is Err <==> deflate_of(data@).len() > 4111,
    {
        let mut compressor = self.pop();
        let mut out: Vec<u8> = vec![0u8; COMPRESSION_VEC_CAPACITY];
        assert(out@.len() == 4111);

        let result = deflate_into(&mut compressor, data, &mut out);

        self.push(compressor);

        match result {
            Ok(length) => {
                out.truncate(length);
                proof {
                    assert(out@ =~= deflate_of(data@));
                }
                Ok(out)
            },
            Err(err) => Err(err),
        }
    }
}

pub fn init_compressor_collection() -> (r: CompressorCollection)
    ensures
        r.wf(),
{
    return CompressorCollection::new();
}

/// Compresses with a throwaway pool.
pub fn compress(data: &[u8]) -> (r: UssResult<Vec<u8>>)
    ensures
        r matches Ok(v) ==> v@ == deflate_of(data@) && v@.len() <= 4111,
        r is Err <==> deflate_of(data@).len() > 4111,
{
    let mut pool = CompressorCollection::new();
    return pool.compress(data);
}

/// Inflates a deflate stream into a buffer of `outlen` bytes: succeeds
/// exactly when the input is one whole deflate stream whose decoding
/// fits the buffer, and inflating `deflate_of(b)` with `outlen >= |b|`
/// returns exactly `b`.
pub fn decompress(data: &[u8], outlen: usize) -> (r: UssResult<Vec<u8>>)
    ensures
        r matches Ok(v) ==> v@.len() <= outlen,
        r is Ok <==> inflate_of(data@, outlen as nat) is Some,
        r matches Ok(v) ==> inflate_of(data@, outlen as nat) == Some(v@),
        forall|orig: Seq<u8>|
            data@ == deflate_of(orig) && orig.len() <= outlen ==> (r matches Ok(v) && v@ == orig),
{
    let mut decompressor = alloc_decompressor();
    let mut out: Vec<u8> = vec![0u8; outlen];

    match inflate_into(&mut decompressor, data, &mut out) {
        Ok(length) => {
            out.truncate(length);
            proof {
                assert(out@ =~= inflate_of(data@, outlen as nat)->Some_0);
                assert forall|orig: Seq<u8>|
                    data@ == deflate_of(orig) && orig.len() <= outlen implies out@
                    == orig by {
                    assert(inflate_of(data@, outlen as nat) == Some(orig));
                }
            }
            Ok(out)
        },
        Err(err) => {
            proof {
                assert forall|orig: Seq<u8>|
                    data@ == deflate_of(orig) && orig.len() <= outlen implies false by {
                    assert(inflate_of(data@, outlen as nat) == Some(orig));
                }
            }
            Err(err)
        },
    }
}

} // verus!
