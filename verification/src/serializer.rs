//! Inline-or-spill handles. A byte string shorter than 36 bytes is
//! embedded in its handle directly (encoded with the 64-symbol codec, at
//! most 47 symbols); anything longer is stored in the lake and named by
//! its 50-symbol identifier. The receiver tells the two apart by length.
//!
//! The tree's nodes and leaves are pairs and lists serialized with
//! bitcode; their encodings are named `pair_code` and `node_code` and
//! trusted only as far as bitcode's own round trip.

use vstd::prelude::*;
use crate::base64;
use crate::errors::{UssError, UssResult};
use crate::hasher;
use crate::store::DataLake;

verus! {

/// What bitcode produces for a pair of byte strings.
pub uninterp spec fn pair_code(a: Seq<u8>, b: Seq<u8>) -> Seq<u8>;

/// What bitcode produces for a depth paired with a list of keyed handles.
pub uninterp spec fn node_code(depth: u64, entries: Seq<(u32, Seq<u8>)>) -> Seq<u8>;

/// The handle list as the node codec sees it.
pub open spec fn entries_view(s: Seq<(u32, Vec<u8>)>) -> Seq<(u32, Seq<u8>)> {
    s.map_values(|p: (u32, Vec<u8>)| (p.0, p.1@))
}

/// Relies on `bitcode::serialize` (serde mode): the encoding depends on
/// the value alone, and encoding a pair of byte strings cannot fail.
#[verifier::external_body]
pub fn pair_to_bytes(a: &Vec<u8>, b: &Vec<u8>) -> (r: UssResult<Vec<u8>>)
    ensures
        r is Ok,
        r matches Ok(v) ==> v@ == pair_code(a@, b@),
{
    match bitcode::serialize(&(a, b)) {
        Ok(v) => Ok(v),
        Err(e) => Err(UssError::DynamicError(format!("{:?}", e))),
    }
}

/// Relies on `bitcode::deserialize`: decoding inverts encoding for a
/// pair of byte strings.
#[verifier::external_body]
pub fn pair_from_bytes(bytes: &[u8]) -> (r: UssResult<(Vec<u8>, Vec<u8>)>)
    ensures
        r matches Ok(p) ==> (forall|x: Seq<u8>, y: Seq<u8>|
            bytes@ == #[trigger] pair_code(x, y) ==> p.0@ == x && p.1@ == y),
        r is Err ==> (forall|x: Seq<u8>, y: Seq<u8>| bytes@ != #[trigger] pair_code(x, y)),
{
    match bitcode::deserialize::<(Vec<u8>, Vec<u8>)>(bytes) {
        Ok(p) => Ok(p),
        Err(e) => Err(UssError::DynamicError(format!("{:?}", e))),
    }
}

/// Relies on `bitcode::serialize` (serde mode): the encoding depends on
/// the value alone, and encoding a depth with a list of keyed handles
/// cannot fail.
#[verifier::external_body]
pub fn node_to_bytes(depth: u64, entries: &Vec<(u32, Vec<u8>)>) -> (r: UssResult<Vec<u8>>)
    ensures
        r is Ok,
        r matches Ok(v) ==> v@ == node_code(depth, entries_view(entries@)),
{
    match bitcode::serialize(&(depth, entries)) {
        Ok(v) => Ok(v),
        Err(e) => Err(UssError::DynamicError(format!("{:?}", e))),
    }
}

/// Relies on `bitcode::deserialize`: decoding inverts encoding for a
/// depth with a list of keyed handles.
#[verifier::external_body]
pub fn node_from_bytes(bytes: &[u8]) -> (r: UssResult<(u64, Vec<(u32, Vec<u8>)>)>)
    ensures
        r matches Ok(p) ==> (forall|d: u64, e: Seq<(u32, Seq<u8>)>|
            bytes@ == #[trigger] node_code(d, e) ==> p.0 == d && entries_view(p.1@) == e),
        r is Err ==> (forall|d: u64, e: Seq<(u32, Seq<u8>)>| bytes@ != #[trigger] node_code(d, e)),
{
    match bitcode::deserialize::<(u64, Vec<(u32, Vec<u8>)>)>(bytes) {
        Ok(p) => Ok(p),
        Err(e) => Err(UssError::DynamicError(format!("{:?}", e))),
    }
}

/// A handle that a lake can resolve now and after any further store.
pub open spec fn handle_resolved(h: Seq<u8>, contents: Map<Seq<u8>, Seq<u8>>) -> bool {
    h.len() < 50 || contents.dom().contains(h)
}

/// What a handle resolves to against a lake's contents.
pub open spec fn resolve(h: Seq<u8>, contents: Map<Seq<u8>, Seq<u8>>) -> Seq<u8> {
    if h.len() < 50 {
        base64::decode64(h)
    } else if contents.dom().contains(h) {
        contents[h]
    } else {
        h
    }
}

/// Resolution of a resolved handle is stable as the lake grows.
pub proof fn lemma_resolve_monotone(
    h: Seq<u8>,
    m1: Map<Seq<u8>, Seq<u8>>,
    m2: Map<Seq<u8>, Seq<u8>>,
)
    requires
        handle_resolved(h, m1),
        forall|id: Seq<u8>| #[trigger] m1.dom().contains(id) ==> m2.dom().contains(id) && m2[id]
            == m1[id],
    ensures
        handle_resolved(h, m2),
        resolve(h, m2) == resolve(h, m1),
{
}

/// The handle under which a byte string is stored: itself, encoded, when
/// short; the 50-symbol identifier of its chunk otherwise.
pub open spec fn handle_of(v: Seq<u8>) -> Seq<u8> {
    if v.len() < 36 {
        base64::encode64(v)
    } else {
        hasher::hash_of(v)
    }
}

/// An inline handle is strictly shorter than an identifier.
pub proof fn lemma_handle_len(v: Seq<u8>)
    requires
        v.len() <= 65535,
    ensures
        v.len() < 36 ==> handle_of(v).len() < 50,
        v.len() >= 36 ==> handle_of(v).len() == 50,
{
    hasher::lemma_encode64_len(v);
    if v.len() >= 36 {
        hasher::lemma_encode64_len(hasher::envelope(v));
    }
}

/// Turns a byte string into its handle, spilling long ones into the lake.
pub fn serialize(value: &Vec<u8>, lake: &mut DataLake) -> (r: UssResult<Vec<u8>>)
    requires
        old(lake).wf(),
        value@.len() <= 65535,
    ensures
        final(lake).wf(),
        final(lake).is_complete() == old(lake).is_complete(),
        final(lake).spec_readonly() == old(lake).spec_readonly(),
        final(lake).spec_file_size() == old(lake).spec_file_size(),
        final(lake).spec_data_offset() == old(lake).spec_data_offset(),
        final(lake).spec_data_size() == old(lake).spec_data_size(),
        final(lake).spec_index_mod() == old(lake).spec_index_mod(),
        final(lake).spec_index_max() == old(lake).spec_index_max(),
        forall|id: Seq<u8>| #[trigger]
            old(lake).records().dom().contains(id) ==> final(lake).records().dom().contains(id)
                && final(lake).records()[id] == old(lake).records()[id],
        r matches Ok(h) ==> h@ == handle_of(value@),
        value@.len() < 36 ==> r is Ok && *final(lake) == *old(lake),
        old(lake).is_complete() ==> (r is Ok <==> (value@.len() < 36 || old(lake).can_store(
            value@,
        ))),
        old(lake).is_complete() && r is Ok && value@.len() >= 36 ==> ({
            let id = hasher::hash_of(value@);
            &&& final(lake).records().dom().contains(id)
            &&& (!old(lake).records().dom().contains(id) ==> final(lake).records()[id].data
                == value@)
        }),
        old(lake).is_complete() && r is Err ==> final(lake).records() == old(lake).records(),
        old(lake).is_complete() ==> (forall|id: Seq<u8>| #[trigger]
            final(lake).records().dom().contains(id) ==> old(lake).records().dom().contains(id)
                || id == hasher::hash_of(value@)),
    {
    if value.len() < 36 {
        Ok(base64::encode(value.as_slice()))
    } else {
        match lake.put(value.as_slice()) {
            Ok(chunk) => Ok(chunk.header.hash),
            Err(e) => Err(e),
        }
    }
}

/// Resolves a handle back to the bytes it stands for: short handles are
/// decoded in place, 50-symbol identifiers are looked up in the lake,
/// and anything unresolvable comes back unchanged.
pub fn hash_to_bytes(arg: &[u8], lake: &DataLake) -> (r: Vec<u8>)
    requires
        lake.wf(),
    ensures
        arg@.len() < 50 ==> r@ == base64::decode64(arg@),
        arg@.len() == 50 && lake.is_complete() && lake.records().dom().contains(arg@) ==> r@
            == lake.records()[arg@].data,
        arg@.len() == 50 && lake.is_complete() && !lake.records().dom().contains(arg@) ==> r@
            == arg@,
        arg@.len() > 50 ==> r@ == arg@,
        lake.is_complete() ==> r@ == resolve(arg@, lake.contents()),
{
    proof {
        assert(lake.contents().dom() =~= lake.records().dom());
        if lake.records().dom().contains(arg@) {
            assert(lake.contents()[arg@] == lake.records()[arg@].data);
        }
        crate::store::lemma_record_ids_are_identifiers(lake);
    }
    if arg.len() < 50 {
        return base64::decode(arg);
    }

    if arg.len() == 50 {
        match lake.get(arg) {
            Some(chunk) => {
                match chunk.read(lake) {
                    Ok(data) => {
                        return data;
                    },
                    Err(_) => {
                        proof {
                            if lake.is_complete() {
                                assert(lake.chunk_valid(chunk));
                                assert(false);
                            }
                        }
                        return vstd::slice::slice_to_vec(arg);
                    },
                }
            },
            None => {
                return vstd::slice::slice_to_vec(arg);
            },
        }
    }

    vstd::slice::slice_to_vec(arg)
}

/// Resolves a handle and decodes the pair of handles stored under it.
pub fn deserialize_pair(arg: &[u8], lake: &DataLake) -> (r: UssResult<(Vec<u8>, Vec<u8>)>)
    requires
        lake.wf(),
    ensures
        lake.is_complete() ==> (forall|x: Seq<u8>, y: Seq<u8>|
            resolve(arg@, lake.contents()) == #[trigger] pair_code(x, y) ==> (r matches Ok(p)
                && p.0@ == x && p.1@ == y)),
{
    let bytes = hash_to_bytes(arg, lake);
    pair_from_bytes(bytes.as_slice())
}

/// Resolves a handle and decodes the depth and keyed handle list stored
/// under it.
pub fn deserialize_node(arg: &[u8], lake: &DataLake) -> (r: UssResult<(u64, Vec<(u32, Vec<u8>)>)>)
    requires
        lake.wf(),
    ensures
        lake.is_complete() ==> (forall|d: u64, e: Seq<(u32, Seq<u8>)>|
            resolve(arg@, lake.contents()) == #[trigger] node_code(d, e) ==> (r matches Ok(p)
                && p.0 == d && entries_view(p.1@) == e)),
{
    let bytes = hash_to_bytes(arg, lake);
    node_from_bytes(bytes.as_slice())
}

/// A fresh handle resolves to the bytes it was made from: short ones by
/// the codec round trip, spilled ones through the lake's records.
pub proof fn lemma_handle_roundtrip(v: Seq<u8>, lake: DataLake)
    requires
        v.len() <= 65535,
        lake.wf(),
        lake.is_complete(),
        v.len() >= 36 ==> lake.records().dom().contains(hasher::hash_of(v)) && lake.records()[
            hasher::hash_of(v)
        ].data == v,
    ensures
        v.len() < 36 ==> base64::decode64(handle_of(v)) == v,
        v.len() >= 36 ==> lake.records()[handle_of(v)].data == v,
{
    if v.len() < 36 {
        base64::lemma_decode_encode(v);
    }
}

} // verus!
