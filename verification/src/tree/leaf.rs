//! A key-value pair of the tree. Key and value are byte payloads (the
//! embedder's codec output); each is held as an inline-or-spill handle
//! plus an optional materialized cache, and the pair is addressed inside
//! nodes by the 32-bit surrogate of its key handle.

use vstd::prelude::*;
use crate::errors::{UssError, UssResult};
use crate::hasher;
use crate::serializer;
use crate::serializer::{resolve, handle_resolved};
use crate::store::DataLake;

verus! {

/// The 32-bit surrogate under which a payload's handle is filed.
pub open spec fn surrogate_of_handle(h: Seq<u8>) -> u32 {
    hasher::checksum_of(h, h.len() as u32)
}

/// The surrogate of a payload: the checksum of its handle.
pub open spec fn surrogate_of(payload: Seq<u8>) -> u32 {
    surrogate_of_handle(serializer::handle_of(payload))
}

/// One key-value pair: two handles, their surrogates, and optional
/// caches of the payloads they resolve to.
#[derive(Clone)]
pub struct Leaf {
    key_u32: u32,
    key_ref: Vec<u8>,
    key_val: Option<Vec<u8>>,
    val_u32: u32,
    val_ref: Vec<u8>,
    val_val: Option<Vec<u8>>,
}

impl Leaf {
    pub closed spec fn spec_key_u32(&self) -> u32 {
        self.key_u32
    }

    pub closed spec fn spec_key_ref(&self) -> Seq<u8> {
        self.key_ref@
    }

    pub closed spec fn spec_key_val(&self) -> Option<Seq<u8>> {
        match self.key_val {
            Some(ref v) => Some(v@),
            None => None,
        }
    }

    pub closed spec fn spec_val_u32(&self) -> u32 {
        self.val_u32
    }

    pub closed spec fn spec_val_ref(&self) -> Seq<u8> {
        self.val_ref@
    }

    pub closed spec fn spec_val_val(&self) -> Option<Seq<u8>> {
        match self.val_val {
            Some(ref v) => Some(v@),
            None => None,
        }
    }

    /// The surrogates are the checksums of the handles.
    pub open spec fn wf(&self) -> bool {
        &&& self.spec_key_u32() == surrogate_of_handle(self.spec_key_ref())
        &&& self.spec_val_u32() == surrogate_of_handle(self.spec_val_ref())
    }

    /// The key payload this leaf stands for, against a lake's contents.
    pub open spec fn key_bytes(&self, contents: Map<Seq<u8>, Seq<u8>>) -> Seq<u8> {
        match self.spec_key_val() {
            Some(v) => v,
            None => resolve(self.spec_key_ref(), contents),
        }
    }

    /// The value payload this leaf stands for, against a lake's contents.
    pub open spec fn value_bytes(&self, contents: Map<Seq<u8>, Seq<u8>>) -> Seq<u8> {
        match self.spec_val_val() {
            Some(v) => v,
            None => resolve(self.spec_val_ref(), contents),
        }
    }

    /// The caches, where present, agree with what the handles resolve to.
    pub open spec fn valid(&self, contents: Map<Seq<u8>, Seq<u8>>) -> bool {
        &&& self.wf()
        &&& (self.spec_key_val() matches Some(v) ==> v == resolve(self.spec_key_ref(), contents))
        &&& (self.spec_val_val() matches Some(v) ==> v == resolve(self.spec_val_ref(), contents))
    }

    /// Both handles stay resolvable against these contents.
    pub open spec fn resolved(&self, contents: Map<Seq<u8>, Seq<u8>>) -> bool {
        handle_resolved(self.spec_key_ref(), contents) && handle_resolved(
            self.spec_val_ref(),
            contents,
        )
    }

    /// The pair of handles can be stored without meeting an identifier
    /// an earlier blob already owns.
    pub open spec fn pair_fresh(lake: DataLake, kr: Seq<u8>, vr: Seq<u8>) -> bool {
        let pc = serializer::pair_code(kr, vr);
        pc.len() < 36 || !lake.records().dom().contains(hasher::hash_of(pc))
    }

    /// Neither payload's identifier is already taken in the lake (always
    /// true for inline payloads; for spilled ones, true unless the exact
    /// identifier was stored before).
    pub open spec fn payloads_fresh(lake: DataLake, key: Seq<u8>, value: Seq<u8>) -> bool {
        &&& (key.len() < 36 || !lake.records().dom().contains(hasher::hash_of(key)))
        &&& (value.len() < 36 || !lake.records().dom().contains(hasher::hash_of(value)))
        &&& (key.len() < 36 || value.len() < 36 || key == value || hasher::hash_of(key)
            != hasher::hash_of(value))
    }

    /// Serializes a key and a value and builds the leaf holding their
    /// handles, with both payloads cached.
    pub fn from_kv(key: Vec<u8>, value: Vec<u8>, lake: &mut DataLake) -> (r: UssResult<Leaf>)
        requires
            old(lake).wf(),
            key@.len() <= 65535,
            value@.len() <= 65535,
        ensures
            final(lake).wf(),
            final(lake).is_complete() == old(lake).is_complete(),
            final(lake).spec_readonly() == old(lake).spec_readonly(),
            forall|id: Seq<u8>| #[trigger]
                old(lake).records().dom().contains(id) ==> final(lake).records().dom().contains(id)
                    && final(lake).records()[id] == old(lake).records()[id],
            key@.len() < 36 && value@.len() < 36 ==> r is Ok && *final(lake) == *old(lake),
            old(lake).is_complete() && key@.len() < 36 ==> (r is Ok <==> (value@.len() < 36 || old(
                lake,
            ).can_store(value@))),
            r matches Ok(l) ==> ({
                &&& l.wf()
                &&& l.spec_key_ref() == serializer::handle_of(key@)
                &&& l.spec_val_ref() == serializer::handle_of(value@)
                &&& l.spec_key_u32() == surrogate_of(key@)
                &&& l.spec_val_u32() == surrogate_of(value@)
                &&& l.spec_key_val() == Some(key@)
                &&& l.spec_val_val() == Some(value@)
            }),
            old(lake).is_complete() && Leaf::payloads_fresh(*old(lake), key@, value@) && r is Ok
                ==> ({
                let l = r->Ok_0;
                &&& l.valid(final(lake).contents())
                &&& l.resolved(final(lake).contents())
                &&& l.key_bytes(final(lake).contents()) == key@
                &&& l.value_bytes(final(lake).contents()) == value@
            }),
    {
        let key_ref = match serializer::serialize(&key, lake) {
            Ok(h) => h,
            Err(e) => {
                return Err(e);
            },
        };
        let ghost mid = *lake;
        let val_ref = match serializer::serialize(&value, lake) {
            Ok(h) => h,
            Err(e) => {
                return Err(e);
            },
        };

        let key_u32 = hasher::checksum_u32(key_ref.as_slice(), key_ref.len() as u32);
        let val_u32 = hasher::checksum_u32(val_ref.as_slice(), val_ref.len() as u32);

        proof {
            if old(lake).is_complete() && Leaf::payloads_fresh(*old(lake), key@, value@) {
                serializer::lemma_handle_len(key@);
                serializer::lemma_handle_len(value@);
                if key@.len() >= 36 {
                    assert(mid.records().dom().contains(hasher::hash_of(key@)));
                    assert(mid.records()[hasher::hash_of(key@)].data == key@);
                    assert(lake.records()[hasher::hash_of(key@)].data == key@);
                } else {
                    crate::base64::lemma_decode_encode(key@);
                }
                if value@.len() >= 36 {
                    let idv = hasher::hash_of(value@);
                    if mid.records().dom().contains(idv) {
                        // the only identifier the first store can have added
                        // is the key's; freshness makes the payloads agree
                        assert(!old(lake).records().dom().contains(idv));
                        assert(key@.len() >= 36 && idv == hasher::hash_of(key@));
                        assert(mid.records()[idv].data == key@);
                        assert(key@ == value@);
                        assert(lake.records()[idv].data == value@);
                    } else {
                        assert(lake.records()[idv].data == value@);
                    }
                } else {
                    crate::base64::lemma_decode_encode(value@);
                }
            }
        }

        Ok(
            Leaf {
                key_u32,
                key_ref,
                key_val: Some(key),
                val_u32,
                val_ref,
                val_val: Some(value),
            },
        )
    }

    /// As `from_kv`, taking the payloads behind shared references.
    pub fn from_kvrc(
        key: std::rc::Rc<Vec<u8>>,
        val: std::rc::Rc<Vec<u8>>,
        lake: &mut DataLake,
    ) -> (r: UssResult<Leaf>)
        requires
            old(lake).wf(),
            (*key)@.len() <= 65535,
            (*val)@.len() <= 65535,
        ensures
            final(lake).wf(),
            final(lake).is_complete() == old(lake).is_complete(),
            (*key)@.len() < 36 && (*val)@.len() < 36 ==> r is Ok && *final(lake) == *old(lake),
            r matches Ok(l) ==> ({
                &&& l.wf()
                &&& l.spec_key_ref() == serializer::handle_of((*key)@)
                &&& l.spec_val_ref() == serializer::handle_of((*val)@)
                &&& l.spec_key_u32() == surrogate_of((*key)@)
                &&& l.spec_val_u32() == surrogate_of((*val)@)
            }),
    {
        let k = clone_bytes(rc_borrow(&key));
        let v = clone_bytes(rc_borrow(&val));
        Leaf::from_kv(k, v, lake)
    }

    /// Rebuilds a leaf from the handle under which its pair of handles
    /// was serialized. The caches start empty.
    pub fn from_hash(hash: &[u8], lake: &DataLake) -> (r: UssResult<Leaf>)
        requires
            lake.wf(),
        ensures
            r matches Ok(l) ==> l.wf() && l.spec_key_val() is None && l.spec_val_val() is None,
            lake.is_complete() ==> (forall|x: Seq<u8>, y: Seq<u8>|
                resolve(hash@, lake.contents()) == #[trigger] serializer::pair_code(x, y) ==> (
                r matches Ok(l) && l.spec_key_ref() == x && l.spec_val_ref() == y)),
    {
        let pair = match serializer::deserialize_pair(hash, lake) {
            Ok(p) => p,
            Err(e) => {
                return Err(e);
            },
        };
        let (key_ref, val_ref) = pair;
        let key_u32 = hasher::checksum_u32(key_ref.as_slice(), key_ref.len() as u32);
        let val_u32 = hasher::checksum_u32(val_ref.as_slice(), val_ref.len() as u32);
        Ok(Leaf { key_u32, key_ref, key_val: None, val_u32, val_ref, val_val: None })
    }

    /// The handle of this leaf's serialized pair of handles. On a lake
    /// with an exact model this fails exactly when the encoded pair
    /// outgrows the blob cap or cannot be stored.
    pub fn hash(&self, lake: &mut DataLake) -> (r: UssResult<Vec<u8>>)
        requires
            old(lake).wf(),
        ensures
            final(lake).wf(),
            final(lake).is_complete() == old(lake).is_complete(),
            final(lake).spec_readonly() == old(lake).spec_readonly(),
            forall|id: Seq<u8>| #[trigger]
                old(lake).records().dom().contains(id) ==> final(lake).records().dom().contains(id)
                    && final(lake).records()[id] == old(lake).records()[id],
            r matches Ok(h) ==> h@ == serializer::handle_of(
                serializer::pair_code(self.spec_key_ref(), self.spec_val_ref()),
            ),
            old(lake).is_complete() ==> (r is Ok <==> ({
                let pc = serializer::pair_code(self.spec_key_ref(), self.spec_val_ref());
                pc.len() <= 65535 && (pc.len() < 36 || old(lake).can_store(pc))
            })),
            serializer::pair_code(self.spec_key_ref(), self.spec_val_ref()).len() < 36 ==> (
            r is Ok && *final(lake) == *old(lake)),
            old(lake).is_complete() && r is Ok && Leaf::pair_fresh(
                *old(lake),
                self.spec_key_ref(),
                self.spec_val_ref(),
            ) ==> ({
                let pc = serializer::pair_code(self.spec_key_ref(), self.spec_val_ref());
                let h = serializer::handle_of(pc);
                &&& handle_resolved(h, final(lake).contents())
                &&& resolve(h, final(lake).contents()) == pc
            }),
    {
        let pb = match serializer::pair_to_bytes(&self.key_ref, &self.val_ref) {
            Ok(v) => v,
            Err(e) => {
                return Err(e);
            },
        };
        if pb.len() > 65535 {
            return Err(UssError::StaticError("Leaf::hash: serialized pair too long"));
        }
        let ghost pc = serializer::pair_code(self.spec_key_ref(), self.spec_val_ref());
        let r = serializer::serialize(&pb, lake);
        match r {
            Ok(h) => {
                proof {
                    if old(lake).is_complete() && Leaf::pair_fresh(
                        *old(lake),
                        self.spec_key_ref(),
                        self.spec_val_ref(),
                    ) {
                        serializer::lemma_handle_len(pc);
                        if pc.len() < 36 {
                            crate::base64::lemma_decode_encode(pc);
                        }
                    }
                }
                Ok(h)
            },
            Err(e) => Err(e),
        }
    }

    /// The key payload, from the cache or resolved through the lake.
    pub fn key(&self, lake: &DataLake) -> (r: UssResult<Vec<u8>>)
        requires
            lake.wf(),
        ensures
            r is Ok,
            self.spec_key_val() matches Some(v) ==> r->Ok_0@ == v,
            lake.is_complete() ==> r->Ok_0@ == self.key_bytes(lake.contents()),
    {
        match &self.key_val {
            Some(v) => Ok(clone_bytes(v)),
            None => Ok(serializer::hash_to_bytes(self.key_ref.as_slice(), lake)),
        }
    }

    /// As `key`, and caches the payload.
    pub fn key_cache(&mut self, lake: &DataLake) -> (r: UssResult<Vec<u8>>)
        requires
            lake.wf(),
        ensures
            r is Ok,
            final(self).spec_key_val() == Some(r->Ok_0@),
            final(self).spec_key_u32() == old(self).spec_key_u32(),
            final(self).spec_key_ref() == old(self).spec_key_ref(),
            final(self).spec_val_u32() == old(self).spec_val_u32(),
            final(self).spec_val_ref() == old(self).spec_val_ref(),
            final(self).spec_val_val() == old(self).spec_val_val(),
            lake.is_complete() ==> r->Ok_0@ == old(self).key_bytes(lake.contents()),
            lake.is_complete() && old(self).valid(lake.contents()) ==> final(self).valid(
                lake.contents(),
            ),
    {
        let rv = match self.key(lake) {
            Ok(v) => v,
            Err(e) => {
                return Err(e);
            },
        };
        self.key_val = Some(clone_bytes(&rv));
        Ok(rv)
    }

    /// The value payload, from the cache or resolved through the lake.
    pub fn value(&self, lake: &DataLake) -> (r: UssResult<Vec<u8>>)
        requires
            lake.wf(),
        ensures
            r is Ok,
            self.spec_val_val() matches Some(v) ==> r->Ok_0@ == v,
            lake.is_complete() ==> r->Ok_0@ == self.value_bytes(lake.contents()),
    {
        match &self.val_val {
            Some(v) => Ok(clone_bytes(v)),
            None => Ok(serializer::hash_to_bytes(self.val_ref.as_slice(), lake)),
        }
    }

    /// As `value`, and caches the payload.
    pub fn value_cache(&mut self, lake: &DataLake) -> (r: UssResult<Vec<u8>>)
        requires
            lake.wf(),
        ensures
            r is Ok,
            final(self).spec_val_val() == Some(r->Ok_0@),
            final(self).spec_key_u32() == old(self).spec_key_u32(),
            final(self).spec_key_ref() == old(self).spec_key_ref(),
            final(self).spec_key_val() == old(self).spec_key_val(),
            final(self).spec_val_u32() == old(self).spec_val_u32(),
            final(self).spec_val_ref() == old(self).spec_val_ref(),
            lake.is_complete() ==> r->Ok_0@ == old(self).value_bytes(lake.contents()),
            lake.is_complete() && old(self).valid(lake.contents()) ==> final(self).valid(
                lake.contents(),
            ),
    {
        let rv = match self.value(lake) {
            Ok(v) => v,
            Err(e) => {
                return Err(e);
            },
        };
        self.val_val = Some(clone_bytes(&rv));
        Ok(rv)
    }

    /// As `set`, taking the payload behind a shared reference.
    pub fn set_rc(&mut self, value: std::rc::Rc<Vec<u8>>, lake: &mut DataLake) -> (r: UssResult<()>)
        requires
            old(self).wf(),
            old(lake).wf(),
            (*value)@.len() <= 65535,
        ensures
            final(lake).wf(),
            final(lake).is_complete() == old(lake).is_complete(),
            forall|id: Seq<u8>| #[trigger]
                old(lake).records().dom().contains(id) ==> final(lake).records().dom().contains(id)
                    && final(lake).records()[id] == old(lake).records()[id],
            final(self).spec_key_u32() == old(self).spec_key_u32(),
            final(self).spec_key_ref() == old(self).spec_key_ref(),
            final(self).spec_key_val() == old(self).spec_key_val(),
            (*value)@.len() < 36 ==> r is Ok && *final(lake) == *old(lake),
            old(lake).is_complete() ==> (r is Ok <==> ((*value)@.len() < 36 || old(
                lake,
            ).can_store((*value)@))),
            r is Ok ==> final(self).wf() && final(self).spec_val_ref() == serializer::handle_of(
                (*value)@,
            ) && final(self).spec_val_val() == Some((*value)@),
            r is Err ==> *final(self) == *old(self),
    {
        let v = clone_bytes(rc_borrow(&value));
        self.set(v, lake)
    }

    /// Replaces the value payload: serializes it, updates the handle and
    /// surrogate, and caches it.
    pub fn set(&mut self, value: Vec<u8>, lake: &mut DataLake) -> (r: UssResult<()>)
        requires
            old(self).wf(),
            old(lake).wf(),
            value@.len() <= 65535,
        ensures
            final(lake).wf(),
            final(lake).is_complete() == old(lake).is_complete(),
            forall|id: Seq<u8>| #[trigger]
                old(lake).records().dom().contains(id) ==> final(lake).records().dom().contains(id)
                    && final(lake).records()[id] == old(lake).records()[id],
            final(self).spec_key_u32() == old(self).spec_key_u32(),
            final(self).spec_key_ref() == old(self).spec_key_ref(),
            final(self).spec_key_val() == old(self).spec_key_val(),
            value@.len() < 36 ==> r is Ok && *final(lake) == *old(lake),
            old(lake).is_complete() ==> (r is Ok <==> (value@.len() < 36 || old(lake).can_store(
                value@,
            ))),
            r is Ok ==> final(self).wf() && final(self).spec_val_ref() == serializer::handle_of(
                value@,
            ) && final(self).spec_val_val() == Some(value@),
            r is Err ==> *final(self) == *old(self),
    {
        let val_ref = match serializer::serialize(&value, lake) {
            Ok(h) => h,
            Err(e) => {
                return Err(e);
            },
        };
        let val_u32 = hasher::checksum_u32(val_ref.as_slice(), val_ref.len() as u32);
        self.val_ref = val_ref;
        self.val_u32 = val_u32;
        self.val_val = Some(value);
        Ok(())
    }

    pub fn key_u32(&self) -> (r: u32)
        ensures
            r == self.spec_key_u32(),
    {
        self.key_u32
    }

    pub fn key_ref(&self) -> (r: &Vec<u8>)
        ensures
            r@ == self.spec_key_ref(),
    {
        &self.key_ref
    }

    pub fn key_val(&self) -> (r: Option<Vec<u8>>)
        ensures
            r matches Some(v) ==> self.spec_key_val() == Some(v@),
            r is Some <==> self.spec_key_val() is Some,
    {
        match &self.key_val {
            Some(v) => Some(clone_bytes(v)),
            None => None,
        }
    }

    pub fn val_u32(&self) -> (r: u32)
        ensures
            r == self.spec_val_u32(),
    {
        self.val_u32
    }

    pub fn val_ref(&self) -> (r: &Vec<u8>)
        ensures
            r@ == self.spec_val_ref(),
    {
        &self.val_ref
    }

    pub fn val_val(&self) -> (r: Option<Vec<u8>>)
        ensures
            r matches Some(v) ==> self.spec_val_val() == Some(v@),
            r is Some <==> self.spec_val_val() is Some,
    {
        match &self.val_val {
            Some(v) => Some(clone_bytes(v)),
            None => None,
        }
    }
}

/// Persistence of a leaf across further stores: once its handles
/// resolve, later additions to the lake change neither the payloads it
/// stands for nor its validity. With `set` never touching its receiver,
/// this is what keeps an old root's readings unchanged after a new root
/// is built.
pub proof fn lemma_leaf_persistence(
    l: Leaf,
    m1: Map<Seq<u8>, Seq<u8>>,
    m2: Map<Seq<u8>, Seq<u8>>,
)
    requires
        l.resolved(m1),
        forall|id: Seq<u8>| #[trigger] m1.dom().contains(id) ==> m2.dom().contains(id) && m2[id]
            == m1[id],
    ensures
        l.resolved(m2),
        l.key_bytes(m2) == l.key_bytes(m1),
        l.value_bytes(m2) == l.value_bytes(m1),
        l.valid(m1) ==> l.valid(m2),
{
    serializer::lemma_resolve_monotone(l.spec_key_ref(), m1, m2);
    serializer::lemma_resolve_monotone(l.spec_val_ref(), m1, m2);
}

/// A byte-for-byte copy of a byte string.
pub fn clone_bytes(v: &Vec<u8>) -> (r: Vec<u8>)
    ensures
        r@ == v@,
{
    vstd::slice::slice_to_vec(v.as_slice())
}

/// Relies on `Rc` dereferencing to the value it shares.
#[verifier::external_body]
pub(crate) fn rc_borrow<T>(rc: &std::rc::Rc<T>) -> (r: &T)
    ensures
        *r == *rc,
{
    &**rc
}

} // verus!
