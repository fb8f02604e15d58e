//! The enumerable key-value map.
//!
//! A map handle owns no storage: it owns the right, through a capability
//! index, to address one region of the flat storage space.  Construction
//! validates the capability's size and alignment; the operations derive the
//! cell addresses of the [`crate::addr`] layout and read or write them
//! through the injected [`Storage`] backend.

use vstd::prelude::*;
use core::marker::PhantomData;
pub use crate::storage::Error;

verus! {

use vstd::arithmetic::power2::*;
use vstd::pervasive::unreached;
use crate::bytes::Bytes32;
use crate::bytes::be_val;
use crate::bytes::zero32;
use crate::bytes::lemma_be_val_bound;
use crate::bytes::lemma_be_enc_len;
use crate::storage::Storage;
use crate::data::Keyable;
use crate::data::Storable;
use crate::data::DataStructureError;
use crate::data::slot_addr;
use crate::data::key_slot_enc;
use crate::addr::value_slot_addr;
use crate::addr::presence_slot_addr;
use crate::addr::length_slot_addr;
use crate::addr::log_slot_addr;
use crate::addr::aligned_loc;
use crate::addr::lemma_aligned_bytes;
use crate::addr::lemma_size_bytes;
use crate::addr::lemma_key_slot_indices;
use crate::addr::lemma_presence_ne_value;
use crate::addr::lemma_presence_ne_value_all;
use crate::addr::lemma_presence_injective;
use crate::addr::lemma_value_ne_value;
use crate::addr::lemma_length_ne_key_slots;
use crate::addr::lemma_log_ne_key_slots;
use crate::addr::lemma_log_ne_key_slots_all;
use crate::addr::lemma_log_ne_length;
use crate::addr::lemma_log_injective;

/// An enumerable map from keys of type `K` to values of type `V`, stored in
/// the capability-authorized region starting at `location`.
pub struct StorageEnumerableMap<K, V> {
    cap_index: u8,
    /// The start location of the map.
    location: Bytes32,
    /// The key type of the map.
    key_type: PhantomData<K>,
    /// The data type of the map.
    data_type: PhantomData<V>,
    /// Possibly the cached number of elements in the map.
    length: Option<u64>,
}

impl<K: Keyable, V: Storable> StorageEnumerableMap<K, V> {
    /// The key width of this map's key type, in bytes.
    pub open spec fn width(self) -> int {
        K::spec_key_width() as int
    }

    /// The base location of the authorized region.
    pub closed spec fn loc(self) -> Seq<u8> {
        self.location@
    }

    pub closed spec fn spec_cap_index(self) -> u8 {
        self.cap_index
    }

    pub closed spec fn cached_length(self) -> Option<u64> {
        self.length
    }

    /// The handle's intrinsic well-formedness: a 32-byte location whose
    /// trailing zero bits allow this key width.
    pub open spec fn inv(self) -> bool {
        &&& self.loc().len() == 32
        &&& 1 <= self.width() <= 30
        &&& aligned_loc(self.loc(), self.width())
    }

    /// The persisted element count: the value of the length-counter cell.
    pub open spec fn count(self, s: Storage) -> nat {
        be_val(s.raw(length_slot_addr(self.loc(), self.width())))
    }

    /// Whether the presence flag of key encoding `kv` is set in `s`.
    pub open spec fn spec_present(self, s: Storage, kv: Seq<u8>) -> bool {
        s.raw(presence_slot_addr(self.loc(), kv)) != zero32()
    }

    /// The cell contents of the value span of key encoding `kv` in `s`.
    pub open spec fn value_slots(self, s: Storage, kv: Seq<u8>) -> Seq<Seq<u8>> {
        Seq::new(
            V::spec_n_keys() as nat,
            |j: int| s.raw(slot_addr(value_slot_addr(self.loc(), kv), j)),
        )
    }

    /// What a lookup of key encoding `kv` observes in `s`: the value span if
    /// the presence flag is set, nothing otherwise.
    pub open spec fn spec_get(self, s: Storage, kv: Seq<u8>) -> Option<Seq<Seq<u8>>> {
        if self.spec_present(s, kv) {
            Some(self.value_slots(s, kv))
        } else {
            None
        }
    }

    /// The enumeration log in `s`: one key encoding per insertion, in
    /// insertion order.
    pub open spec fn log_view(self, s: Storage) -> Seq<Seq<u8>> {
        Seq::new(
            self.count(s),
            |i: int| s.raw(log_slot_addr(self.loc(), self.width(), i)).skip(32 - self.width()),
        )
    }

    /// Whether this handle's capability index is still backed by `s`.
    pub open spec fn valid_cap(self, s: Storage) -> bool {
        s.has_cap(self.spec_cap_index() as int)
    }

    /// The handle agrees with `s`: the cached length, if any, matches the
    /// persisted counter, and the counter is within the address space the
    /// layout can enumerate.
    pub open spec fn coherent(self, s: Storage) -> bool {
        &&& match self.cached_length() {
            Some(l) => l as nat == self.count(s),
            None => true,
        }
        &&& self.count(s) < pow2(64)
        &&& self.count(s) < pow2((8 * (self.width() + 1)) as nat)
    }

    /// Derive a map handle from the capability at the given index.
    ///
    /// Succeeds iff the capability exists, its region holds one value slot
    /// per possible key, and its location is aligned for this key width; each
    /// failure is reported as the corresponding error.
    pub fn from(cap_index: u8, s: &Storage) -> (r: Result<Self, DataStructureError>)
        requires
            s.wf(),
        ensures
            match r {
                Ok(m) => {
                    &&& s.has_cap(cap_index as int)
                    &&& be_val(s.cap_size(cap_index as int)) >= pow2(
                        (8 * (K::spec_key_width() as int + 1)) as nat,
                    )
                    &&& aligned_loc(s.cap_loc(cap_index as int), K::spec_key_width() as int)
                    &&& m.inv()
                    &&& m.loc() == s.cap_loc(cap_index as int)
                    &&& m.spec_cap_index() == cap_index
                    &&& m.cached_length() is None
                },
                Err(e) => {
                    &&& (e == DataStructureError::BadCap <==> !s.has_cap(cap_index as int))
                    &&& (e == DataStructureError::TooSmall <==> s.has_cap(cap_index as int)
                        && be_val(s.cap_size(cap_index as int)) < pow2(
                        (8 * (K::spec_key_width() as int + 1)) as nat,
                    ))
                    &&& (e == DataStructureError::MisAligned <==> s.has_cap(cap_index as int)
                        && be_val(s.cap_size(cap_index as int)) >= pow2(
                        (8 * (K::spec_key_width() as int + 1)) as nat,
                    ) && !aligned_loc(s.cap_loc(cap_index as int), K::spec_key_width() as int))
                    &&& (e == DataStructureError::BadCap || e == DataStructureError::TooSmall
                        || e == DataStructureError::MisAligned)
                },
            },
    {
        let w = K::key_width();
        proof {
            K::key_width_facts();
        }
        match s.resolve_cap(cap_index) {
            None => Err(DataStructureError::BadCap),
            Some((loc, size)) => {
                if w >= 31 {
                    proof {
                        lemma_be_val_bound(size@);
                        if 8 * (K::spec_key_width() as int + 1) > 256 {
                            lemma_pow2_strictly_increases(
                                256,
                                (8 * (K::spec_key_width() as int + 1)) as nat,
                            );
                        }
                    }
                    return Err(DataStructureError::TooSmall);
                }
                let wu = w as usize;
                proof {
                    lemma_size_bytes(size@, w as int);
                }
                if size.all_zero_range(0, 31 - wu) {
                    return Err(DataStructureError::TooSmall);
                }
                proof {
                    lemma_aligned_bytes(loc@, w as int);
                }
                let tail_zero = loc.all_zero_range(31 - wu, 32);
                let b30 = loc.byte_at(30 - wu);
                if !tail_zero || b30 % 4 != 0 {
                    return Err(DataStructureError::MisAligned);
                }
                Ok(
                    StorageEnumerableMap {
                        cap_index,
                        location: loc,
                        key_type: PhantomData,
                        data_type: PhantomData,
                        length: None,
                    },
                )
            },
        }
    }

    /// The start/base location of the map.
    pub fn location(&self) -> (r: &Bytes32)
        ensures
            r@ == self.loc(),
    {
        &self.location
    }

    /// The base storage cell of a given map key.
    pub fn base_key(&self, key: &K) -> (r: Bytes32)
        requires
            self.inv(),
            key.key_wf(),
        ensures
            r.wf(),
            r@ == value_slot_addr(self.loc(), key.key_view()),
            r@[31] == 0,
    {
        let w = K::key_width() as usize;
        proof {
            K::key_width_facts();
            key.key_view_facts();
        }
        let mut v = self.location.to_bytes();
        let ks = key.key_slice();
        let mut j: usize = 0;
        while j < w
            invariant
                j <= w,
                1 <= w <= 30,
                w == K::spec_key_width() as usize,
                v@.len() == 32,
                ks@ == key.key_view(),
                ks@.len() == w,
                self.inv(),
                forall|i: int| 0 <= i < 31 - w ==> v@[i] == self.loc()[i],
                forall|t: int| 0 <= t < j ==> v@[31 - w + t] == ks@[t],
            decreases w - j,
        {
            v.set(31 - w + j, ks[j]);
            j = j + 1;
        }
        v.set(31, 0);
        let r = Bytes32::from_bytes(v);
        proof {
            lemma_key_slot_indices(self.loc(), key.key_view(), 0);
            assert(r@ =~= value_slot_addr(self.loc(), key.key_view()));
        }
        r
    }

    /// The presence-flag cell of a given map key.
    pub fn presence_key(&self, key: &K) -> (r: Bytes32)
        requires
            self.inv(),
            key.key_wf(),
        ensures
            r.wf(),
            r@ == presence_slot_addr(self.loc(), key.key_view()),
    {
        let b = self.base_key(key);
        let r = b.with_byte(31, 0x80);
        proof {
            K::key_width_facts();
            key.key_view_facts();
            lemma_key_slot_indices(self.loc(), key.key_view(), 0);
            lemma_key_slot_indices(self.loc(), key.key_view(), 0x80);
            assert(r@ =~= presence_slot_addr(self.loc(), key.key_view()));
        }
        r
    }

    /// The length-counter cell of the map.
    pub fn length_key(&self) -> (r: Bytes32)
        requires
            self.inv(),
        ensures
            r.wf(),
            r@ == length_slot_addr(self.loc(), self.width()),
    {
        let w = K::key_width() as usize;
        proof {
            K::key_width_facts();
        }
        let idx = 30 - w;
        let b = self.location.byte_at(idx);
        self.location.with_byte(idx, b | 1)
    }

    /// The number of elements in the map: the cached count if one exists,
    /// the persisted counter otherwise.
    pub fn length(&self, s: &Storage) -> (r: u64)
        requires
            self.inv(),
            s.wf(),
            self.coherent(*s),
        ensures
            r as nat == self.count(*s),
    {
        match self.length {
            Some(l) => l,
            None => {
                let lk = self.length_key();
                let cell = s.read(&lk);
                match cell.try_to_u64() {
                    Some(n) => n,
                    None => unreached(),
                }
            },
        }
    }

    /// True iff the given key is associated with a value in the map.
    pub fn present(&self, key: &K, s: &Storage) -> (r: bool)
        requires
            self.inv(),
            s.wf(),
            key.key_wf(),
        ensures
            r == self.spec_present(*s, key.key_view()),
    {
        let pk = self.presence_key(key);
        let cell = s.read(&pk);
        let z = cell.is_zero();
        !z
    }

    /// The value associated with a given key, if the key is present and its
    /// value span decodes.
    pub fn get(&self, key: &K, s: &Storage) -> (r: Option<V>)
        requires
            self.inv(),
            s.wf(),
            key.key_wf(),
        ensures
            match r {
                Some(v) => {
                    &&& self.spec_present(*s, key.key_view())
                    &&& v.val_wf()
                    &&& V::accepts(self.value_slots(*s, key.key_view()))
                    &&& v.slots_view() == self.value_slots(*s, key.key_view())
                },
                None => !self.spec_present(*s, key.key_view()) || !V::accepts(
                    self.value_slots(*s, key.key_view()),
                ),
            },
    {
        let base = self.base_key(key);
        if self.present(key, s) {
            proof {
                V::n_keys_facts();
                assert(self.value_slots(*s, key.key_view()) =~~= Seq::new(
                    V::spec_n_keys() as nat,
                    |j: int| s.raw(slot_addr(base@, j)),
                ));
            }
            V::read(&base, s)
        } else {
            None
        }
    }

    /// The storage change one insertion makes, seen through the map's model:
    /// the count increments, the key's encoding is appended to the log, the
    /// key becomes present holding the value span `vslots`, and every other
    /// key's presence and value span are untouched.
    pub open spec fn insert_effect(
        self,
        s0: Storage,
        s1: Storage,
        kv: Seq<u8>,
        vslots: Seq<Seq<u8>>,
    ) -> bool {
        &&& s1.caps_view() == s0.caps_view()
        &&& self.count(s1) == self.count(s0) + 1
        &&& self.log_view(s1) == self.log_view(s0).push(kv)
        &&& self.spec_present(s1, kv)
        &&& self.value_slots(s1, kv) == vslots
        &&& forall|kv2: Seq<u8>|
            kv2.len() == self.width() && kv2 != kv ==> #[trigger] self.spec_present(s1, kv2)
                == self.spec_present(s0, kv2)
        &&& forall|kv2: Seq<u8>|
            kv2.len() == self.width() && kv2 != kv ==> #[trigger] self.value_slots(s1, kv2)
                == self.value_slots(s0, kv2)
    }

    /// Insert a value at a given key: set the presence flag, serialize the
    /// value into its slots, increment the length counter (cache and
    /// backend), and append the key to the enumeration log.
    ///
    /// Inserting a key that is already present is not detected: it increments
    /// the count and appends one more log entry for the same key.
    #[verifier::rlimit(60)]
    pub fn insert(&mut self, key: K, value: V, s: &mut Storage)
        requires
            old(self).inv(),
            old(s).wf(),
            key.key_wf(),
            value.val_wf(),
            old(self).valid_cap(*old(s)),
            old(self).coherent(*old(s)),
            old(self).count(*old(s)) + 1 < pow2((8 * (old(self).width() + 1)) as nat),
            old(self).count(*old(s)) + 1 < pow2(64),
        ensures
            final(self).inv(),
            final(self).loc() == old(self).loc(),
            final(self).spec_cap_index() == old(self).spec_cap_index(),
            final(self).cached_length() == Some((old(self).count(*old(s)) + 1) as u64),
            final(s).wf(),
            final(self).valid_cap(*final(s)),
            final(self).coherent(*final(s)),
            old(self).insert_effect(*old(s), *final(s), key.key_view(), value.slots_view()),
    {
        let ghost s0 = *s;
        let ghost kv = key.key_view();
        let ghost locv = self.loc();
        let ghost w = self.width();
        let ghost n = V::spec_n_keys() as int;
        let ghost c = self.count(*s);
        let ghost lslot = length_slot_addr(locv, w);
        let ghost pslot = presence_slot_addr(locv, kv);
        let ghost gslot = log_slot_addr(locv, w, c as int);
        proof {
            K::key_width_facts();
            key.key_view_facts();
            V::n_keys_facts();
            value.slots_facts();
            lemma_aligned_bytes(locv, w);
            lemma2_to64();
        }
        // (a) set the presence flag to a non-zero sentinel
        let pk = self.presence_key(&key);
        let ff = Bytes32::repeat_byte(0xff);
        let r1 = s.write(self.cap_index, &pk, &ff);
        match r1 {
            Ok(_) => (),
            Err(_) => unreached(),
        }
        let ghost s1 = *s;
        // (b) serialize the value at the key's value slots
        let base = self.base_key(&key);
        proof {
            lemma_presence_ne_value_all(locv, w, kv, kv);
        }
        let r2 = value.store(self.cap_index, &base, s);
        match r2 {
            Ok(_) => (),
            Err(_) => unreached(),
        }
        let ghost s2 = *s;
        // (c) increment the length counter, in the cache and in the backend
        proof {
            assert forall|j: int| 0 <= j < n implies lslot != slot_addr(
                value_slot_addr(locv, kv),
                j,
            ) by {
                lemma_length_ne_key_slots(locv, w, kv, j);
            }
            lemma_length_ne_key_slots(locv, w, kv, 0);
            assert(s2.raw(lslot) == s1.raw(lslot));
            assert(s2.raw(lslot) == s0.raw(lslot));
        }
        let cur = self.length(s);
        let new_len = cur + 1;
        self.length = Some(new_len);
        let lk = self.length_key();
        let lv = Bytes32::from_u64(new_len);
        let r3 = s.write(self.cap_index, &lk, &lv);
        match r3 {
            Ok(_) => (),
            Err(_) => unreached(),
        }
        let ghost s3 = *s;
        // (d) append the key to the enumeration log
        let wu = K::key_width() as usize;
        let log_k = lk.with_tail_u64(wu + 1, new_len);
        proof {
            lemma_be_enc_len(new_len as nat, (wu + 1) as nat);
            assert(log_k@ =~= gslot);
        }
        let kslot = key.to_slot();
        let r4 = s.write(self.cap_index, &log_k, &kslot);
        match r4 {
            Ok(_) => (),
            Err(_) => unreached(),
        }
        let ghost s4 = *s;
        proof {
            let m = *old(self);
            lemma_log_ne_length(locv, w, c as int);
            lemma_log_ne_key_slots_all(locv, w, c as int, kv);
            // the counter now holds c + 1
            assert(s4.raw(lslot) == s3.raw(lslot));
            assert(s4.raw(lslot) == lv@);
            assert(m.count(s4) == c + 1);
            // the presence flag is set
            assert forall|j: int| 0 <= j < n implies pslot != slot_addr(
                value_slot_addr(locv, kv),
                j,
            ) by {
                lemma_presence_ne_value(locv, w, kv, kv, j);
            }
            assert(s4.raw(pslot) == s1.raw(pslot));
            assert(s4.raw(pslot) == Seq::new(32, |i: int| 0xffu8));
            assert(s4.raw(pslot)[0] == 0xffu8);
            assert(zero32()[0] == 0u8);
            assert(m.spec_present(s4, kv));
            // the value slots hold the value's encoding
            assert forall|j: int| 0 <= j < n implies #[trigger] s4.raw(
                slot_addr(value_slot_addr(locv, kv), j),
            ) == value.slots_view()[j] by {
                lemma_length_ne_key_slots(locv, w, kv, j);
                lemma_log_ne_key_slots(locv, w, c as int, kv, j);
                assert(s4.raw(slot_addr(value_slot_addr(locv, kv), j)) == s3.raw(
                    slot_addr(value_slot_addr(locv, kv), j),
                ));
                assert(s3.raw(slot_addr(value_slot_addr(locv, kv), j)) == s2.raw(
                    slot_addr(value_slot_addr(locv, kv), j),
                ));
            }
            assert(m.value_slots(s4, kv) =~= value.slots_view());
            // the log gained exactly one entry, for this key
            assert(s4.raw(gslot) == kslot@);
            assert(key_slot_enc(kv).skip(32 - w) =~= kv);
            assert(m.log_view(s4)[c as int] == kv);
            assert forall|i: int| 0 <= i < c implies #[trigger] m.log_view(s4)[i] == m.log_view(
                s0,
            )[i] by {
                let gi = log_slot_addr(locv, w, i);
                lemma_log_injective(locv, w, i, c as int);
                lemma_log_ne_length(locv, w, i);
                lemma_log_ne_key_slots_all(locv, w, i, kv);
                assert(s4.raw(gi) == s3.raw(gi));
                assert(s3.raw(gi) == s2.raw(gi));
                assert(s2.raw(gi) == s1.raw(gi));
                assert(s1.raw(gi) == s0.raw(gi));
            }
            assert(m.log_view(s4) =~= m.log_view(s0).push(kv));
            // every other key's presence flag and value span are untouched
            assert forall|kv2: Seq<u8>|
                kv2.len() == w && kv2 != kv implies #[trigger] m.spec_present(s4, kv2)
                == m.spec_present(s0, kv2) by {
                let p2 = presence_slot_addr(locv, kv2);
                lemma_presence_injective(locv, w, kv2, kv);
                lemma_presence_ne_value_all(locv, w, kv2, kv);
                lemma_length_ne_key_slots(locv, w, kv2, 0);
                lemma_log_ne_key_slots(locv, w, c as int, kv2, 0);
                assert(s4.raw(p2) == s3.raw(p2));
                assert(s3.raw(p2) == s2.raw(p2));
                assert(s2.raw(p2) == s1.raw(p2));
                assert(s1.raw(p2) == s0.raw(p2));
            }
            assert forall|kv2: Seq<u8>|
                kv2.len() == w && kv2 != kv implies #[trigger] m.value_slots(s4, kv2)
                == m.value_slots(s0, kv2) by {
                assert forall|j2: int| 0 <= j2 < n implies #[trigger] s4.raw(
                    slot_addr(value_slot_addr(locv, kv2), j2),
                ) == s0.raw(slot_addr(value_slot_addr(locv, kv2), j2)) by {
                    let b2 = slot_addr(value_slot_addr(locv, kv2), j2);
                    lemma_presence_ne_value(locv, w, kv, kv2, j2);
                    assert forall|j: int| 0 <= j < n implies b2 != slot_addr(
                        value_slot_addr(locv, kv), j,
                    ) by {
                        lemma_value_ne_value(locv, w, kv2, kv, j2, j);
                    }
                    lemma_length_ne_key_slots(locv, w, kv2, j2);
                    lemma_log_ne_key_slots(locv, w, c as int, kv2, j2);
                    assert(s4.raw(b2) == s3.raw(b2));
                    assert(s3.raw(b2) == s2.raw(b2));
                    assert(s2.raw(b2) == s1.raw(b2));
                    assert(s1.raw(b2) == s0.raw(b2));
                }
                assert(m.value_slots(s4, kv2) =~= m.value_slots(s0, kv2));
            }
        }
    }

    /// The key at a given enumeration index, in insertion order; nothing if
    /// the index is at or past the element count.
    pub fn get_key_at_index(&self, index: u64, s: &Storage) -> (r: Option<K>)
        requires
            self.inv(),
            s.wf(),
            self.coherent(*s),
        ensures
            match r {
                Some(k) => {
                    &&& (index as nat) < self.count(*s)
                    &&& k.key_wf()
                    &&& k.key_view() == self.log_view(*s)[index as int]
                },
                None => (index as nat) >= self.count(*s),
            },
    {
        let len = self.length(s);
        if index >= len {
            return None;
        }
        let w = K::key_width() as usize;
        proof {
            K::key_width_facts();
        }
        let lk = self.length_key();
        let idx1 = index + 1;
        let slot_key = lk.with_tail_u64(w + 1, idx1);
        proof {
            lemma_be_enc_len(idx1 as nat, (w + 1) as nat);
            assert(slot_key@ =~= log_slot_addr(self.loc(), self.width(), index as int));
        }
        let cell = s.read(&slot_key);
        let k = K::from_slot(&cell);
        proof {
            assert(k.key_view() == self.log_view(*s)[index as int]);
        }
        Some(k)
    }

    /// Produce an iterator over keys and values.
    pub fn iter<'a>(&'a self) -> (r: StorageEnumerableMapIter<'a, K, V>)
        ensures
            r.map_of() == *self,
            r.offset() == 0,
    {
        StorageEnumerableMapIter::new(self)
    }

    /// Produce an iterator over keys.
    pub fn keys<'a>(&'a self) -> (r: StorageEnumerableMapKeys<'a, K, V>)
        ensures
            r.map_of() == *self,
            r.offset() == 0,
    {
        StorageEnumerableMapKeys::new(self)
    }

    /// Produce an iterator over values.
    pub fn values<'a>(&'a self) -> (r: StorageEnumerableMapValues<'a, K, V>)
        ensures
            r.map_of() == *self,
            r.offset() == 0,
    {
        StorageEnumerableMapValues::new(self)
    }
}

/// A cursor over the values of a [`StorageEnumerableMap`], in insertion
/// order.
pub struct StorageEnumerableMapValues<'a, K, V> {
    /// The map being enumerated.
    storage_map: &'a StorageEnumerableMap<K, V>,
    /// The current enumeration index.
    offset: u64,
}

impl<'a, K: Keyable, V: Storable> StorageEnumerableMapValues<'a, K, V> {
    pub closed spec fn map_of(self) -> StorageEnumerableMap<K, V> {
        *self.storage_map
    }

    pub closed spec fn offset(self) -> u64 {
        self.offset
    }

    fn new(storage_map: &'a StorageEnumerableMap<K, V>) -> (r: Self)
        ensures
            r.map_of() == *storage_map,
            r.offset() == 0,
    {
        StorageEnumerableMapValues { storage_map, offset: 0 }
    }

    /// The next value in insertion order.  Stops at the end of the log, or
    /// early if a logged key's value span does not decode.
    pub fn next(&mut self, s: &Storage) -> (r: Option<V>)
        requires
            old(self).map_of().inv(),
            s.wf(),
            old(self).map_of().coherent(*s),
        ensures
            final(self).map_of() == old(self).map_of(),
            ({
                let m = old(self).map_of();
                let i = old(self).offset() as int;
                match r {
                    Some(v) => {
                        &&& (i as nat) < m.count(*s)
                        &&& final(self).offset() == old(self).offset() + 1
                        &&& v.val_wf()
                        &&& m.spec_present(*s, m.log_view(*s)[i])
                        &&& V::accepts(m.value_slots(*s, m.log_view(*s)[i]))
                        &&& v.slots_view() == m.value_slots(*s, m.log_view(*s)[i])
                    },
                    None => ((i as nat) >= m.count(*s) && final(self).offset() == old(
                        self,
                    ).offset()) || ((i as nat) < m.count(*s) && final(self).offset() == old(
                        self,
                    ).offset() + 1 && (!m.spec_present(*s, m.log_view(*s)[i]) || !V::accepts(
                        m.value_slots(*s, m.log_view(*s)[i]),
                    ))),
                }
            }),
    {
        proof {
            lemma2_to64();
        }
        let key = match self.storage_map.get_key_at_index(self.offset, s) {
            Some(val) => {
                self.offset = self.offset + 1;
                Some(val)
            },
            None => None,
        };
        match key {
            Some(k) => self.storage_map.get(&k, s),
            None => None,
        }
    }
}

/// A cursor over the keys of a [`StorageEnumerableMap`], in insertion order.
pub struct StorageEnumerableMapKeys<'a, K, V> {
    /// The map being enumerated.
    storage_map: &'a StorageEnumerableMap<K, V>,
    /// The current enumeration index.
    offset: u64,
}

impl<'a, K: Keyable, V: Storable> StorageEnumerableMapKeys<'a, K, V> {
    pub closed spec fn map_of(self) -> StorageEnumerableMap<K, V> {
        *self.storage_map
    }

    pub closed spec fn offset(self) -> u64 {
        self.offset
    }

    fn new(storage_map: &'a StorageEnumerableMap<K, V>) -> (r: Self)
        ensures
            r.map_of() == *storage_map,
            r.offset() == 0,
    {
        StorageEnumerableMapKeys { storage_map, offset: 0 }
    }

    /// The next key in insertion order, until the log is exhausted.
    pub fn next(&mut self, s: &Storage) -> (r: Option<K>)
        requires
            old(self).map_of().inv(),
            s.wf(),
            old(self).map_of().coherent(*s),
        ensures
            final(self).map_of() == old(self).map_of(),
            ({
                let m = old(self).map_of();
                let i = old(self).offset() as int;
                match r {
                    Some(k) => {
                        &&& (i as nat) < m.count(*s)
                        &&& final(self).offset() == old(self).offset() + 1
                        &&& k.key_wf()
                        &&& k.key_view() == m.log_view(*s)[i]
                    },
                    None => (i as nat) >= m.count(*s) && final(self).offset() == old(
                        self,
                    ).offset(),
                }
            }),
    {
        proof {
            lemma2_to64();
        }
        match self.storage_map.get_key_at_index(self.offset, s) {
            Some(val) => {
                self.offset = self.offset + 1;
                Some(val)
            },
            None => None,
        }
    }
}

/// A cursor over the key-value pairs of a [`StorageEnumerableMap`], in
/// insertion order.
pub struct StorageEnumerableMapIter<'a, K, V> {
    /// The map being enumerated.
    storage_map: &'a StorageEnumerableMap<K, V>,
    /// The current enumeration index.
    offset: u64,
}

impl<'a, K: Keyable, V: Storable> StorageEnumerableMapIter<'a, K, V> {
    pub closed spec fn map_of(self) -> StorageEnumerableMap<K, V> {
        *self.storage_map
    }

    pub closed spec fn offset(self) -> u64 {
        self.offset
    }

    fn new(storage_map: &'a StorageEnumerableMap<K, V>) -> (r: Self)
        ensures
            r.map_of() == *storage_map,
            r.offset() == 0,
    {
        StorageEnumerableMapIter { storage_map, offset: 0 }
    }

    /// The next key-value pair in insertion order.  Started fresh on a map
    /// whose every logged key is present and decodes, successive calls yield
    /// exactly the logged keys with their stored values, in insertion order.
    pub fn next(&mut self, s: &Storage) -> (r: Option<(K, V)>)
        requires
            old(self).map_of().inv(),
            s.wf(),
            old(self).map_of().coherent(*s),
        ensures
            final(self).map_of() == old(self).map_of(),
            ({
                let m = old(self).map_of();
                let i = old(self).offset() as int;
                match r {
                    Some(p) => {
                        &&& (i as nat) < m.count(*s)
                        &&& final(self).offset() == old(self).offset() + 1
                        &&& p.0.key_wf()
                        &&& p.0.key_view() == m.log_view(*s)[i]
                        &&& p.1.val_wf()
                        &&& m.spec_present(*s, m.log_view(*s)[i])
                        &&& V::accepts(m.value_slots(*s, m.log_view(*s)[i]))
                        &&& p.1.slots_view() == m.value_slots(*s, m.log_view(*s)[i])
                    },
                    None => ((i as nat) >= m.count(*s) && final(self).offset() == old(
                        self,
                    ).offset()) || ((i as nat) < m.count(*s) && final(self).offset() == old(
                        self,
                    ).offset() + 1 && (!m.spec_present(*s, m.log_view(*s)[i]) || !V::accepts(
                        m.value_slots(*s, m.log_view(*s)[i]),
                    ))),
                }
            }),
    {
        proof {
            lemma2_to64();
        }
        let key = match self.storage_map.get_key_at_index(self.offset, s) {
            Some(val) => {
                self.offset = self.offset + 1;
                val
            },
            None => {
                return None;
            },
        };
        match self.storage_map.get(&key, s) {
            Some(v) => Some((key, v)),
            None => None,
        }
    }
}

/// Round trip: right after a key is inserted, it is present and a lookup
/// observes exactly the inserted value's cell span.
pub proof fn lemma_insert_round_trip<K: Keyable, V: Storable>(
    m: StorageEnumerableMap<K, V>,
    s0: Storage,
    s1: Storage,
    kv: Seq<u8>,
    vslots: Seq<Seq<u8>>,
)
    requires
        m.insert_effect(s0, s1, kv, vslots),
    ensures
        m.spec_present(s1, kv),
        m.spec_get(s1, kv) == Some(vslots),
{
}

/// Absence: a key whose presence cell holds zero, as every never-written
/// cell does, is absent and a lookup observes nothing.
pub proof fn lemma_absent<K: Keyable, V: Storable>(
    m: StorageEnumerableMap<K, V>,
    s: Storage,
    kv: Seq<u8>,
)
    requires
        s.raw(presence_slot_addr(m.loc(), kv)) == zero32(),
    ensures
        !m.spec_present(s, kv),
        m.spec_get(s, kv) is None,
{
}

/// Frame: inserting one key changes no other key's presence or observed
/// value.
pub proof fn lemma_insert_preserves_others<K: Keyable, V: Storable>(
    m: StorageEnumerableMap<K, V>,
    s0: Storage,
    s1: Storage,
    kv: Seq<u8>,
    vslots: Seq<Seq<u8>>,
    kv2: Seq<u8>,
)
    requires
        m.insert_effect(s0, s1, kv, vslots),
        kv2.len() == m.width(),
        kv2 != kv,
    ensures
        m.spec_present(s1, kv2) == m.spec_present(s0, kv2),
        m.spec_get(s1, kv2) == m.spec_get(s0, kv2),
{
}

/// Count and order: `n` insertions into a map whose counter starts at zero
/// leave the count at `n` and the enumeration log holding exactly the
/// inserted key encodings, in insertion order.
pub proof fn lemma_insert_chain<K: Keyable, V: Storable>(
    m: StorageEnumerableMap<K, V>,
    states: Seq<Storage>,
    kvs: Seq<Seq<u8>>,
    slots: Seq<Seq<Seq<u8>>>,
)
    requires
        states.len() == kvs.len() + 1,
        slots.len() == kvs.len(),
        m.count(states[0]) == 0,
        forall|i: int|
            0 <= i < kvs.len() ==> m.insert_effect(
                states[i],
                #[trigger] states[i + 1],
                kvs[i],
                slots[i],
            ),
    ensures
        m.count(states.last()) == kvs.len(),
        m.log_view(states.last()) == kvs,
    decreases kvs.len(),
{
    if kvs.len() == 0 {
        assert(states.last() == states[0]);
        assert(m.log_view(states[0]) =~= kvs);
    } else {
        let n = kvs.len() as int;
        let front_states = states.take(n);
        let front_kvs = kvs.take(n - 1);
        let front_slots = slots.take(n - 1);
        assert forall|i: int|
            0 <= i < front_kvs.len() implies m.insert_effect(
            front_states[i],
            #[trigger] front_states[i + 1],
            front_kvs[i],
            front_slots[i],
        ) by {
            assert(m.insert_effect(states[i], states[i + 1], kvs[i], slots[i]));
        }
        lemma_insert_chain(m, front_states, front_kvs, front_slots);
        assert(m.insert_effect(states[n - 1], states[n], kvs[n - 1], slots[n - 1]));
        assert(front_states.last() == states[n - 1]);
        assert(m.log_view(states[n]) == m.log_view(states[n - 1]).push(kvs[n - 1]));
        assert(m.log_view(states[n]) =~= kvs);
        assert(states.last() == states[n]);
    }
}

} // verus!
