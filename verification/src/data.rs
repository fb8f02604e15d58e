//! The key and value contracts of the map, and their scalar implementations.
//!
//! [`Keyable`] fixes how a key is encoded into a fixed-width byte string and
//! into a storage cell; [`Storable`] fixes how a value is serialized into a
//! span of consecutive storage cells.  Both contracts carry the laws the map
//! proofs rely on: encodings have the stated width, and decoding accepts
//! whatever encoding produced.

use vstd::prelude::*;

verus! {

use vstd::arithmetic::power2::*;
use crate::bytes::Bytes32;
use crate::bytes::be_enc;
use crate::bytes::zero32;
use crate::bytes::lemma_be_enc_split;
use crate::bytes::lemma_be_enc_zero;
use crate::bytes::lemma_be_enc_len;
use crate::storage::Error;
use crate::storage::Storage;

/// Why constructing a data structure over a capability failed.
#[derive(Clone, Copy, Debug, PartialEq, Eq, Structural)]
pub enum DataStructureError {
    /// The region's location does not have enough trailing zero bits for the
    /// key width.
    MisAligned,
    /// The region is too small to hold one value slot per possible key.
    TooSmall,
    /// The capability does not exist or is of the wrong kind.
    BadCap,
    /// Miscellaneous other failures, such as arithmetic edge cases.
    Other,
}

/// The address `j` cells after `a`, for spans that stay within the last byte.
pub open spec fn slot_addr(a: Seq<u8>, j: int) -> Seq<u8> {
    a.update(31, (a[31] + j) as u8)
}

/// The storage-cell encoding of a key: its byte string, left-padded with
/// zeros to 32 bytes.
pub open spec fn key_slot_enc(kv: Seq<u8>) -> Seq<u8> {
    Seq::new((32 - kv.len()) as nat, |i: int| 0u8) + kv
}

/// A fixed-width key encoding.
///
/// An implementation must encode every well-formed key to exactly
/// `key_width()` bytes, and distinct keys must not collide on the same byte
/// string; the map does not check either.
pub trait Keyable: Sized {
    /// The values of the type the encoding laws speak of.
    spec fn key_wf(&self) -> bool;

    /// The fixed-width byte string this key encodes to.
    spec fn key_view(&self) -> Seq<u8>;

    /// The width of the encoding in bytes.
    spec fn spec_key_width() -> u8;

    proof fn key_width_facts()
        ensures
            1 <= Self::spec_key_width() <= 32,
    ;

    proof fn key_view_facts(&self)
        requires
            self.key_wf(),
        ensures
            self.key_view().len() == Self::spec_key_width() as int,
    ;

    fn key_width() -> (r: u8)
        ensures
            r == Self::spec_key_width(),
    ;

    fn key_slice(&self) -> (r: Vec<u8>)
        requires
            self.key_wf(),
        ensures
            r@ == self.key_view(),
    ;

    /// The storage-cell form of this key, as written to the enumeration log.
    fn to_slot(&self) -> (r: Bytes32)
        requires
            self.key_wf(),
        ensures
            r.wf(),
            r@ == key_slot_enc(self.key_view()),
    ;

    /// Decode a key from a storage cell: the last `key_width()` bytes.
    fn from_slot(slot: &Bytes32) -> (r: Self)
        requires
            slot.wf(),
        ensures
            r.key_wf(),
            r.key_view() == slot@.skip(32 - Self::spec_key_width() as int),
    ;
}

/// A value stored as a span of `n_keys()` consecutive 32-byte storage cells.
pub trait Storable: Sized {
    /// The values of the type the encoding laws speak of.
    spec fn val_wf(&self) -> bool;

    /// The cell contents this value serializes to, one 32-byte string per
    /// cell.
    spec fn slots_view(&self) -> Seq<Seq<u8>>;

    /// How many cells one value occupies.
    spec fn spec_n_keys() -> u64;

    /// Whether a span of cell contents decodes to a value.
    spec fn accepts(slots: Seq<Seq<u8>>) -> bool;

    proof fn n_keys_facts()
        ensures
            1 <= Self::spec_n_keys() <= 128,
    ;

    proof fn slots_facts(&self)
        requires
            self.val_wf(),
        ensures
            self.slots_view().len() == Self::spec_n_keys() as int,
            forall|j: int|
                0 <= j < self.slots_view().len() ==> (#[trigger] self.slots_view()[j]).len()
                    == 32,
    ;

    /// Decoding accepts every span this type itself produced.
    proof fn encode_accepted(&self)
        requires
            self.val_wf(),
        ensures
            Self::accepts(self.slots_view()),
    ;

    fn n_keys() -> (r: u64)
        ensures
            r == Self::spec_n_keys(),
    ;

    /// Serialize this value into the cells starting at `location`, through
    /// capability `cap_index`.  The write fails, and storage is unchanged,
    /// iff the capability does not exist.
    fn store(&self, cap_index: u8, location: &Bytes32, s: &mut Storage) -> (r: Result<(), Error>)
        requires
            self.val_wf(),
            location.wf(),
            old(s).wf(),
            location@[31] + Self::spec_n_keys() <= 256,
        ensures
            final(s).wf(),
            final(s).caps_view() == old(s).caps_view(),
            match r {
                Ok(_) => {
                    &&& old(s).has_cap(cap_index as int)
                    &&& forall|j: int|
                        0 <= j < Self::spec_n_keys() as int ==> #[trigger] final(s).raw(
                            slot_addr(location@, j),
                        ) == self.slots_view()[j]
                    &&& forall|a: Seq<u8>|
                        (forall|j: int|
                            0 <= j < Self::spec_n_keys() as int ==> a != slot_addr(location@, j))
                            ==> #[trigger] final(s).raw(a) == old(s).raw(a)
                },
                Err(_) => {
                    &&& !old(s).has_cap(cap_index as int)
                    &&& forall|a: Seq<u8>| #[trigger] final(s).raw(a) == old(s).raw(a)
                },
            },
    ;

    /// Zero the cells a value of this type would occupy at `location`.
    fn clear(cap_index: u8, location: &Bytes32, s: &mut Storage) -> (r: Result<(), Error>)
        requires
            location.wf(),
            old(s).wf(),
            location@[31] + Self::spec_n_keys() <= 256,
        ensures
            final(s).wf(),
            final(s).caps_view() == old(s).caps_view(),
            match r {
                Ok(_) => {
                    &&& old(s).has_cap(cap_index as int)
                    &&& forall|j: int|
                        0 <= j < Self::spec_n_keys() as int ==> #[trigger] final(s).raw(
                            slot_addr(location@, j),
                        ) == zero32()
                    &&& forall|a: Seq<u8>|
                        (forall|j: int|
                            0 <= j < Self::spec_n_keys() as int ==> a != slot_addr(location@, j))
                            ==> #[trigger] final(s).raw(a) == old(s).raw(a)
                },
                Err(_) => {
                    &&& !old(s).has_cap(cap_index as int)
                    &&& forall|a: Seq<u8>| #[trigger] final(s).raw(a) == old(s).raw(a)
                },
            },
    ;

    /// Deserialize a value from the cells starting at `location`.
    fn read(location: &Bytes32, s: &Storage) -> (r: Option<Self>)
        requires
            location.wf(),
            s.wf(),
            location@[31] + Self::spec_n_keys() <= 256,
        ensures
            match r {
                Some(v) => {
                    &&& v.val_wf()
                    &&& Self::accepts(
                        Seq::new(
                            Self::spec_n_keys() as nat,
                            |j: int| s.raw(slot_addr(location@, j)),
                        ),
                    )
                    &&& v.slots_view() == Seq::new(
                        Self::spec_n_keys() as nat,
                        |j: int| s.raw(slot_addr(location@, j)),
                    )
                },
                None => !Self::accepts(
                    Seq::new(
                        Self::spec_n_keys() as nat,
                        |j: int| s.raw(slot_addr(location@, j)),
                    ),
                ),
            },
    ;

    /// Deserialize a value from cell contents already fetched into memory.
    fn read_vec_u256(vals: Vec<Bytes32>) -> (r: Option<Self>)
        requires
            forall|i: int| 0 <= i < vals@.len() ==> (#[trigger] vals@[i]).wf(),
        ensures
            vals@.len() < Self::spec_n_keys() as int ==> r is None,
            vals@.len() >= Self::spec_n_keys() as int ==> match r {
                Some(v) => {
                    &&& v.val_wf()
                    &&& Self::accepts(
                        Seq::new(Self::spec_n_keys() as nat, |j: int| vals@[j]@),
                    )
                    &&& v.slots_view() == Seq::new(
                        Self::spec_n_keys() as nat,
                        |j: int| vals@[j]@,
                    )
                },
                None => !Self::accepts(
                    Seq::new(Self::spec_n_keys() as nat, |j: int| vals@[j]@),
                ),
            },
    ;
}

impl Keyable for u8 {
    open spec fn key_wf(&self) -> bool {
        true
    }

    open spec fn key_view(&self) -> Seq<u8> {
        seq![*self]
    }

    open spec fn spec_key_width() -> u8 {
        1
    }

    proof fn key_width_facts() {
    }

    proof fn key_view_facts(&self) {
    }

    fn key_width() -> (r: u8) {
        1
    }

    fn key_slice(&self) -> (r: Vec<u8>) {
        let mut v: Vec<u8> = Vec::new();
        v.push(*self);
        proof {
            assert(v@ =~= seq![*self]);
        }
        v
    }

    fn to_slot(&self) -> (r: Bytes32) {
        let z = Bytes32::zero();
        let r = z.with_byte(31, *self);
        proof {
            assert(r@ =~= key_slot_enc(seq![*self]));
        }
        r
    }

    fn from_slot(slot: &Bytes32) -> (r: Self) {
        let r = slot.byte_at(31);
        proof {
            assert(seq![slot@[31]] =~= slot@.skip(31));
        }
        r
    }
}

/// A 20-byte, address-shaped key.
pub struct Address20 {
    bytes: Vec<u8>,
}

impl Address20 {
    pub fn new(bytes: Vec<u8>) -> (r: Address20)
        requires
            bytes@.len() == 20,
        ensures
            r.key_wf(),
            r.key_view() == bytes@,
    {
        Address20 { bytes }
    }

    pub fn to_bytes(&self) -> (r: Vec<u8>)
        requires
            self.key_wf(),
        ensures
            r@ == self.key_view(),
    {
        self.key_slice()
    }
}

impl Keyable for Address20 {
    closed spec fn key_wf(&self) -> bool {
        self.bytes@.len() == 20
    }

    closed spec fn key_view(&self) -> Seq<u8> {
        self.bytes@
    }

    open spec fn spec_key_width() -> u8 {
        20
    }

    proof fn key_width_facts() {
    }

    proof fn key_view_facts(&self) {
    }

    fn key_width() -> (r: u8) {
        20
    }

    fn key_slice(&self) -> (r: Vec<u8>) {
        let mut v: Vec<u8> = Vec::new();
        let mut i: usize = 0;
        while i < self.bytes.len()
            invariant
                i <= self.bytes@.len(),
                v@ =~= self.bytes@.take(i as int),
            decreases self.bytes@.len() - i,
        {
            v.push(self.bytes[i]);
            assert(v@ =~= self.bytes@.take(i + 1));
            i = i + 1;
        }
        proof {
            assert(v@ =~= self.bytes@);
        }
        v
    }

    fn to_slot(&self) -> (r: Bytes32) {
        let z = Bytes32::zero();
        let mut v = z.to_bytes();
        let mut j: usize = 0;
        while j < 20
            invariant
                j <= 20,
                self.key_wf(),
                v@.len() == 32,
                forall|i: int| 0 <= i < 12 ==> v@[i] == 0,
                forall|i: int| 12 <= i < 12 + j ==> v@[i] == self.bytes@[i - 12],
                forall|i: int| 12 + j <= i < 32 ==> v@[i] == 0,
            decreases 20 - j,
        {
            v.set(12 + j, self.bytes[j]);
            j = j + 1;
        }
        let r = Bytes32::from_bytes(v);
        proof {
            assert(r@ =~= key_slot_enc(self.key_view()));
        }
        r
    }

    fn from_slot(slot: &Bytes32) -> (r: Self) {
        let mut v: Vec<u8> = Vec::new();
        let mut k: usize = 0;
        while k < 20
            invariant
                k <= 20,
                slot.wf(),
                v@.len() == k,
                forall|i: int| 0 <= i < k ==> v@[i] == slot@[12 + i],
            decreases 20 - k,
        {
            v.push(slot.byte_at(12 + k));
            k = k + 1;
        }
        let r = Address20 { bytes: v };
        proof {
            assert(r.key_view() =~= slot@.skip(12));
        }
        r
    }
}

impl Storable for u8 {
    open spec fn val_wf(&self) -> bool {
        true
    }

    open spec fn slots_view(&self) -> Seq<Seq<u8>> {
        seq![be_enc(*self as nat, 32)]
    }

    open spec fn spec_n_keys() -> u64 {
        1
    }

    open spec fn accepts(slots: Seq<Seq<u8>>) -> bool {
        &&& slots.len() >= 1
        &&& slots[0].len() == 32
        &&& forall|i: int| 0 <= i < 31 ==> slots[0][i] == 0
    }

    proof fn n_keys_facts() {
    }

    proof fn slots_facts(&self) {
        lemma_be_enc_len(*self as nat, 32);
    }

    proof fn encode_accepted(&self) {
        lemma_u8_enc_shape(*self);
    }

    fn n_keys() -> (r: u64) {
        1
    }

    fn store(&self, cap_index: u8, location: &Bytes32, s: &mut Storage) -> (r: Result<
        (),
        Error,
    >) {
        let v = Bytes32::from_u64(*self as u64);
        proof {
            assert(slot_addr(location@, 0) =~= location@);
        }
        let w = s.write(cap_index, location, &v);
        match w {
            Ok(_) => {
                proof {
                    assert(s.raw(slot_addr(location@, 0)) == self.slots_view()[0]);
                }
                Ok(())
            },
            Err(e) => Err(e),
        }
    }

    fn clear(cap_index: u8, location: &Bytes32, s: &mut Storage) -> (r: Result<(), Error>) {
        let z = Bytes32::zero();
        proof {
            assert(slot_addr(location@, 0) =~= location@);
        }
        let w = s.write(cap_index, location, &z);
        match w {
            Ok(_) => Ok(()),
            Err(e) => Err(e),
        }
    }

    fn read(location: &Bytes32, s: &Storage) -> (r: Option<Self>) {
        proof {
            assert(slot_addr(location@, 0) =~= location@);
            s.lemma_raw_wf(location@);
        }
        let cell = s.read(location);
        let ghost slots = Seq::new(1, |j: int| s.raw(slot_addr(location@, j)));
        proof {
            assert(slots[0] == cell@);
        }
        if cell.all_zero_range(0, 31) {
            let b = cell.byte_at(31);
            proof {
                lemma_u8_enc_shape(b);
                assert(b.slots_view()[0] =~= cell@);
                assert(b.slots_view() =~~= slots);
            }
            Some(b)
        } else {
            None
        }
    }

    fn read_vec_u256(vals: Vec<Bytes32>) -> (r: Option<Self>) {
        if vals.len() < 1 {
            None
        } else {
            let cell = &vals[0];
            let ghost slots = Seq::new(1, |j: int| vals@[j]@);
            proof {
                assert(slots[0] == cell@);
            }
            if cell.all_zero_range(0, 31) {
                let b = cell.byte_at(31);
                proof {
                    lemma_u8_enc_shape(b);
                    assert(b.slots_view()[0] =~= cell@);
                    assert(b.slots_view() =~~= slots);
                }
                Some(b)
            } else {
                None
            }
        }
    }
}

/// One-byte values are determined by their cell encoding: together with the
/// map's lookup contract, a lookup right after an insertion returns the
/// inserted value itself, not merely an equal encoding.
pub proof fn lemma_u8_slots_injective(a: u8, b: u8)
    requires
        a.slots_view() == b.slots_view(),
    ensures
        a == b,
{
    lemma_u8_enc_shape(a);
    lemma_u8_enc_shape(b);
    assert(a.slots_view()[0] == b.slots_view()[0]);
    assert(a.slots_view()[0][31] == a);
    assert(b.slots_view()[0][31] == b);
}

/// A one-byte value's cell encoding is its byte in the last position and
/// zeros elsewhere.
proof fn lemma_u8_enc_shape(b: u8)
    ensures
        be_enc(b as nat, 32).len() == 32,
        forall|i: int| 0 <= i < 31 ==> be_enc(b as nat, 32)[i] == 0,
        be_enc(b as nat, 32)[31] == b,
{
    lemma_be_enc_len(b as nat, 32);
    lemma_be_enc_split(b as nat, 32, 1);
    lemma2_to64();
    assert((b as nat) / pow2(8) == 0);
    lemma_be_enc_zero(31);
    lemma_be_enc_len(b as nat, 1);
    assert(be_enc(b as nat, 1) =~= seq![(b as nat % 256) as u8]);
    assert(be_enc(b as nat, 32) =~= be_enc(0, 31) + be_enc(b as nat, 1));
    assert(be_enc(b as nat, 32)[31] == b);
}

impl Storable for Bytes32 {
    open spec fn val_wf(&self) -> bool {
        self.wf()
    }

    open spec fn slots_view(&self) -> Seq<Seq<u8>> {
        seq![self@]
    }

    open spec fn spec_n_keys() -> u64 {
        1
    }

    open spec fn accepts(slots: Seq<Seq<u8>>) -> bool {
        slots.len() >= 1 && slots[0].len() == 32
    }

    proof fn n_keys_facts() {
    }

    proof fn slots_facts(&self) {
    }

    proof fn encode_accepted(&self) {
    }

    fn n_keys() -> (r: u64) {
        1
    }

    fn store(&self, cap_index: u8, location: &Bytes32, s: &mut Storage) -> (r: Result<
        (),
        Error,
    >) {
        proof {
            assert(slot_addr(location@, 0) =~= location@);
        }
        let w = s.write(cap_index, location, self);
        match w {
            Ok(_) => Ok(()),
            Err(e) => Err(e),
        }
    }

    fn clear(cap_index: u8, location: &Bytes32, s: &mut Storage) -> (r: Result<(), Error>) {
        let z = Bytes32::zero();
        proof {
            assert(slot_addr(location@, 0) =~= location@);
        }
        let w = s.write(cap_index, location, &z);
        match w {
            Ok(_) => Ok(()),
            Err(e) => Err(e),
        }
    }

    fn read(location: &Bytes32, s: &Storage) -> (r: Option<Self>) {
        proof {
            assert(slot_addr(location@, 0) =~= location@);
            s.lemma_raw_wf(location@);
        }
        let cell = s.read(location);
        proof {
            assert(cell.slots_view() =~~= Seq::new(
                1,
                |j: int| s.raw(slot_addr(location@, j)),
            ));
        }
        Some(cell)
    }

    fn read_vec_u256(vals: Vec<Bytes32>) -> (r: Option<Self>) {
        if vals.len() < 1 {
            None
        } else {
            let cell = vals[0].clone();
            proof {
                assert(cell.slots_view() =~~= Seq::new(1, |j: int| vals@[j]@));
            }
            Some(cell)
        }
    }
}

} // verus!
