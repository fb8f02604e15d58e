//! Address derivation for an enumerable map.
//!
//! All sub-structures of one map live at addresses derived from the map's
//! base location and the key width `w`: the value slot and presence flag of a
//! key replace the last `w + 1` bytes of the location, the length counter
//! sets one bit just above them, and the enumeration log occupies the
//! addresses right after the length counter.  The lemmas here show that the
//! alignment rule keeps all these addresses pairwise distinct.

use vstd::prelude::*;

verus! {

use vstd::arithmetic::power2::*;
use vstd::arithmetic::div_mod::*;
use vstd::arithmetic::mul::*;
use crate::bytes::be_val;
use crate::bytes::be_enc;
use crate::bytes::lemma_be_val_split;
use crate::bytes::lemma_be_val_bound;
use crate::bytes::lemma_be_val_concat;
use crate::bytes::lemma_be_val_zero_iff;
use crate::bytes::lemma_be_val_of_enc;
use crate::bytes::lemma_be_enc_len;
use crate::data::slot_addr;

/// The value-slot base address of a key: the location with its last
/// `w + 1` bytes replaced by the key's encoding followed by a zero data byte.
pub open spec fn value_slot_addr(loc: Seq<u8>, kv: Seq<u8>) -> Seq<u8> {
    loc.take(31 - kv.len()) + kv + seq![0u8]
}

/// The presence-flag address of a key: the value-slot address with the top
/// bit of its final byte set.
pub open spec fn presence_slot_addr(loc: Seq<u8>, kv: Seq<u8>) -> Seq<u8> {
    loc.take(31 - kv.len()) + kv + seq![0x80u8]
}

/// The length-counter address: the location with the low bit of byte
/// `31 - 1 - w` set.
pub open spec fn length_slot_addr(loc: Seq<u8>, w: int) -> Seq<u8> {
    loc.update(30 - w, loc[30 - w] | 1)
}

/// The enumeration-log address of index `i`: the length-counter address plus
/// `i + 1`, which under the alignment rule is its prefix followed by the
/// `w + 1`-byte encoding of `i + 1`.
pub open spec fn log_slot_addr(loc: Seq<u8>, w: int, i: int) -> Seq<u8> {
    length_slot_addr(loc, w).take(31 - w) + be_enc((i + 1) as nat, (w + 1) as nat)
}

/// The alignment rule: the location has at least `8(w+1) + 2` trailing zero
/// bits.
pub open spec fn aligned_loc(loc: Seq<u8>, w: int) -> bool {
    be_val(loc) % pow2((8 * (w + 1) + 2) as nat) == 0
}

/// The byte-level consequences of the alignment rule that the derivation
/// lemmas use.
pub open spec fn loc_bytes_ok(loc: Seq<u8>, w: int) -> bool {
    &&& loc.len() == 32
    &&& 1 <= w <= 30
    &&& forall|i: int| 31 - w <= i < 32 ==> loc[i] == 0
    &&& loc[30 - w] % 4 == 0
}

/// Alignment is exactly: the last `w + 1` bytes are zero and the two bits
/// above them are zero.
pub proof fn lemma_aligned_bytes(loc: Seq<u8>, w: int)
    requires
        loc.len() == 32,
        1 <= w <= 30,
    ensures
        aligned_loc(loc, w) <==> ((forall|i: int| 31 - w <= i < 32 ==> loc[i] == 0) && loc[30
            - w] % 4 == 0),
{
    let x = pow2((8 * (w + 1)) as nat);
    let p = pow2((8 * (w + 1) + 2) as nat);
    let tail = loc.skip(31 - w);
    let c = loc[30 - w];
    let a = be_val(loc.take(30 - w));
    let t = be_val(tail);
    lemma_be_val_split(loc, 30 - w);
    assert(loc.skip(30 - w) =~= seq![c] + tail);
    lemma_be_val_concat(seq![c], tail);
    assert(seq![c].drop_last() =~= Seq::<u8>::empty());
    assert(be_val(Seq::<u8>::empty()) == 0);
    assert(seq![c].last() == c);
    assert(be_val(seq![c]) == c as nat);
    lemma_be_val_bound(tail);
    lemma2_to64();
    lemma_pow2_adds((8 * (w + 1)) as nat, 2);
    lemma_pow2_adds((8 * (w + 1) + 2) as nat, 6);
    lemma_pow2_pos((8 * (w + 1)) as nat);
    // be_val(loc) == a * (p * 64) + (c * x + t)
    assert(8 * (32 - (30 - w)) == 8 * (w + 2));
    assert(pow2((8 * (w + 2)) as nat) == p * pow2(6));
    assert(be_val(loc) == a * (p * pow2(6)) + ((c as nat) * x + t));
    lemma_fundamental_div_mod(c as int, 4);
    let q = c as nat / 4;
    let r = c as nat % 4;
    assert((c as nat) * x == (4 * q + r) * x);
    assert((4 * q + r) * x == q * (4 * x) + r * x) by (nonlinear_arith);
    assert(4 * x == p);
    assert(a * (p * pow2(6)) == (a * pow2(6)) * p) by (nonlinear_arith);
    assert(be_val(loc) == (a * pow2(6)) * p + q * p + (r * x + t));
    assert((a * pow2(6)) * p + q * p == (a * pow2(6) + q) * p) by (nonlinear_arith);
    assert(r * x <= 3 * x) by {
        lemma_mul_inequality(r as int, 3, x as int);
    }
    assert(r * x + t < p);
    lemma_fundamental_div_mod_converse(
        be_val(loc) as int,
        p as int,
        (a * pow2(6) + q) as int,
        (r * x + t) as int,
    );
    assert(be_val(loc) % p == r * x + t);
    lemma_be_val_zero_iff(tail);
    assert(forall|k: int| 0 <= k < tail.len() ==> tail[k] == loc[31 - w + k]);
    if r == 0 && t == 0 {
        assert(be_val(loc) % p == 0);
        assert(forall|i: int| 31 - w <= i < 32 ==> loc[i] == tail[i - (31 - w)]);
    }
    if be_val(loc) % p == 0 {
        assert(r * x + t == 0);
        assert(r * x >= 0);
        if r != 0 {
            assert(r * x >= 1 * x) by {
                lemma_mul_inequality(1, r as int, x as int);
            }
            assert(false);
        }
        assert(t == 0);
    }
}

/// The region size covers the whole key space iff some byte above the low
/// `w + 1` bytes is non-zero.
pub proof fn lemma_size_bytes(size: Seq<u8>, w: int)
    requires
        size.len() == 32,
        1 <= w <= 30,
    ensures
        (be_val(size) < pow2((8 * (w + 1)) as nat)) <==> (forall|i: int|
            0 <= i < 31 - w ==> size[i] == 0),
{
    let x = pow2((8 * (w + 1)) as nat);
    lemma_be_val_split(size, 31 - w);
    let a = be_val(size.take(31 - w));
    let t = be_val(size.skip(31 - w));
    lemma_be_val_bound(size.skip(31 - w));
    assert(8 * (32 - (31 - w)) == 8 * (w + 1));
    assert(be_val(size) == a * x + t);
    lemma_be_val_zero_iff(size.take(31 - w));
    assert(forall|k: int| 0 <= k < 31 - w ==> size.take(31 - w)[k] == size[k]);
    if a == 0 {
        assert(be_val(size) == t);
    } else {
        assert(a * x >= 1 * x) by {
            lemma_mul_inequality(1, a as int, x as int);
        }
    }
}

/// Both key-derived cell kinds have this common shape.
pub proof fn lemma_key_slot_indices(loc: Seq<u8>, kv: Seq<u8>, last: u8)
    requires
        loc.len() == 32,
        kv.len() <= 31,
    ensures
        (loc.take(31 - kv.len()) + kv + seq![last]).len() == 32,
        forall|i: int|
            0 <= i < 31 - kv.len() ==> (loc.take(31 - kv.len()) + kv + seq![last])[i] == loc[i],
        forall|t: int|
            0 <= t < kv.len() ==> (loc.take(31 - kv.len()) + kv + seq![last])[31 - kv.len() + t]
                == kv[t],
        (loc.take(31 - kv.len()) + kv + seq![last])[31] == last,
{
}

/// A sequence inequality follows from a differing index.
proof fn lemma_ne_at(a: Seq<u8>, b: Seq<u8>, i: int)
    requires
        0 <= i < a.len(),
        0 <= i < b.len(),
        a[i] != b[i],
    ensures
        a != b,
{
    if a == b {
        assert(a[i] == b[i]);
    }
}

/// Distinct equal-length key encodings differ at some index.
proof fn lemma_key_diff_index(kv: Seq<u8>, kv2: Seq<u8>) -> (t: int)
    requires
        kv.len() == kv2.len(),
        kv != kv2,
    ensures
        0 <= t < kv.len(),
        kv[t] != kv2[t],
{
    assert(exists|u: int| 0 <= u < kv.len() && kv[u] != kv2[u]) by {
        if forall|u: int| 0 <= u < kv.len() ==> kv[u] == kv2[u] {
            assert(kv =~= kv2);
        }
    }
    choose|u: int| 0 <= u < kv.len() && kv[u] != kv2[u]
}

/// The enumeration-log derivation is integer arithmetic over the flat
/// address space: the log cell of index `i` sits exactly `i + 1` addresses
/// after the length counter.
pub proof fn lemma_log_slot_value(loc: Seq<u8>, w: int, i: int)
    requires
        loc_bytes_ok(loc, w),
        0 <= i,
        i + 1 < pow2((8 * (w + 1)) as nat),
    ensures
        be_val(log_slot_addr(loc, w, i)) == be_val(length_slot_addr(loc, w)) + i + 1,
{
    let l = length_slot_addr(loc, w);
    let g = log_slot_addr(loc, w, i);
    lemma_be_enc_len((i + 1) as nat, (w + 1) as nat);
    lemma_be_val_split(l, 31 - w);
    lemma_be_val_split(g, 31 - w);
    assert(g.take(31 - w) =~= l.take(31 - w));
    assert(g.skip(31 - w) =~= be_enc((i + 1) as nat, (w + 1) as nat));
    lemma_be_val_of_enc((i + 1) as nat, (w + 1) as nat);
    assert(l.skip(31 - w) =~= loc.skip(31 - w));
    lemma_be_val_zero_iff(loc.skip(31 - w));
    assert(forall|k: int|
        0 <= k < w + 1 ==> #[trigger] loc.skip(31 - w)[k] == loc[31 - w + k]);
    assert(be_val(l.skip(31 - w)) == 0);
}

/// Every cell derived from a key lies in the key-space window of
/// `2^(8(w+1))` addresses starting at the base location: the window whose
/// size the construction-time check demands of the authorized region.
pub proof fn lemma_key_slot_in_region(loc: Seq<u8>, w: int, kv: Seq<u8>, last: u8)
    requires
        loc_bytes_ok(loc, w),
        kv.len() == w,
    ensures
        be_val(loc) <= be_val(loc.take(31 - w) + kv + seq![last]),
        be_val(loc.take(31 - w) + kv + seq![last]) < be_val(loc) + pow2((8 * (w + 1)) as nat),
{
    let a = loc.take(31 - w) + kv + seq![last];
    lemma_key_slot_indices(loc, kv, last);
    lemma_be_val_split(a, 31 - w);
    lemma_be_val_split(loc, 31 - w);
    assert(a.take(31 - w) =~= loc.take(31 - w));
    lemma_be_val_bound(a.skip(31 - w));
    assert(8 * (32 - (31 - w)) == 8 * (w + 1));
    lemma_be_val_zero_iff(loc.skip(31 - w));
    assert(forall|k: int|
        0 <= k < w + 1 ==> #[trigger] loc.skip(31 - w)[k] == loc[31 - w + k]);
    assert(be_val(loc.skip(31 - w)) == 0);
}

/// A presence flag never collides with any value cell, whatever the keys.
pub proof fn lemma_presence_ne_value(loc: Seq<u8>, w: int, kv: Seq<u8>, kv2: Seq<u8>, j: int)
    requires
        loc.len() == 32,
        1 <= w <= 30,
        kv.len() == w,
        kv2.len() == w,
        0 <= j < 128,
    ensures
        presence_slot_addr(loc, kv) != slot_addr(value_slot_addr(loc, kv2), j),
{
    lemma_key_slot_indices(loc, kv, 0x80);
    lemma_key_slot_indices(loc, kv2, 0);
    let p = presence_slot_addr(loc, kv);
    let v = slot_addr(value_slot_addr(loc, kv2), j);
    assert(p[31] == 0x80);
    assert(v[31] == j as u8);
    lemma_ne_at(p, v, 31);
}

/// A presence flag never collides with any cell of a value span.
pub proof fn lemma_presence_ne_value_all(loc: Seq<u8>, w: int, kvp: Seq<u8>, kvv: Seq<u8>)
    requires
        loc.len() == 32,
        1 <= w <= 30,
        kvp.len() == w,
        kvv.len() == w,
    ensures
        forall|j: int|
            0 <= j < 128 ==> presence_slot_addr(loc, kvp) != #[trigger] slot_addr(
                value_slot_addr(loc, kvv),
                j,
            ),
{
    assert forall|j: int|
        0 <= j < 128 implies presence_slot_addr(loc, kvp) != #[trigger] slot_addr(
        value_slot_addr(loc, kvv),
        j,
    ) by {
        lemma_presence_ne_value(loc, w, kvp, kvv, j);
    }
}

/// A log cell never collides with a presence flag or any value cell.
pub proof fn lemma_log_ne_key_slots_all(loc: Seq<u8>, w: int, i: int, kv: Seq<u8>)
    requires
        loc_bytes_ok(loc, w),
        kv.len() == w,
        0 <= i,
    ensures
        log_slot_addr(loc, w, i) != presence_slot_addr(loc, kv),
        forall|j: int|
            0 <= j < 128 ==> log_slot_addr(loc, w, i) != #[trigger] slot_addr(
                value_slot_addr(loc, kv),
                j,
            ),
{
    lemma_log_ne_key_slots(loc, w, i, kv, 0);
    assert forall|j: int|
        0 <= j < 128 implies log_slot_addr(loc, w, i) != #[trigger] slot_addr(
        value_slot_addr(loc, kv),
        j,
    ) by {
        lemma_log_ne_key_slots(loc, w, i, kv, j);
    }
}

/// Presence flags of distinct keys are distinct.
pub proof fn lemma_presence_injective(loc: Seq<u8>, w: int, kv: Seq<u8>, kv2: Seq<u8>)
    requires
        loc.len() == 32,
        1 <= w <= 30,
        kv.len() == w,
        kv2.len() == w,
        kv != kv2,
    ensures
        presence_slot_addr(loc, kv) != presence_slot_addr(loc, kv2),
{
    lemma_key_slot_indices(loc, kv, 0x80);
    lemma_key_slot_indices(loc, kv2, 0x80);
    let t = lemma_key_diff_index(kv, kv2);
    lemma_ne_at(presence_slot_addr(loc, kv), presence_slot_addr(loc, kv2), 31 - w + t);
}

/// Value cells of distinct keys, or distinct cells of one key, are distinct.
pub proof fn lemma_value_ne_value(loc: Seq<u8>, w: int, kv: Seq<u8>, kv2: Seq<u8>, j: int, j2: int)
    requires
        loc.len() == 32,
        1 <= w <= 30,
        kv.len() == w,
        kv2.len() == w,
        0 <= j < 128,
        0 <= j2 < 128,
        kv != kv2 || j != j2,
    ensures
        slot_addr(value_slot_addr(loc, kv), j) != slot_addr(value_slot_addr(loc, kv2), j2),
{
    lemma_key_slot_indices(loc, kv, 0);
    lemma_key_slot_indices(loc, kv2, 0);
    let a = slot_addr(value_slot_addr(loc, kv), j);
    let b = slot_addr(value_slot_addr(loc, kv2), j2);
    if j != j2 {
        assert(a[31] == j as u8);
        assert(b[31] == j2 as u8);
        lemma_ne_at(a, b, 31);
    } else {
        let t = lemma_key_diff_index(kv, kv2);
        assert(a[31 - w + t] == kv[t]);
        assert(b[31 - w + t] == kv2[t]);
        lemma_ne_at(a, b, 31 - w + t);
    }
}

/// The length counter never collides with a presence flag or a value cell.
pub proof fn lemma_length_ne_key_slots(loc: Seq<u8>, w: int, kv: Seq<u8>, j: int)
    requires
        loc_bytes_ok(loc, w),
        kv.len() == w,
        0 <= j < 128,
    ensures
        length_slot_addr(loc, w) != presence_slot_addr(loc, kv),
        length_slot_addr(loc, w) != slot_addr(value_slot_addr(loc, kv), j),
{
    lemma_key_slot_indices(loc, kv, 0x80);
    lemma_key_slot_indices(loc, kv, 0);
    let c = loc[30 - w];
    assert((c | 1) != c) by (bit_vector)
        requires
            c % 4 == 0,
    ;
    let l = length_slot_addr(loc, w);
    assert(l[30 - w] == (c | 1));
    assert(presence_slot_addr(loc, kv)[30 - w] == c);
    assert(slot_addr(value_slot_addr(loc, kv), j)[30 - w] == c);
    lemma_ne_at(l, presence_slot_addr(loc, kv), 30 - w);
    lemma_ne_at(l, slot_addr(value_slot_addr(loc, kv), j), 30 - w);
}

/// A log cell never collides with a presence flag or a value cell.
pub proof fn lemma_log_ne_key_slots(loc: Seq<u8>, w: int, i: int, kv: Seq<u8>, j: int)
    requires
        loc_bytes_ok(loc, w),
        kv.len() == w,
        0 <= j < 128,
        0 <= i,
    ensures
        log_slot_addr(loc, w, i) != presence_slot_addr(loc, kv),
        log_slot_addr(loc, w, i) != slot_addr(value_slot_addr(loc, kv), j),
{
    lemma_key_slot_indices(loc, kv, 0x80);
    lemma_key_slot_indices(loc, kv, 0);
    lemma_be_enc_len((i + 1) as nat, (w + 1) as nat);
    let c = loc[30 - w];
    assert((c | 1) != c) by (bit_vector)
        requires
            c % 4 == 0,
    ;
    let g = log_slot_addr(loc, w, i);
    assert(g[30 - w] == length_slot_addr(loc, w)[30 - w]);
    assert(g[30 - w] == (c | 1));
    lemma_ne_at(g, presence_slot_addr(loc, kv), 30 - w);
    lemma_ne_at(g, slot_addr(value_slot_addr(loc, kv), j), 30 - w);
}

/// A log cell never collides with the length counter.
pub proof fn lemma_log_ne_length(loc: Seq<u8>, w: int, i: int)
    requires
        loc_bytes_ok(loc, w),
        0 <= i,
        i + 1 < pow2((8 * (w + 1)) as nat),
    ensures
        log_slot_addr(loc, w, i) != length_slot_addr(loc, w),
{
    let g = log_slot_addr(loc, w, i);
    let l = length_slot_addr(loc, w);
    lemma_be_enc_len((i + 1) as nat, (w + 1) as nat);
    assert(g.skip(31 - w) =~= be_enc((i + 1) as nat, (w + 1) as nat));
    lemma_be_val_of_enc((i + 1) as nat, (w + 1) as nat);
    if g == l {
        assert(l.skip(31 - w) =~= loc.skip(31 - w));
        lemma_be_val_zero_iff(loc.skip(31 - w));
        assert(forall|k: int| 0 <= k < w + 1 ==> #[trigger] loc.skip(31 - w)[k] == loc[31 - w
            + k]);
        assert(be_val(l.skip(31 - w)) == 0);
        assert(g.skip(31 - w) == l.skip(31 - w));
        assert(false);
    }
}

/// Log cells of distinct indices are distinct.
pub proof fn lemma_log_injective(loc: Seq<u8>, w: int, i: int, i2: int)
    requires
        loc_bytes_ok(loc, w),
        0 <= i,
        0 <= i2,
        i + 1 < pow2((8 * (w + 1)) as nat),
        i2 + 1 < pow2((8 * (w + 1)) as nat),
        i != i2,
    ensures
        log_slot_addr(loc, w, i) != log_slot_addr(loc, w, i2),
{
    let g = log_slot_addr(loc, w, i);
    let g2 = log_slot_addr(loc, w, i2);
    lemma_be_enc_len((i + 1) as nat, (w + 1) as nat);
    lemma_be_enc_len((i2 + 1) as nat, (w + 1) as nat);
    lemma_be_val_of_enc((i + 1) as nat, (w + 1) as nat);
    lemma_be_val_of_enc((i2 + 1) as nat, (w + 1) as nat);
    if g == g2 {
        assert(g.skip(31 - w) =~= be_enc((i + 1) as nat, (w + 1) as nat));
        assert(g2.skip(31 - w) =~= be_enc((i2 + 1) as nat, (w + 1) as nat));
        assert(g.skip(31 - w) == g2.skip(31 - w));
        assert(false);
    }
}

} // verus!
