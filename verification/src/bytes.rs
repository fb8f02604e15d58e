//! Fixed-width 256-bit words, viewed as big-endian byte strings.
//!
//! Storage addresses and storage cell contents are both 32-byte strings.  The
//! numeric meaning of such a string is given by [`be_val`]; [`be_enc`] is the
//! converse encoding.  [`Bytes32`] is the executable word type.

use vstd::prelude::*;

verus! {

use vstd::arithmetic::power2::*;
use vstd::arithmetic::div_mod::*;
use vstd::arithmetic::mul::*;

/// The natural number a big-endian byte string denotes.
pub open spec fn be_val(s: Seq<u8>) -> nat
    decreases s.len(),
{
    if s.len() == 0 {
        0
    } else {
        be_val(s.drop_last()) * 256 + (s.last() as nat)
    }
}

/// The `m`-byte big-endian encoding of `n` (of `n % 2^(8m)` when `n` does not
/// fit in `m` bytes).
pub open spec fn be_enc(n: nat, m: nat) -> Seq<u8>
    decreases m,
{
    if m == 0 {
        Seq::empty()
    } else {
        be_enc(n / 256, (m - 1) as nat).push((n % 256) as u8)
    }
}

/// The all-zero 32-byte string: the content of every unwritten storage cell.
pub open spec fn zero32() -> Seq<u8> {
    Seq::new(32, |i: int| 0u8)
}

pub proof fn lemma_be_val_bound(s: Seq<u8>)
    ensures
        be_val(s) < pow2(8 * s.len()),
    decreases s.len(),
{
    if s.len() == 0 {
        lemma2_to64();
    } else {
        let d = s.drop_last();
        lemma_be_val_bound(d);
        lemma_pow2_adds(8 * d.len(), 8);
        lemma2_to64();
        assert(be_val(d) * 256 <= (pow2(8 * d.len()) - 1) * 256) by {
            lemma_mul_inequality(be_val(d) as int, pow2(8 * d.len()) - 1, 256);
        }
        assert((pow2(8 * d.len()) - 1) * 256 == pow2(8 * d.len()) * 256 - 256) by (nonlinear_arith);
        assert(pow2(8 * s.len()) == pow2(8 * d.len()) * 256);
    }
}

pub proof fn lemma_be_val_concat(a: Seq<u8>, b: Seq<u8>)
    ensures
        be_val(a + b) == be_val(a) * pow2(8 * b.len()) + be_val(b),
    decreases b.len(),
{
    if b.len() == 0 {
        assert(a + b =~= a);
        lemma2_to64();
        assert(be_val(b) == 0);
        assert(pow2(8 * b.len()) == 1);
        assert(be_val(a) * 1 == be_val(a));
        assert(be_val(a + b) == be_val(a));
    } else {
        let d = b.drop_last();
        lemma_be_val_concat(a, d);
        assert((a + b).drop_last() =~= a + d);
        assert((a + b).last() == b.last());
        lemma_pow2_adds(8 * d.len(), 8);
        lemma2_to64();
        assert(pow2(8 * b.len()) == pow2(8 * d.len()) * 256);
        assert((be_val(a) * pow2(8 * d.len()) + be_val(d)) * 256
            == be_val(a) * (pow2(8 * d.len()) * 256) + be_val(d) * 256) by (nonlinear_arith);
        assert(be_val(a + b) == be_val((a + b).drop_last()) * 256 + ((a + b).last() as nat));
        assert(be_val((a + b).drop_last()) == be_val(a) * pow2(8 * d.len()) + be_val(d));
        assert(be_val(a + b) == (be_val(a) * pow2(8 * d.len()) + be_val(d)) * 256 + (
        b.last() as nat));
        assert(be_val(a) * (pow2(8 * d.len()) * 256) == be_val(a) * pow2(8 * b.len()));
        assert(be_val(b) == be_val(d) * 256 + (b.last() as nat));
        assert(be_val(a + b) == be_val(a) * (pow2(8 * d.len()) * 256) + (be_val(d) * 256 + (
        b.last() as nat)));
        assert(be_val(a + b) == be_val(a) * pow2(8 * b.len()) + be_val(b));
    }
}

pub proof fn lemma_be_val_split(s: Seq<u8>, i: int)
    requires
        0 <= i <= s.len(),
    ensures
        be_val(s) == be_val(s.take(i)) * pow2(8 * (s.len() - i) as nat) + be_val(s.skip(i)),
{
    assert(s =~= s.take(i) + s.skip(i));
    lemma_be_val_concat(s.take(i), s.skip(i));
}

pub proof fn lemma_be_enc_len(n: nat, m: nat)
    ensures
        be_enc(n, m).len() == m,
    decreases m,
{
    if m > 0 {
        lemma_be_enc_len(n / 256, (m - 1) as nat);
    }
}

/// Encoding then evaluating is the identity on numbers that fit.
pub proof fn lemma_be_val_of_enc(n: nat, m: nat)
    requires
        n < pow2(8 * m),
    ensures
        be_val(be_enc(n, m)) == n,
    decreases m,
{
    if m == 0 {
        lemma2_to64();
    } else {
        let m1 = (m - 1) as nat;
        lemma_pow2_adds(8 * m1, 8);
        lemma2_to64();
        lemma_pow2_pos(8 * m1);
        assert(n / 256 < pow2(8 * m1)) by (nonlinear_arith)
            requires
                n < pow2(8 * m1) * 256,
                pow2(8 * m1) > 0,
        ;
        lemma_be_val_of_enc(n / 256, m1);
        let e = be_enc(n, m);
        assert(e.drop_last() =~= be_enc(n / 256, m1));
        assert(e.last() == (n % 256) as u8);
        lemma_fundamental_div_mod(n as int, 256);
    }
}

/// Evaluating then re-encoding is the identity on byte strings.
pub proof fn lemma_be_enc_of_val(s: Seq<u8>)
    ensures
        be_enc(be_val(s), s.len()) =~= s,
    decreases s.len(),
{
    if s.len() > 0 {
        let d = s.drop_last();
        let v = be_val(s);
        lemma_fundamental_div_mod_converse(v as int, 256, be_val(d) as int, s.last() as int);
        lemma_be_enc_of_val(d);
        assert(be_enc(v, s.len()) =~= be_enc(be_val(d), d.len()).push(s.last()));
        assert(d.push(s.last()) =~= s);
    }
}

pub proof fn lemma_be_val_zero_iff(s: Seq<u8>)
    ensures
        (be_val(s) == 0) <==> (forall|i: int| 0 <= i < s.len() ==> s[i] == 0),
    decreases s.len(),
{
    if s.len() > 0 {
        let d = s.drop_last();
        lemma_be_val_zero_iff(d);
        assert(forall|i: int| 0 <= i < d.len() ==> d[i] == s[i]);
        if be_val(s) == 0 {
            assert(be_val(d) * 256 >= 0);
        }
        if forall|i: int| 0 <= i < s.len() ==> s[i] == 0 {
            assert(be_val(d) == 0);
        }
    }
}

/// Unfolding a big-endian encoding at its most significant byte.
pub proof fn lemma_be_enc_head(n: nat, m: nat)
    requires
        m >= 1,
    ensures
        be_enc(n, m) =~= seq![((n / pow2(8 * (m - 1) as nat)) % 256) as u8] + be_enc(
            n,
            (m - 1) as nat,
        ),
    decreases m,
{
    lemma_be_enc_len(n, m);
    if m == 1 {
        lemma2_to64();
        assert(be_enc(n, 1) =~= seq![(n % 256) as u8]);
        assert(n / pow2(0) == n) by {
            lemma2_to64();
        }
    } else {
        let m1 = (m - 1) as nat;
        let m2 = (m - 2) as nat;
        lemma_be_enc_head(n / 256, m1);
        lemma_pow2_adds(8, 8 * m2);
        lemma2_to64();
        assert((n / 256) / pow2(8 * m2) == n / pow2(8 * m1)) by {
            lemma_pow2_pos(8 * m2);
            lemma_div_denominator(n as int, 256, pow2(8 * m2) as int);
            assert(256 * pow2(8 * m2) == pow2(8) * pow2(8 * m2));
        }
        assert(be_enc(n, m) =~= be_enc(n / 256, m1).push((n % 256) as u8));
        assert(be_enc(n / 256, m1).push((n % 256) as u8) =~= (seq![
            ((n / pow2(8 * m1)) % 256) as u8,
        ] + be_enc(n / 256, m2)).push((n % 256) as u8));
        assert((seq![((n / pow2(8 * m1)) % 256) as u8] + be_enc(n / 256, m2)).push(
            (n % 256) as u8,
        ) =~= seq![((n / pow2(8 * m1)) % 256) as u8] + be_enc(n / 256, m2).push((n % 256) as u8));
    }
}

/// Splitting an encoding into its high and low bytes.
pub proof fn lemma_be_enc_split(n: nat, m: nat, k: nat)
    requires
        k <= m,
    ensures
        be_enc(n, m) =~= be_enc(n / pow2(8 * k), (m - k) as nat) + be_enc(n, k),
    decreases k,
{
    if k == 0 {
        lemma2_to64();
        assert(n / pow2(0) == n) by {
            lemma2_to64();
        }
        assert(be_enc(n, 0) =~= Seq::<u8>::empty());
        assert(be_enc(n, m) + Seq::<u8>::empty() =~= be_enc(n, m));
    } else {
        let k1 = (k - 1) as nat;
        lemma_be_enc_split(n / 256, (m - 1) as nat, k1);
        lemma_pow2_adds(8, 8 * k1);
        lemma2_to64();
        assert((n / 256) / pow2(8 * k1) == n / pow2(8 * k)) by {
            lemma_pow2_pos(8 * k1);
            lemma_div_denominator(n as int, 256, pow2(8 * k1) as int);
            assert(256 * pow2(8 * k1) == pow2(8) * pow2(8 * k1));
        }
        assert(be_enc(n, m) =~= be_enc(n / 256, (m - 1) as nat).push((n % 256) as u8));
        assert(be_enc(n, k) =~= be_enc(n / 256, k1).push((n % 256) as u8));
        assert((be_enc(n / pow2(8 * k), (m - k) as nat) + be_enc(n / 256, k1)).push(
            (n % 256) as u8,
        ) =~= be_enc(n / pow2(8 * k), (m - k) as nat) + be_enc(n / 256, k1).push((n % 256) as u8));
    }
}

pub proof fn lemma_be_enc_zero(m: nat)
    ensures
        be_enc(0, m) =~= Seq::new(m, |i: int| 0u8),
    decreases m,
{
    if m > 0 {
        lemma_be_enc_zero((m - 1) as nat);
        lemma_be_enc_len(0, (m - 1) as nat);
        assert(be_enc(0, m) =~= be_enc(0, (m - 1) as nat).push(0u8));
    }
}

/// The zero cell denotes zero: what an unwritten counter reads as.
pub proof fn lemma_zero32_val()
    ensures
        be_val(zero32()) == 0,
{
    lemma_be_val_zero_iff(zero32());
}

/// A 256-bit word: a storage address, or the content of one storage cell.
pub struct Bytes32 {
    bytes: Vec<u8>,
}

impl View for Bytes32 {
    type V = Seq<u8>;

    closed spec fn view(&self) -> Seq<u8> {
        self.bytes@
    }
}

impl Clone for Bytes32 {
    fn clone(&self) -> (r: Self)
        ensures
            r@ == self@,
    {
        let mut v: Vec<u8> = Vec::new();
        let mut i: usize = 0;
        while i < self.bytes.len()
            invariant
                i <= self.bytes@.len(),
                v@ =~= self.bytes@.take(i as int),
            decreases self.bytes@.len() - i,
        {
            v.push(self.bytes[i]);
            assert(v@ =~= self.bytes@.take(i + 1));
            i = i + 1;
        }
        assert(v@ =~= self.bytes@);
        Bytes32 { bytes: v }
    }
}

impl Bytes32 {
    pub open spec fn wf(&self) -> bool {
        self@.len() == 32
    }

    /// The word whose every byte is `b`.
    pub fn repeat_byte(b: u8) -> (r: Bytes32)
        ensures
            r.wf(),
            r@ == Seq::new(32, |i: int| b),
    {
        let mut v: Vec<u8> = Vec::new();
        let mut i: usize = 0;
        while i < 32
            invariant
                i <= 32,
                v@.len() == i,
                forall|j: int| 0 <= j < i ==> v@[j] == b,
            decreases 32 - i,
        {
            v.push(b);
            i = i + 1;
        }
        let r = Bytes32 { bytes: v };
        assert(r@ =~= Seq::new(32, |i: int| b));
        r
    }

    /// The zero word.
    pub fn zero() -> (r: Bytes32)
        ensures
            r.wf(),
            r@ == zero32(),
    {
        let r = Bytes32::repeat_byte(0);
        assert(r@ =~= zero32());
        r
    }

    pub fn from_bytes(v: Vec<u8>) -> (r: Bytes32)
        requires
            v@.len() == 32,
        ensures
            r.wf(),
            r@ == v@,
    {
        Bytes32 { bytes: v }
    }

    pub fn to_bytes(&self) -> (r: Vec<u8>)
        requires
            self.wf(),
        ensures
            r@ == self@,
    {
        let c = self.clone();
        c.bytes
    }

    pub fn byte_at(&self, i: usize) -> (r: u8)
        requires
            self.wf(),
            i < 32,
        ensures
            r == self@[i as int],
    {
        self.bytes[i]
    }

    /// A copy of this word with byte `i` replaced by `b`.
    pub fn with_byte(&self, i: usize, b: u8) -> (r: Bytes32)
        requires
            self.wf(),
            i < 32,
        ensures
            r.wf(),
            r@ == self@.update(i as int, b),
    {
        let mut v = self.to_bytes();
        v.set(i, b);
        Bytes32 { bytes: v }
    }

    pub fn eq_bytes(&self, other: &Bytes32) -> (r: bool)
        requires
            self.wf(),
            other.wf(),
        ensures
            r == (self@ == other@),
    {
        let mut i: usize = 0;
        while i < 32
            invariant
                i <= 32,
                self.wf(),
                other.wf(),
                forall|j: int| 0 <= j < i ==> self@[j] == other@[j],
            decreases 32 - i,
        {
            if self.bytes[i] != other.bytes[i] {
                return false;
            }
            i = i + 1;
        }
        proof {
            assert(self@ =~= other@);
        }
        true
    }

    /// True iff every byte in `from..to` is zero.
    pub fn all_zero_range(&self, from: usize, to: usize) -> (r: bool)
        requires
            self.wf(),
            from <= to <= 32,
        ensures
            r == (forall|i: int| from <= i < to ==> self@[i] == 0),
    {
        let mut i: usize = from;
        while i < to
            invariant
                from <= i <= to <= 32,
                self.wf(),
                forall|j: int| from <= j < i ==> self@[j] == 0,
            decreases to - i,
        {
            if self.bytes[i] != 0 {
                return false;
            }
            i = i + 1;
        }
        true
    }

    pub fn is_zero(&self) -> (r: bool)
        requires
            self.wf(),
        ensures
            r == (self@ == zero32()),
    {
        let r = self.all_zero_range(0, 32);
        proof {
            if r {
                assert(self@ =~= zero32());
            } else {
                assert(!(self@ == zero32()));
            }
        }
        r
    }

    /// A copy of this word whose last `m` bytes are replaced by the `m`-byte
    /// big-endian encoding of `n`.
    pub fn with_tail_u64(&self, m: usize, n: u64) -> (r: Bytes32)
        requires
            self.wf(),
            m <= 32,
        ensures
            r.wf(),
            r@ == self@.take(32 - m as int) + be_enc(n as nat, m as nat),
    {
        let mut v = self.to_bytes();
        let mut cur: u64 = n;
        let mut t: usize = 0;
        proof {
            lemma2_to64();
            assert(v@.skip(32 - 0) =~= be_enc(n as nat, 0));
            lemma_fundamental_div_mod_converse(n as int, 1, n as int, 0);
            assert(cur as nat == (n as nat) / pow2(0));
        }
        while t < m
            invariant
                t <= m <= 32,
                v@.len() == 32,
                self.wf(),
                v@.take(32 - t as int) == self@.take(32 - t as int),
                v@.skip(32 - t as int) == be_enc(n as nat, t as nat),
                cur as nat == (n as nat) / pow2(8 * t as nat),
            decreases m - t,
        {
            let b: u8 = (cur % 256) as u8;
            let ghost vold = v@;
            v.set(31 - t, b);
            proof {
                lemma2_to64();
                lemma_be_enc_head(n as nat, (t + 1) as nat);
                lemma_be_enc_len(n as nat, t as nat);
                assert(b == ((n as nat / pow2(8 * t as nat)) % 256) as u8);
                assert(v@.skip(31 - t as int) =~= seq![b] + vold.skip(32 - t as int));
                assert(v@.skip(31 - t as int) =~= be_enc(n as nat, (t + 1) as nat));
                assert(v@.take(31 - t as int) =~= self@.take(31 - t as int));
                // the next value of cur
                lemma_pow2_pos(8 * t as nat);
                lemma_div_denominator(n as int, pow2(8 * t as nat) as int, 256);
                lemma_pow2_adds(8 * t as nat, 8);
                assert(pow2(8 * t as nat) * 256 == pow2(8 * (t + 1) as nat));
            }
            cur = cur / 256;
            t = t + 1;
        }
        let r = Bytes32 { bytes: v };
        proof {
            assert(r@ =~= r@.take(32 - m as int) + r@.skip(32 - m as int));
        }
        r
    }

    /// The word whose value is `n`.
    pub fn from_u64(n: u64) -> (r: Bytes32)
        ensures
            r.wf(),
            r@ == be_enc(n as nat, 32),
            be_val(r@) == n,
    {
        let z = Bytes32::zero();
        let r = z.with_tail_u64(32, n);
        proof {
            assert(zero32().take(0) =~= Seq::<u8>::empty());
            assert(Seq::<u8>::empty() + be_enc(n as nat, 32) =~= be_enc(n as nat, 32));
            lemma2_to64();
            lemma_pow2_strictly_increases(64, 256);
            lemma_be_val_of_enc(n as nat, 32);
        }
        r
    }

    /// The value of this word, if it fits in a `u64`.
    pub fn try_to_u64(&self) -> (r: Option<u64>)
        requires
            self.wf(),
        ensures
            match r {
                Some(v) => v as nat == be_val(self@),
                None => be_val(self@) >= pow2(64),
            },
    {
        if !self.all_zero_range(0, 24) {
            proof {
                lemma_be_val_split(self@, 24);
                let t24 = self@.take(24);
                lemma_be_val_zero_iff(t24);
                assert(forall|i: int| 0 <= i < 24 ==> t24[i] == self@[i]);
                assert(exists|i: int| 0 <= i < 24 && self@[i] != 0);
                let w = choose|i: int| 0 <= i < 24 && self@[i] != 0;
                assert(t24[w] != 0);
                assert(!(forall|i: int| 0 <= i < t24.len() ==> t24[i] == 0));
                assert(be_val(self@.take(24)) >= 1);
                assert(8 * (self@.len() - 24) as nat == 64);
                assert(be_val(self@.take(24)) * pow2(64) >= 1 * pow2(64)) by {
                    lemma_mul_inequality(1, be_val(self@.take(24)) as int, pow2(64) as int);
                }
            }
            return None;
        }
        let mut acc: u64 = 0;
        let mut i: usize = 24;
        proof {
            assert(self@.subrange(24, 24) =~= Seq::<u8>::empty());
        }
        while i < 32
            invariant
                24 <= i <= 32,
                self.wf(),
                acc as nat == be_val(self@.subrange(24, i as int)),
            decreases 32 - i,
        {
            proof {
                let sub = self@.subrange(24, i as int);
                lemma_be_val_bound(sub);
                if 8 * sub.len() < 56 {
                    lemma_pow2_strictly_increases(8 * sub.len(), 56);
                }
                lemma2_to64();
                assert(acc < pow2(56));
                assert(acc * 256 <= (pow2(56) - 1) * 256) by {
                    lemma_mul_inequality(acc as int, pow2(56) - 1, 256);
                }
                assert((pow2(56) - 1) * 256 == pow2(56) * 256 - 256) by (nonlinear_arith);
                lemma_pow2_adds(56, 8);
            }
            let b = self.bytes[i];
            let ghost subold = self@.subrange(24, i as int);
            acc = acc * 256 + (b as u64);
            proof {
                assert(self@.subrange(24, i + 1).drop_last() =~= subold);
                assert(self@.subrange(24, i + 1).last() == self@[i as int]);
            }
            i = i + 1;
        }
        proof {
            lemma_be_val_split(self@, 24);
            lemma_be_val_zero_iff(self@.take(24));
            assert(forall|j: int| 0 <= j < 24 ==> self@.take(24)[j] == self@[j]);
            assert(be_val(self@.take(24)) == 0);
            assert(self@.subrange(24, 32) =~= self@.skip(24));
        }
        Some(acc)
    }
}

} // verus!
