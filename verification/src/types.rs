//! Hashes, wide integers and the parameters of the consensus graph.
use vstd::prelude::*;

verus! {

/// The arena index that stands for "no block".
pub const NULL: usize = usize::MAX;

/// The number that stands for "not assigned yet".
pub const NULLU64: u64 = u64::MAX;

/// The state of an epoch is committed by the pivot block this many epochs later.
pub const DEFERRED_STATE_EPOCH_COUNT: u64 = 5;

/// The rewards of an epoch are computed this many epochs later.
pub const REWARD_EPOCH_COUNT: u64 = 12;

/// Blocks in the anticone are counted for at most this many epochs.
pub const ANTICONE_PENALTY_UPPER_EPOCH_COUNT: u64 = 10;

/// Two to the power 128.
pub open spec fn pow128() -> nat {
    0x1_0000_0000_0000_0000_0000_0000_0000_0000nat
}

/// Two to the power 64.
pub open spec fn pow64() -> nat {
    0x1_0000_0000_0000_0000nat
}

/// A 256-bit hash, as the big-endian halves of its 32 bytes.
#[derive(Clone, Copy, PartialEq, Eq, Structural, Debug)]
pub struct H256 {
    pub high: u128,
    pub low: u128,
}

/// The 16 bytes of a number, the most significant first.
pub open spec fn be_bytes(x: u128) -> Seq<u8> {
    Seq::new(16, |i: int| (x >> ((8 * (15 - i)) as u128)) as u8)
}

/// The number whose big-endian digits in base 256 are the given bytes.
pub open spec fn be_value(bytes: Seq<u8>) -> nat
    decreases bytes.len(),
{
    if bytes.len() == 0 {
        0
    } else {
        be_value(bytes.drop_last()) * 256 + bytes.last() as nat
    }
}

/// The hash with the given 32 bytes.
pub open spec fn hash_of_bytes(bytes: Seq<u8>) -> H256 {
    H256 {
        high: be_value(bytes.subrange(0, 16)) as u128,
        low: be_value(bytes.subrange(16, 32)) as u128,
    }
}

impl H256 {
    /// The hash read as one big-endian number; hashes are ordered by it.
    pub open spec fn value(self) -> nat {
        self.high as nat * pow128() + self.low as nat
    }

    /// The 32 bytes of the hash.
    pub open spec fn bytes(self) -> Seq<u8> {
        be_bytes(self.high) + be_bytes(self.low)
    }

    /// The hash all of whose bits are zero.
    pub fn zero() -> (r: H256)
        ensures
            r.high == 0,
            r.low == 0,
    {
        H256 { high: 0, low: 0 }
    }

    /// Whether `self` is ordered after `other`.
    pub fn is_greater(&self, other: &H256) -> (r: bool)
        ensures
            r == (self.value() > other.value()),
    {
        self.high > other.high || (self.high == other.high && self.low > other.low)
    }

    /// Appends the 32 bytes of the hash to `out`.
    pub fn append_bytes(&self, out: &mut Vec<u8>)
        ensures
            final(out)@ == old(out)@ + self.bytes(),
    {
        append_be_bytes(self.high, out);
        append_be_bytes(self.low, out);
        assert(out@ =~= old(out)@ + self.bytes());
    }

    /// The hash with the given 32 bytes.
    pub fn from_bytes(bytes: &Vec<u8>) -> (r: H256)
        requires
            bytes@.len() == 32,
        ensures
            r == hash_of_bytes(bytes@),
    {
        H256 { high: read_be_bytes(bytes, 0), low: read_be_bytes(bytes, 16) }
    }
}

fn append_be_bytes(x: u128, out: &mut Vec<u8>)
    ensures
        final(out)@ == old(out)@ + be_bytes(x),
{
    let mut i: u32 = 0;
    while i < 16
        invariant
            i <= 16,
            out@ == old(out)@ + be_bytes(x).take(i as int),
        decreases 16 - i,
    {
        #[verifier::truncate]
        let byte: u8 = (x >> ((8 * (15 - i)) as u128)) as u8;
        out.push(byte);
        assert(be_bytes(x).take(i + 1) =~= be_bytes(x).take(i as int).push(byte));
        assert(out@ =~= old(out)@ + be_bytes(x).take(i + 1));
        i = i + 1;
    }
    assert(be_bytes(x).take(16) =~= be_bytes(x));
}

proof fn lemma_be_value_bound(bytes: Seq<u8>)
    ensures
        be_value(bytes) < vstd::arithmetic::power::pow(256, bytes.len()),
    decreases bytes.len(),
{
    if bytes.len() == 0 {
        vstd::arithmetic::power::lemma_pow0(256);
    } else {
        lemma_be_value_bound(bytes.drop_last());
        vstd::arithmetic::power::lemma_pow_adds(256, (bytes.len() - 1) as nat, 1);
        vstd::arithmetic::power::lemma_pow1(256);
    }
}

fn read_be_bytes(bytes: &Vec<u8>, start: usize) -> (r: u128)
    requires
        start + 16 <= bytes@.len(),
    ensures
        r as nat == be_value(bytes@.subrange(start as int, start + 16)),
{
    let mut acc: u128 = 0;
    let mut i: usize = 0;
    while i < 16
        invariant
            i <= 16,
            start + 16 <= bytes.len(),
            acc as nat == be_value(bytes@.subrange(start as int, start + i)),
        decreases 16 - i,
    {
        let ghost next = bytes@.subrange(start as int, start + i + 1);
        proof {
            assert(next.drop_last() =~= bytes@.subrange(start as int, start + i));
            lemma_be_value_bound(next);
            vstd::arithmetic::power::lemma_pow_increases(256, (i + 1) as nat, 16);
            assert(vstd::arithmetic::power::pow(256, 16) == pow128()) by {
                reveal_with_fuel(vstd::arithmetic::power::pow, 17);
            }
        }
        acc = acc * 256 + bytes[start + i] as u128;
        i = i + 1;
    }
    acc
}

/// A 256-bit unsigned number.
#[derive(Clone, Copy, PartialEq, Eq, Structural, Debug)]
pub struct U256 {
    pub high: u128,
    pub low: u128,
}

impl U256 {
    pub open spec fn value(self) -> nat {
        self.high as nat * pow128() + self.low as nat
    }

    pub fn from_u64(x: u64) -> (r: U256)
        ensures
            r.value() == x,
            r.high == 0,
            r.low == x,
    {
        U256 { high: 0, low: x as u128 }
    }

    /// The low 128 bits.
    pub fn low_u128(&self) -> (r: u128)
        ensures
            r == self.low,
            r as nat == self.value() % pow128(),
    {
        proof {
            vstd::arithmetic::div_mod::lemma_fundamental_div_mod_converse(
                self.value() as int,
                pow128() as int,
                self.high as int,
                self.low as int,
            );
        }
        self.low
    }

    /// Whether `self` is at least `ratio` times `base`; the product is not truncated.
    pub fn is_at_least_times(&self, ratio: u64, base: &U256) -> (r: bool)
        ensures
            r == (self.value() >= ratio * base.value()),
    {
        let limb: u128 = 0x1_0000_0000_0000_0000;
        let d0: u128 = base.low % limb;
        let d1: u128 = base.low / limb;
        let d2: u128 = base.high % limb;
        let d3: u128 = base.high / limb;
        let m: u128 = ratio as u128;
        proof {
            lemma_limb_product(m, d0);
            lemma_limb_product(m, d1);
            lemma_limb_product(m, d2);
            lemma_limb_product(m, d3);
        }
        let p0: u128 = m * d0;
        let p1: u128 = m * d1 + p0 / limb;
        let p2: u128 = m * d2 + p1 / limb;
        let p3: u128 = m * d3 + p2 / limb;
        let low: u128 = (p1 % limb) * limb + p0 % limb;
        let high: u128 = (p3 % limb) * limb + p2 % limb;
        let over: u128 = p3 / limb;
        proof {
            assert(m * (d0 + d1 * 0x1_0000_0000_0000_0000 + d2 * 0x1_0000_0000_0000_0000_0000_0000_0000_0000 + d3
                * 0x1_0000_0000_0000_0000_0000_0000_0000_0000_0000_0000_0000_0000) == m * d0 + (m * d1) * 0x1_0000_0000_0000_0000 + (m * d2)
                * 0x1_0000_0000_0000_0000_0000_0000_0000_0000 + (m * d3)
                * 0x1_0000_0000_0000_0000_0000_0000_0000_0000_0000_0000_0000_0000) by (nonlinear_arith);
            assert(base.value() == d0 + d1 * 0x1_0000_0000_0000_0000 + d2
                * 0x1_0000_0000_0000_0000_0000_0000_0000_0000 + d3
                * 0x1_0000_0000_0000_0000_0000_0000_0000_0000_0000_0000_0000_0000);
            assert(ratio * base.value() == low + high * 0x1_0000_0000_0000_0000_0000_0000_0000_0000 + over
                * 0x1_0000_0000_0000_0000_0000_0000_0000_0000_0000_0000_0000_0000_0000_0000_0000_0000);
        }
        over == 0 && (self.high > high || (self.high == high && self.low >= low))
    }
}

proof fn lemma_limb_product(m: u128, d: u128)
    requires
        m < pow64(),
        d < pow64(),
    ensures
        0 <= m * d <= 0xffff_ffff_ffff_fffe_0000_0000_0000_0001,
{
    assert(0 <= m * d <= 0xffff_ffff_ffff_fffe_0000_0000_0000_0001) by (nonlinear_arith)
        requires
            m < 0x1_0000_0000_0000_0000,
            d < 0x1_0000_0000_0000_0000,
    ;
}

/// The first `k` bytes of a number are its value without the bits below them.
proof fn lemma_first_bytes(x: u128, k: nat)
    requires
        0 < k <= 16,
    ensures
        be_value(be_bytes(x).take(k as int)) == x >> ((8 * (16 - k)) as u128),
    decreases k,
{
    let bytes = be_bytes(x).take(k as int);
    let s = (8 * (16 - k)) as u128;
    assert(bytes.last() == (x >> s) as u8);
    if k == 1 {
        assert(bytes.drop_last() =~= Seq::<u8>::empty());
        assert(be_value(bytes.drop_last()) == 0);
        assert((x >> 120u128) as u8 == x >> 120u128) by (bit_vector);
    } else {
        assert(bytes.drop_last() =~= be_bytes(x).take(k - 1));
        lemma_first_bytes(x, (k - 1) as nat);
        let t = (s + 8) as u128;
        assert((x >> t) * 256 + ((x >> s) as u8) == x >> s) by (bit_vector)
            requires
                s <= 112,
                t == s + 8,
        ;
    }
}

/// A hash is read back from its bytes, of which there are 32.
pub proof fn law_hash_is_read_back(h: H256)
    ensures
        h.bytes().len() == 32,
        hash_of_bytes(h.bytes()) == h,
{
    let (high, low) = (h.high, h.low);
    lemma_first_bytes(high, 16);
    lemma_first_bytes(low, 16);
    assert(be_bytes(high).take(16) =~= h.bytes().subrange(0, 16));
    assert(be_bytes(low).take(16) =~= h.bytes().subrange(16, 32));
    assert(high >> 0u128 == high) by (bit_vector);
    assert(low >> 0u128 == low) by (bit_vector);
}

/// Hashes are ordered as their bytes are, the first one that differs deciding: by the first 16 as a
/// number, and then by the last 16. Different hashes are never equal in that order.
pub proof fn law_hash_order(a: H256, b: H256)
    ensures
        a.value() == b.value() <==> a == b,
        a.value() > b.value() <==> a.high > b.high || (a.high == b.high && a.low > b.low),
        a.bytes() == b.bytes() <==> a == b,
{
    law_hash_is_read_back(a);
    law_hash_is_read_back(b);
}

/// Wide numbers are compared by their high halves first.
pub proof fn law_wide_order(a: U256, b: U256)
    ensures
        a.value() == b.value() <==> a == b,
        a.value() > b.value() <==> a.high > b.high || (a.high == b.high && a.low > b.low),
        a.high == 0 ==> a.value() == a.low,
{
}

} // verus!
