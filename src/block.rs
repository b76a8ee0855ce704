//! Block headers and blocks: compact targets, proof of work, total work
//! and the merkle check.
use crate::encode::{
    lemma_u32_le_injective, lemma_u64_le_injective, push_u32, push_u64, read_u32, read_u64, u32_le, u64_le,
    varint_bytes,
};
use crate::hash::{blockchain_merkle_root, hash_of_bytes, merkle_root_of, push_hash, read_hash, sha256d_of, Hash256};
use crate::transaction::{push_transactions, txids, txids_of, txs_bytes, Transaction};
use crate::uint::{bit_length, lemma_below_bit_length, lemma_bit_length_bound, lemma_modulus_is_pow2, modulus, Uint256};
use crate::util::Error;
use vstd::arithmetic::div_mod::*;
use vstd::arithmetic::power2::*;
use vstd::prelude::*;

verus! {

/// Everything about a block but its transactions.
#[derive(Clone, Copy, Debug, PartialEq, Eq)]
pub struct BlockHeader {
    /// Version of the block format.
    pub block_version: u32,
    /// Identity of the previous block.
    pub prev_blockhash: Hash256,
    /// Merkle root of the block's transaction identities.
    pub merkle_root: Hash256,
    /// Creation time as claimed by the miner.
    pub timestamp: u32,
    /// Height of the block in its chain.
    pub height: u64,
    /// Compact encoding of the target the hash must not exceed.
    pub target: u32,
    /// Free field varied by miners.
    pub nonce: u32,
}

/// A header with its transactions; the first one is the coinbase.
#[derive(Clone, Debug, PartialEq, Eq)]
pub struct Block {
    pub header: BlockHeader,
    pub txdata: Vec<Transaction>,
}

/// Canonical encoding of a header.
pub open spec fn header_bytes(h: BlockHeader) -> Seq<u8> {
    u32_le(h.block_version) + h.prev_blockhash.0@ + h.merkle_root.0@ + u32_le(h.timestamp)
        + u64_le(h.height) + u32_le(h.target) + u32_le(h.nonce)
}

/// The target that a compact field stands for: exponent in the top byte,
/// a 24-bit mantissa below it; a mantissa with its sign bit set gives zero.
pub open spec fn compact_target_value(bits: u32) -> nat {
    let e = bits as nat / 0x100_0000;
    let m = bits as nat % 0x100_0000;
    if m > 0x7f_ffff {
        0
    } else if e <= 3 {
        m / pow2((8 * (3 - e)) as nat)
    } else {
        (m * pow2((8 * (e - 3)) as nat)) % modulus()
    }
}

/// Number of bytes needed to write `v`.
pub open spec fn compact_size(v: nat) -> nat {
    (bit_length(v) + 7) / 8
}

/// The top three bytes of `v`, aligned to the mantissa.
pub open spec fn compact_mantissa(v: nat) -> nat {
    let size = compact_size(v);
    if size <= 3 {
        v * pow2((8 * (3 - size)) as nat)
    } else {
        v / pow2((8 * (size - 3)) as nat)
    }
}

/// Compact encoding of `v`; a mantissa that would read as negative is
/// shifted down one byte and the exponent raised.
pub open spec fn compact_of(v: nat) -> nat {
    let m = compact_mantissa(v);
    let size = compact_size(v);
    if m >= 0x80_0000 {
        m / 256 + (size + 1) * 0x100_0000
    } else {
        m + size * 0x100_0000
    }
}

/// Eight bytes read as a little-endian integer.
pub open spec fn le_word(b: Seq<u8>) -> nat {
    b[0] as nat + 256 * (b[1] as nat + 256 * (b[2] as nat + 256 * (b[3] as nat + 256 * (b[4] as nat
        + 256 * (b[5] as nat + 256 * (b[6] as nat + 256 * b[7] as nat))))))
}

/// A 32-byte hash read as a little-endian 256-bit number.
pub open spec fn hash_number(h: Seq<u8>) -> nat {
    le_word(h.subrange(0, 8)) + 0x1_0000_0000_0000_0000 * (le_word(h.subrange(8, 16))
        + 0x1_0000_0000_0000_0000 * (le_word(h.subrange(16, 24)) + 0x1_0000_0000_0000_0000
        * le_word(h.subrange(24, 32))))
}

/// Expected hashing effort for a target: 2^256 / (target + 1), in 256 bits.
pub open spec fn total_work_of(t: nat) -> nat {
    (modulus() / (t + 1)) % modulus()
}

/// Relies on byteorder's `LittleEndian::read_u64_into`: each word is read
/// from eight consecutive bytes, least significant byte first.
#[verifier::external_body]
fn read_le_words(src: &[u8; 32]) -> (r: [u64; 4])
    ensures
        forall|i: int| 0 <= i < 4 ==> r@[i] as nat == #[trigger] le_word(src@.subrange(8 * i, 8 * i + 8)),
{
    let mut r = [0u64; 4];
    <byteorder::LittleEndian as byteorder::ByteOrder>::read_u64_into(src, &mut r);
    r
}

/// Objects referred to by a hash of their encoding.
pub trait BlockchainHash {
    spec fn hash_spec(&self) -> Seq<u8>;

    fn blockchain_hash(&self) -> (r: Hash256)
        ensures
            r.0@ == self.hash_spec(),
    ;
}

/// Collections with a merkle root over their elements, in order.
pub trait MerkleRoot {
    spec fn merkle_root_spec(&self) -> Seq<u8>;

    fn merkle_root(&self) -> (r: Hash256)
        ensures
            r.0@ == self.merkle_root_spec(),
    ;
}

impl BlockHeader {
    /// Canonical encoding.
    pub fn encode(&self) -> (r: Vec<u8>)
        ensures
            r@ == header_bytes(*self),
    {
        let mut buf: Vec<u8> = Vec::new();
        push_u32(&mut buf, self.block_version);
        push_hash(&mut buf, &self.prev_blockhash);
        push_hash(&mut buf, &self.merkle_root);
        push_u32(&mut buf, self.timestamp);
        push_u64(&mut buf, self.height);
        push_u32(&mut buf, self.target);
        push_u32(&mut buf, self.nonce);
        assert(buf@ =~= header_bytes(*self));
        buf
    }

    /// Reads a header from exactly its 88 encoded bytes.
    pub fn decode(bytes: &Vec<u8>) -> (r: Result<BlockHeader, Error>)
        ensures
            bytes.len() != 88 ==> r == Err::<BlockHeader, Error>(Error::DecodeError),
            bytes.len() == 88 ==> (r matches Ok(h) && header_bytes(h) == bytes@),
    {
        if bytes.len() != 88 {
            return Err(Error::DecodeError);
        }
        let h = BlockHeader {
            block_version: read_u32(bytes, 0),
            prev_blockhash: read_hash(bytes, 4),
            merkle_root: read_hash(bytes, 36),
            timestamp: read_u32(bytes, 68),
            height: read_u64(bytes, 72),
            target: read_u32(bytes, 80),
            nonce: read_u32(bytes, 84),
        };
        assert(header_bytes(h) =~= bytes@);
        Ok(h)
    }

    /// Decodes the compact target field.
    pub fn compute_target(&self) -> (r: Uint256)
        ensures
            r.value() == compact_target_value(self.target),
    {
        let expt = self.target / 0x100_0000;
        let mant = self.target % 0x100_0000;
        if mant > 0x7f_ffff {
            Uint256::zero()
        } else if expt <= 3 {
            Uint256::from_u64(mant as u64).shr((8 * (3 - expt)) as usize)
        } else {
            Uint256::from_u64(mant as u64).shl((8 * (expt - 3)) as usize)
        }
    }
}

impl BlockchainHash for BlockHeader {
    open spec fn hash_spec(&self) -> Seq<u8> {
        sha256d_of(header_bytes(*self))
    }

    fn blockchain_hash(&self) -> (r: Hash256) {
        let bytes = self.encode();
        hash_of_bytes(&bytes)
    }
}

/// The mantissa of the compact encoding fits in 24 bits and the size in 32 bytes.
pub proof fn lemma_compact_bounds(v: nat)
    requires
        v < modulus(),
    ensures
        compact_mantissa(v) < 0x100_0000,
        compact_size(v) <= 32,
        compact_size(v) <= 3 ==> v * pow2((8 * (3 - compact_size(v))) as nat) < modulus(),
{
    let size = compact_size(v);
    lemma_below_bit_length(v);
    lemma_modulus_is_pow2();
    lemma2_to64();
    if bit_length(v) > 256 {
        lemma_pow2_strictly_increases(256, bit_length(v));
        lemma_bit_length_bound(v, 256);
    }
    assert(8 * size >= bit_length(v));
    if 8 * size > bit_length(v) {
        lemma_pow2_strictly_increases(bit_length(v), 8 * size);
    }
    assert(v < pow2(8 * size));
    if size <= 3 {
        lemma_pow2_adds(8 * size, (8 * (3 - size)) as nat);
        let p = pow2((8 * (3 - size)) as nat);
        assert(v * p < pow2(8 * size) * p) by (nonlinear_arith)
            requires
                v < pow2(8 * size),
                p > 0,
        ;
        lemma_pow2_pos((8 * (3 - size)) as nat);
        lemma_pow2_strictly_increases(24, 256);
    } else {
        lemma_pow2_adds(24, (8 * (size - 3)) as nat);
        lemma_pow2_pos((8 * (size - 3)) as nat);
        lemma_multiply_divide_lt(v as int, pow2((8 * (size - 3)) as nat) as int, pow2(24) as int);
    }
}

impl BlockHeader {
    /// Compact encoding of a target.
    pub fn compute_compact_target_from_u256(value: &Uint256) -> (r: u32)
        ensures
            r as nat == compact_of(value.value()),
    {
        let bits = value.bits();
        let size = (bits + 7) / 8;
        proof {
            value.lemma_bounded();
            lemma_compact_bounds(value.value());
            lemma_modulus_is_pow2();
            lemma2_to64();
        }
        let mant: u32 = if size <= 3 {
            let shifted = value.shl(8 * (3 - size));
            proof {
                lemma_small_mod(compact_mantissa(value.value()), modulus());
                lemma_small_mod(compact_mantissa(value.value()), 0x1_0000_0000);
            }
            shifted.low_u32()
        } else {
            let shifted = value.shr(8 * (size - 3));
            proof {
                lemma_small_mod(compact_mantissa(value.value()), 0x1_0000_0000);
            }
            shifted.low_u32()
        };
        if mant >= 0x80_0000 {
            mant / 256 + ((size + 1) as u32) * 0x100_0000
        } else {
            mant + (size as u32) * 0x100_0000
        }
    }

    /// Checks the header against a required target, then its hash against it.
    pub fn validate_pow_of_block(&self, target_required: &Uint256) -> (r: Result<(), Error>)
        ensures
            compact_target_value(self.target) != target_required.value() ==> r == Err::<(), Error>(
                Error::BlockTargetError,
            ),
            compact_target_value(self.target) == target_required.value() ==> (r == if hash_number(
                self.hash_spec(),
            ) <= target_required.value() {
                Ok::<(), Error>(())
            } else {
                Err(Error::BlockProofOfWorkError)
            }),
    {
        let target = self.compute_target();
        if !target.same_as(target_required) {
            return Err(Error::BlockTargetError);
        }
        let h = self.blockchain_hash();
        let words = read_le_words(&h.0);
        let hv = Uint256(words);
        proof {
            lemma_words_of_hash(hv, h.0@);
        }
        if hv.le(&target) {
            Ok(())
        } else {
            Err(Error::BlockProofOfWorkError)
        }
    }

    /// Expected hashing effort for the header's target.
    pub fn block_total_work(&self) -> (r: Uint256)
        ensures
            r.value() == total_work_of(compact_target_value(self.target)),
    {
        let target = self.compute_target();
        proof {
            lemma_compact_target_below_max(self.target);
        }
        let mut ret = target.complement();
        let mut divisor = target;
        divisor.increment_by_one();
        proof {
            lemma_small_mod(target.value() + 1, modulus());
        }
        ret = ret.divide(&divisor);
        ret.increment_by_one();
        proof {
            let t = target.value();
            lemma_div_plus_one((modulus() - 1 - t) as int, (t + 1) as int);
            lemma_div_nonincreasing(modulus() as int, (t + 1) as int);
            if t > 0 {
                lemma_div_is_ordered_by_denominator(modulus() as int, 1, (t + 1) as int);
            }
        }
        ret
    }

    /// The "difficulty": a network's largest target over this header's target.
    pub fn compute_difficulty(&self, max_target: &Uint256) -> (r: u64)
        requires
            compact_target_value(self.target) != 0,
        ensures
            r as nat == (max_target.value() / compact_target_value(self.target)) % 0x1_0000_0000_0000_0000,
    {
        let target = self.compute_target();
        max_target.divide(&target).low_u64()
    }
}

proof fn lemma_words_of_hash(v: Uint256, h: Seq<u8>)
    requires
        forall|i: int| 0 <= i < 4 ==> v.0@[i] as nat == #[trigger] le_word(h.subrange(8 * i, 8 * i + 8)),
    ensures
        v.value() == hash_number(h),
{
    assert(v.0@[0] as nat == le_word(h.subrange(8 * 0int, 8 * 0int + 8)));
    assert(v.0@[1] as nat == le_word(h.subrange(8 * 1int, 8 * 1int + 8)));
    assert(v.0@[2] as nat == le_word(h.subrange(8 * 2int, 8 * 2int + 8)));
    assert(v.0@[3] as nat == le_word(h.subrange(8 * 3int, 8 * 3int + 8)));
}

/// A decoded compact target is never the largest 256-bit value.
pub proof fn lemma_compact_target_below_max(bits: u32)
    ensures
        compact_target_value(bits) + 1 < modulus(),
{
    let e = bits as nat / 0x100_0000;
    let m = bits as nat % 0x100_0000;
    lemma_modulus_is_pow2();
    lemma2_to64();
    lemma_pow2_strictly_increases(24, 256);
    if m <= 0x7f_ffff {
        if e <= 3 {
            lemma_pow2_pos((8 * (3 - e)) as nat);
            lemma_div_nonincreasing(m as int, pow2((8 * (3 - e)) as nat) as int);
        } else {
            let k = (8 * (e - 3)) as nat;
            let x = m * pow2(k);
            lemma_pow2_unfold(k);
            let y = m * pow2((k - 1) as nat);
            assert(x == 2 * y) by (nonlinear_arith)
                requires
                    x == m * pow2(k),
                    y == m * pow2((k - 1) as nat),
                    pow2(k) == 2 * pow2((k - 1) as nat),
            ;
            let md = modulus();
            lemma_fundamental_div_mod(x as int, md as int);
            lemma_mod_bound(x as int, md as int);
            let q = x / md;
            let r = x % md;
            let h = md / 2;
            assert(md == 2 * h);
            assert(r == 2 * (y - h * q)) by (nonlinear_arith)
                requires
                    x == md * q + r,
                    md == 2 * h,
                    x == 2 * y,
            ;
        }
    }
}

impl BlockchainHash for Block {
    open spec fn hash_spec(&self) -> Seq<u8> {
        sha256d_of(header_bytes(self.header))
    }

    fn blockchain_hash(&self) -> (r: Hash256) {
        self.header.blockchain_hash()
    }
}

impl MerkleRoot for Block {
    open spec fn merkle_root_spec(&self) -> Seq<u8> {
        merkle_root_of(txids_of(self.txdata@))
    }

    fn merkle_root(&self) -> (r: Hash256) {
        let ids = txids(&self.txdata);
        blockchain_merkle_root(ids)
    }
}

/// Canonical encoding of a block: its header, then its transactions with a count.
pub open spec fn block_bytes(b: Block) -> Seq<u8> {
    header_bytes(b.header) + varint_bytes(b.txdata.len() as u64) + txs_bytes(b.txdata@)
}

impl Block {
    /// Canonical encoding.
    pub fn encode(&self) -> (r: Vec<u8>)
        ensures
            r@ == block_bytes(*self),
    {
        let mut buf = self.header.encode();
        push_transactions(&mut buf, &self.txdata);
        buf
    }

    /// Whether the header's merkle root is the root of the transaction identities.
    pub fn check_merkle_root(&self) -> (r: bool)
        ensures
            r == (self.header.merkle_root.0@ == merkle_root_of(txids_of(self.txdata@))),
    {
        let root = self.merkle_root();
        self.header.merkle_root.same_as(&root)
    }
}

/// A zero field decodes to zero, and so does any field whose mantissa has
/// its sign bit set.
pub proof fn lemma_compact_zero_and_sign_bit(bits: u32)
    ensures
        compact_target_value(0) == 0,
        bits as nat % 0x100_0000 > 0x7f_ffff ==> compact_target_value(bits) == 0,
{
    lemma2_to64();
    lemma_pow2_pos(24);
}

/// Total work never grows as the target grows.
pub proof fn lemma_total_work_nonincreasing(t1: nat, t2: nat)
    requires
        1 <= t1 <= t2,
        t2 + 1 < modulus(),
    ensures
        total_work_of(t2) <= total_work_of(t1),
{
    let m = modulus() as int;
    lemma_div_is_ordered_by_denominator(m, (t1 + 1) as int, (t2 + 1) as int);
    lemma_div_is_ordered_by_denominator(m, 2, (t1 + 1) as int);
    lemma_div_is_ordered_by_denominator(m, 2, (t2 + 1) as int);
    lemma_small_mod((m / (t1 + 1) as int) as nat, modulus());
    lemma_small_mod((m / (t2 + 1) as int) as nat, modulus());
}

/// Total work strictly falls as the target grows, for targets whose
/// successors multiply to at most 2^256 (all targets below 2^128 among them).
pub proof fn lemma_total_work_decreases(t1: nat, t2: nat)
    requires
        1 <= t1 < t2,
        (t1 + 1) * (t2 + 1) <= modulus(),
    ensures
        total_work_of(t2) < total_work_of(t1),
{
    let m = modulus() as int;
    let d1 = (t1 + 1) as int;
    let d2 = (t2 + 1) as int;
    assert(d2 < m) by (nonlinear_arith)
        requires
            d1 >= 2,
            d2 >= 1,
            d1 * d2 <= m,
    ;
    lemma_total_work_nonincreasing(t1, t2);
    let q2 = m / d2;
    lemma_div_is_ordered(d1 * d2, m, d2);
    lemma_div_multiples_vanish(d1, d2);
    assert(q2 >= d1);
    lemma_fundamental_div_mod(m, d2);
    lemma_mod_bound(m, d2);
    assert(q2 * d1 <= q2 * (d2 - 1)) by (nonlinear_arith)
        requires
            q2 >= 0,
            d1 <= d2 - 1,
    ;
    assert((q2 + 1) * d1 == q2 * d1 + d1) by (nonlinear_arith);
    assert(q2 * (d2 - 1) == d2 * q2 - q2) by (nonlinear_arith);
    assert((q2 + 1) * d1 <= m);
    lemma_div_is_ordered(d1 * (q2 + 1), m, d1);
    lemma_div_multiples_vanish(q2 + 1, d1);
    assert(m / d1 >= q2 + 1);
    lemma_div_is_ordered_by_denominator(m, 2, d1);
    lemma_div_is_ordered_by_denominator(m, 2, d2);
    lemma_small_mod((m / d1) as nat, modulus());
    lemma_small_mod(q2 as nat, modulus());
}

/// Doubling adds one bit to the length of a nonzero value.
proof fn lemma_bit_length_shift(m: nat, n: nat)
    requires
        m > 0,
    ensures
        bit_length(m * pow2(n)) == bit_length(m) + n,
    decreases n,
{
    if n == 0 {
        lemma2_to64();
    } else {
        lemma_pow2_unfold(n);
        lemma_bit_length_shift(m, (n - 1) as nat);
        let x = m * pow2((n - 1) as nat);
        assert(m * pow2(n) == 2 * x) by (nonlinear_arith)
            requires
                pow2(n) == 2 * pow2((n - 1) as nat),
                x == m * pow2((n - 1) as nat),
        ;
        lemma_pow2_pos((n - 1) as nat);
        assert(x > 0) by (nonlinear_arith)
            requires
                m > 0,
                pow2((n - 1) as nat) > 0,
                x == m * pow2((n - 1) as nat),
        ;
        assert((2 * x) / 2 == x);
    }
}

/// Shifting up by `a` bits and down by `b <= a` bits is shifting up by `a - b`.
proof fn lemma_shift_down(m: nat, a: nat, b: nat)
    requires
        b <= a,
    ensures
        (m * pow2(a)) / pow2(b) == m * pow2((a - b) as nat),
{
    lemma_pow2_adds((a - b) as nat, b);
    lemma_pow2_pos(b);
    assert(m * pow2(a) == pow2(b) * (m * pow2((a - b) as nat))) by (nonlinear_arith)
        requires
            pow2(a) == pow2((a - b) as nat) * pow2(b),
    ;
    lemma_div_multiples_vanish((m * pow2((a - b) as nat)) as int, pow2(b) as int);
}

/// Shifting up twice is shifting up by the sum.
proof fn lemma_shift_up(m: nat, a: nat, b: nat)
    ensures
        (m * pow2(a)) * pow2(b) == m * pow2(a + b),
{
    lemma_pow2_adds(a, b);
    assert((m * pow2(a)) * pow2(b) == m * (pow2(a) * pow2(b))) by (nonlinear_arith);
}

/// Values with a positive 23-bit mantissa and a whole number of bytes of
/// exponent decode back to themselves after compact encoding.
pub proof fn lemma_compact_round_trip(m: nat, k: nat)
    requires
        m < 0x80_0000,
        m * pow2(8 * k) < modulus(),
    ensures
        compact_target_value(compact_of(m * pow2(8 * k)) as u32) == m * pow2(8 * k),
        compact_of(m * pow2(8 * k)) < 0x1_0000_0000,
{
    let v = m * pow2(8 * k);
    lemma2_to64();
    lemma_compact_bounds(v);
    if m == 0 {
        assert(v == 0);
        assert(compact_size(v) == 0);
        assert(compact_mantissa(v) == 0) by {
            lemma_pow2_pos(24);
        };
        return;
    }
    lemma_bit_length_shift(m, 8 * k);
    lemma_below_bit_length(m);
    lemma_bit_length_bound(m, 23);
    let sm = (bit_length(m) + 7) / 8;
    let size = compact_size(v);
    assert(size == sm + k);
    assert(sm <= 3);
    let mm = m * pow2((8 * (3 - sm)) as nat);
    // The aligned mantissa does not depend on which side of three bytes `v` falls.
    if size <= 3 {
        lemma_shift_up(m, 8 * k, (8 * (3 - size)) as nat);
        assert(8 * k + 8 * (3 - size) == 8 * (3 - sm));
    } else {
        lemma_shift_down(m, 8 * k, (8 * (size - 3)) as nat);
        assert(8 * k - 8 * (size - 3) == 8 * (3 - sm));
    }
    assert(compact_mantissa(v) == mm);
    if mm < 0x80_0000 {
        assert(compact_of(v) == mm + size * 0x100_0000);
        let c = compact_of(v);
        assert(c as u32 as nat / 0x100_0000 == size);
        assert(c as u32 as nat % 0x100_0000 == mm);
        if size <= 3 {
            lemma_shift_down(m, (8 * (3 - sm)) as nat, (8 * (3 - size)) as nat);
            assert(8 * (3 - sm) - 8 * (3 - size) == 8 * k);
        } else {
            lemma_shift_up(m, (8 * (3 - sm)) as nat, (8 * (size - 3)) as nat);
            assert(8 * (3 - sm) + 8 * (size - 3) == 8 * k);
            lemma_small_mod(v, modulus());
        }
    } else {
        // A mantissa at 2^23 or above needs at least one empty low byte.
        if sm == 3 {
            assert((8 * (3 - sm)) as nat == 0);
            assert(pow2((8 * (3 - sm)) as nat) == 1);
            assert(mm == m * 1);
        }
        assert(sm < 3);
        let low = m * pow2((8 * (2 - sm)) as nat);
        lemma_shift_up(m, (8 * (2 - sm)) as nat, 8);
        assert(8 * (2 - sm) + 8 == 8 * (3 - sm));
        assert(mm == low * 256);
        assert(mm / 256 == low);
        assert(compact_of(v) == low + (size + 1) * 0x100_0000);
        let c = compact_of(v);
        lemma_pow2_strictly_increases(16, 24);
        if sm < 2 {
            lemma_pow2_strictly_increases((8 * (2 - sm)) as nat, 16);
        }
        assert(low < 0x1_0000) by (nonlinear_arith)
            requires
                mm == low * 256,
                mm < 0x100_0000,
        ;
        assert(c as u32 as nat / 0x100_0000 == size + 1);
        assert(c as u32 as nat % 0x100_0000 == low);
        if size + 1 <= 3 {
            lemma_shift_down(m, (8 * (2 - sm)) as nat, (8 * (3 - (size + 1))) as nat);
            assert(8 * (2 - sm) - 8 * (3 - (size + 1)) == 8 * k);
        } else {
            lemma_shift_up(m, (8 * (2 - sm)) as nat, (8 * (size + 1 - 3)) as nat);
            assert(8 * (2 - sm) + 8 * (size + 1 - 3) == 8 * k);
            lemma_small_mod(v, modulus());
        }
    }
}

/// Two headers with the same encoding have the same fields, so decoding
/// an encoded header gives that header back.
pub proof fn lemma_header_bytes_injective(a: BlockHeader, b: BlockHeader)
    requires
        header_bytes(a) == header_bytes(b),
    ensures
        a.block_version == b.block_version,
        a.prev_blockhash.0@ == b.prev_blockhash.0@,
        a.merkle_root.0@ == b.merkle_root.0@,
        a.timestamp == b.timestamp,
        a.height == b.height,
        a.target == b.target,
        a.nonce == b.nonce,
{
    let x = header_bytes(a);
    let y = header_bytes(b);
    assert(x.subrange(0, 4) =~= u32_le(a.block_version));
    assert(y.subrange(0, 4) =~= u32_le(b.block_version));
    assert(x.subrange(4, 36) =~= a.prev_blockhash.0@);
    assert(y.subrange(4, 36) =~= b.prev_blockhash.0@);
    assert(x.subrange(36, 68) =~= a.merkle_root.0@);
    assert(y.subrange(36, 68) =~= b.merkle_root.0@);
    assert(x.subrange(68, 72) =~= u32_le(a.timestamp));
    assert(y.subrange(68, 72) =~= u32_le(b.timestamp));
    assert(x.subrange(72, 80) =~= u64_le(a.height));
    assert(y.subrange(72, 80) =~= u64_le(b.height));
    assert(x.subrange(80, 84) =~= u32_le(a.target));
    assert(y.subrange(80, 84) =~= u32_le(b.target));
    assert(x.subrange(84, 88) =~= u32_le(a.nonce));
    assert(y.subrange(84, 88) =~= u32_le(b.nonce));
    lemma_u32_le_injective(a.block_version, b.block_version);
    lemma_u32_le_injective(a.timestamp, b.timestamp);
    lemma_u64_le_injective(a.height, b.height);
    lemma_u32_le_injective(a.target, b.target);
    lemma_u32_le_injective(a.nonce, b.nonce);
}

} // verus!
