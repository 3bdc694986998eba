//! Block digests: 256 bits, made of four 64-bit lanes that each run over the
//! whole block.
//!
//! Every lane absorbs one byte per step through a map that is one-to-one in
//! the state and in the byte. So two blocks of one length that differ in a
//! single byte never share a digest; beyond that the digest is a plain
//! mixing function, not a cryptographic one.

use crate::wire::put_u64;
use vstd::bytes::*;
use vstd::prelude::*;
use vstd::wrapping::u64_specs::wrapping_mul;

verus! {
/// Number of bytes in a digest.
pub const DIGEST_LEN: usize = 32;

/// The state in which the first lane starts.
pub const SEED_0: u64 = 0xCBF2_9CE4_8422_2325;

/// The state in which the second lane starts.
pub const SEED_1: u64 = 0x6A09_E667_F3BC_C908;

/// The state in which the third lane starts.
pub const SEED_2: u64 = 0xBB67_AE85_84CA_A73B;

/// The state in which the fourth lane starts.
pub const SEED_3: u64 = 0x3C6E_F372_FE94_F82B;

/// The odd number by which the first lane multiplies.
pub const MULT_0: u64 = 0x9E37_79B9_7F4A_7C15;

/// The odd number by which the second lane multiplies.
pub const MULT_1: u64 = 0xBF58_476D_1CE4_E5B9;

/// The odd number by which the third lane multiplies.
pub const MULT_2: u64 = 0x94D0_49BB_1331_11EB;

/// The odd number by which the fourth lane multiplies.
pub const MULT_3: u64 = 0xFF51_AFD7_ED55_8CCD;

/// The odd number by which every lane multiplies at its end.
pub const MULT_FINISH: u64 = 0xC4CE_B9FE_1A85_EC53;

/// The fingerprint of a block's bytes, the key under which it is stored.
#[derive(Debug, Clone, Copy, Hash, Eq)]
pub struct BlockHash(pub [u8; 32]);

impl View for BlockHash {
    type V = Seq<u8>;

    open spec fn view(&self) -> Seq<u8> {
        self.0@
    }
}

impl From<[u8; 32]> for BlockHash {
    fn from(hash: [u8; 32]) -> (r: Self) {
        BlockHash(hash)
    }
}

impl vstd::std_specs::convert::FromSpecImpl<[u8; 32]> for BlockHash {
    open spec fn obeys_from_spec() -> bool {
        true
    }

    open spec fn from_spec(hash: [u8; 32]) -> Self {
        BlockHash(hash)
    }
}

impl PartialEq for BlockHash {
    fn eq(&self, other: &Self) -> (r: bool) {
        let mut i: usize = 0;
        while i < 32
            invariant
                i <= 32,
                forall|j: int| 0 <= j < i ==> self.0@[j] == other.0@[j],
            decreases 32 - i,
        {
            if self.0[i] != other.0[i] {
                return false;
            }
            i += 1;
        }
        assert(self.0@ =~= other.0@);
        true
    }
}

impl vstd::std_specs::cmp::PartialEqSpecImpl for BlockHash {
    open spec fn obeys_eq_spec() -> bool {
        true
    }

    open spec fn eq_spec(&self, other: &Self) -> bool {
        self.0@ == other.0@
    }
}

impl BlockHash {
    /// The digest's bytes.
    pub fn as_bytes(&self) -> (r: &[u8; 32])
        ensures
            r@ == self@,
    {
        &self.0
    }

    /// The digest that holds `bytes`, where there are exactly 32 of them.
    pub fn from_slice(bytes: &[u8]) -> (r: Option<BlockHash>)
        ensures
            match r {
                Some(h) => bytes@.len() == 32 && h@ == bytes@,
                None => bytes@.len() != 32,
            },
    {
        if bytes.len() != 32 {
            return None;
        }
        let mut out = [0u8; 32];
        let mut i: usize = 0;
        while i < 32
            invariant
                i <= 32,
                bytes@.len() == 32,
                forall|j: int| 0 <= j < i ==> out@[j] == bytes@[j],
            decreases 32 - i,
        {
            out[i] = bytes[i];
            i += 1;
        }
        Some(BlockHash(out))
    }
}

/// One-to-one scrambling of a lane's state: a multiplication by the odd
/// number `p`, then a fold of the high bits into the low ones.
pub open spec fn scramble(x: u64, p: u64) -> u64 {
    let y = wrapping_mul(x, p);
    y ^ (y >> 29)
}

/// A lane's state after it has absorbed the byte `b`.
pub open spec fn lane_step(h: u64, b: u8, p: u64) -> u64 {
    scramble(h ^ (b as u64), p)
}

/// A lane's state after it has absorbed `data` from the first byte on.
pub open spec fn lane_fold(data: Seq<u8>, seed: u64, p: u64) -> u64
    decreases data.len(),
{
    if data.len() == 0 {
        seed
    } else {
        lane_step(lane_fold(data.drop_last(), seed, p), data.last(), p)
    }
}

/// A lane's output: its last state, mixed with the length of the input.
pub open spec fn lane_value(data: Seq<u8>, seed: u64, p: u64) -> u64 {
    scramble(lane_fold(data, seed, p) ^ (data.len() as u64), MULT_FINISH)
}

/// The digest of `data`: the four lanes' outputs, eight little-endian bytes
/// each.
#[verifier::opaque]
pub open spec fn digest_of(data: Seq<u8>) -> Seq<u8> {
    spec_u64_to_le_bytes(lane_value(data, SEED_0, MULT_0)) + spec_u64_to_le_bytes(
        lane_value(data, SEED_1, MULT_1),
    ) + spec_u64_to_le_bytes(lane_value(data, SEED_2, MULT_2)) + spec_u64_to_le_bytes(
        lane_value(data, SEED_3, MULT_3),
    )
}

fn scramble_exec(x: u64, p: u64) -> (r: u64)
    ensures
        r == scramble(x, p),
{
    let y = x.wrapping_mul(p);
    y ^ (y >> 29)
}

/// Computes the digest of `data`.
pub fn calculate_hash(data: &[u8]) -> (r: BlockHash)
    ensures
        r@ == digest_of(data@),
{
    let n = data.len();
    let mut h0 = SEED_0;
    let mut h1 = SEED_1;
    let mut h2 = SEED_2;
    let mut h3 = SEED_3;
    let mut i: usize = 0;
    while i < n
        invariant
            n == data@.len(),
            i <= n,
            h0 == lane_fold(data@.take(i as int), SEED_0, MULT_0),
            h1 == lane_fold(data@.take(i as int), SEED_1, MULT_1),
            h2 == lane_fold(data@.take(i as int), SEED_2, MULT_2),
            h3 == lane_fold(data@.take(i as int), SEED_3, MULT_3),
        decreases n - i,
    {
        let b = data[i] as u64;
        proof {
            assert(data@.take(i + 1).drop_last() == data@.take(i as int));
        }
        h0 = scramble_exec(h0 ^ b, MULT_0);
        h1 = scramble_exec(h1 ^ b, MULT_1);
        h2 = scramble_exec(h2 ^ b, MULT_2);
        h3 = scramble_exec(h3 ^ b, MULT_3);
        i += 1;
    }
    assert(data@.take(n as int) == data@);
    let len = n as u64;
    let mut bytes: Vec<u8> = Vec::new();
    put_u64(&mut bytes, scramble_exec(h0 ^ len, MULT_FINISH));
    put_u64(&mut bytes, scramble_exec(h1 ^ len, MULT_FINISH));
    put_u64(&mut bytes, scramble_exec(h2 ^ len, MULT_FINISH));
    put_u64(&mut bytes, scramble_exec(h3 ^ len, MULT_FINISH));
    proof {
        reveal(digest_of);
        lemma_auto_spec_u64_to_from_le_bytes();
    }
    let mut out = [0u8; 32];
    let mut k: usize = 0;
    while k < 32
        invariant
            k <= 32,
            bytes@.len() == 32,
            forall|j: int| 0 <= j < k ==> out@[j] == bytes@[j],
        decreases 32 - k,
    {
        out[k] = bytes[k];
        k += 1;
    }
    BlockHash(out)
}

/// `scramble` is one-to-one for each multiplier in use.
pub proof fn lemma_scramble_injective(x: u64, y: u64, p: u64)
    requires
        p == MULT_0 || p == MULT_1 || p == MULT_2 || p == MULT_3 || p == MULT_FINISH,
        scramble(x, p) == scramble(y, p),
    ensures
        x == y,
{
    let a = wrapping_mul(x, p);
    let b = wrapping_mul(y, p);
    assert((a ^ (a >> 29)) == (b ^ (b >> 29)) ==> a == b) by (bit_vector);
    assert(a == (x * p) as u64) by (bit_vector)
        requires
            a == ((x as int * p as int) % 0x1_0000_0000_0000_0000int) as u64,
    ;
    assert(b == (y * p) as u64) by (bit_vector)
        requires
            b == ((y as int * p as int) % 0x1_0000_0000_0000_0000int) as u64,
    ;
    if p == MULT_0 {
        assert(((x * 0x9E37_79B9_7F4A_7C15u64) as u64 * 0xF1DE_83E1_9937_733Du64) as u64 == x)
            by (bit_vector);
        assert(((y * 0x9E37_79B9_7F4A_7C15u64) as u64 * 0xF1DE_83E1_9937_733Du64) as u64 == y)
            by (bit_vector);
    } else if p == MULT_1 {
        assert(((x * 0xBF58_476D_1CE4_E5B9u64) as u64 * 0x96DE_1B17_3F11_9089u64) as u64 == x)
            by (bit_vector);
        assert(((y * 0xBF58_476D_1CE4_E5B9u64) as u64 * 0x96DE_1B17_3F11_9089u64) as u64 == y)
            by (bit_vector);
    } else if p == MULT_2 {
        assert(((x * 0x94D0_49BB_1331_11EBu64) as u64 * 0x3196_42B2_D24D_8EC3u64) as u64 == x)
            by (bit_vector);
        assert(((y * 0x94D0_49BB_1331_11EBu64) as u64 * 0x3196_42B2_D24D_8EC3u64) as u64 == y)
            by (bit_vector);
    } else if p == MULT_3 {
        assert(((x * 0xFF51_AFD7_ED55_8CCDu64) as u64 * 0x4F74_430C_22A5_4005u64) as u64 == x)
            by (bit_vector);
        assert(((y * 0xFF51_AFD7_ED55_8CCDu64) as u64 * 0x4F74_430C_22A5_4005u64) as u64 == y)
            by (bit_vector);
    } else {
        assert(((x * 0xC4CE_B9FE_1A85_EC53u64) as u64 * 0x9CB4_B2F8_1293_37DBu64) as u64 == x)
            by (bit_vector);
        assert(((y * 0xC4CE_B9FE_1A85_EC53u64) as u64 * 0x9CB4_B2F8_1293_37DBu64) as u64 == y)
            by (bit_vector);
    }
}

/// Two inputs of one length that agree up to `k` and differ at `k`, and agree
/// again after it, leave a lane in different states.
proof fn lemma_lane_fold_differs(a: Seq<u8>, b: Seq<u8>, k: int, seed: u64, p: u64)
    requires
        p == MULT_0 || p == MULT_1 || p == MULT_2 || p == MULT_3,
        a.len() == b.len(),
        0 <= k < a.len(),
        a[k] != b[k],
        forall|i: int| 0 <= i < a.len() && i != k ==> a[i] == b[i],
    ensures
        lane_fold(a, seed, p) != lane_fold(b, seed, p),
    decreases a.len(),
{
    let ha = lane_fold(a.drop_last(), seed, p);
    let hb = lane_fold(b.drop_last(), seed, p);
    let xa = ha ^ (a.last() as u64);
    let xb = hb ^ (b.last() as u64);
    if k == a.len() - 1 {
        assert(a.drop_last() =~= b.drop_last());
        let ba = a.last();
        let bb = b.last();
        assert(ba != bb ==> (ha ^ (ba as u64)) != (ha ^ (bb as u64))) by (bit_vector);
    } else {
        lemma_lane_fold_differs(a.drop_last(), b.drop_last(), k, seed, p);
        let c = a.last();
        assert(ha != hb ==> (ha ^ (c as u64)) != (hb ^ (c as u64))) by (bit_vector);
    }
    if scramble(xa, p) == scramble(xb, p) {
        lemma_scramble_injective(xa, xb, p);
    }
}

/// Two blocks of one length that differ in exactly one byte have different
/// digests.
pub proof fn lemma_digest_separates_one_byte(a: Seq<u8>, b: Seq<u8>, k: int)
    requires
        a.len() == b.len(),
        0 <= k < a.len(),
        a[k] != b[k],
        forall|i: int| 0 <= i < a.len() && i != k ==> a[i] == b[i],
    ensures
        digest_of(a) != digest_of(b),
{
    lemma_lane_fold_differs(a, b, k, SEED_0, MULT_0);
    let ha = lane_fold(a, SEED_0, MULT_0);
    let hb = lane_fold(b, SEED_0, MULT_0);
    let n = a.len() as u64;
    assert(ha != hb ==> (ha ^ n) != (hb ^ n)) by (bit_vector);
    if scramble(ha ^ n, MULT_FINISH) == scramble(hb ^ n, MULT_FINISH) {
        lemma_scramble_injective(ha ^ n, hb ^ n, MULT_FINISH);
    }
    let va = lane_value(a, SEED_0, MULT_0);
    let vb = lane_value(b, SEED_0, MULT_0);
    reveal(digest_of);
    lemma_auto_spec_u64_to_from_le_bytes();
    if digest_of(a) == digest_of(b) {
        assert(digest_of(a).subrange(0, 8) == spec_u64_to_le_bytes(va));
        assert(digest_of(b).subrange(0, 8) == spec_u64_to_le_bytes(vb));
    }
}

/// Every digest is 32 bytes long.
pub proof fn lemma_digest_len(data: Seq<u8>)
    ensures
        digest_of(data).len() == DIGEST_LEN,
{
    reveal(digest_of);
    lemma_auto_spec_u64_to_from_le_bytes();
}
} // verus!
