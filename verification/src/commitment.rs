//! The commitment calculator: a deterministic digest of a ledger snapshot.
//!
//! The digest folds address, nonce and balance of every account, in address
//! order, into a 64-bit accumulator and serializes it big-endian. Because the
//! store keeps entries sorted by address, the commitment is a pure function
//! of the account mapping: two stores with identical contents commit
//! identically regardless of insertion order. The fold is a fast placeholder
//! for a collision-resistant commitment; only determinism and
//! order-independence are relied on here, and the function is meant to be
//! swapped for a cryptographic one in a deployment where proofs carry
//! economic weight.

use vstd::prelude::*;
use crate::state::{EntryModel, RollupState};

verus! {

/// The multiplier of one folding step.
pub const DIGEST_MULTIPLIER: u64 = 0x100000001b3;

/// The accumulator's starting value.
pub const DIGEST_SEED: u64 = 0xcbf29ce484222325;

/// One folding step: multiply the accumulator and add the next word, both
/// wrapping at 64 bits.
pub open spec fn mix(h: u64, x: u64) -> u64 {
    h.wrapping_mul(DIGEST_MULTIPLIER).wrapping_add(x)
}

/// Folds a byte string into the accumulator, first byte first.
pub open spec fn mix_bytes(h: u64, bs: Seq<u8>) -> u64
    decreases bs.len(),
{
    if bs.len() <= 0 {
        h
    } else {
        mix_bytes(mix(h, bs[0] as u64), bs.skip(1))
    }
}

/// Folding one more byte extends the fold by one step.
pub proof fn lemma_mix_bytes_push(h: u64, bs: Seq<u8>, x: u8)
    ensures
        mix_bytes(h, bs.push(x)) == mix(mix_bytes(h, bs), x as u64),
    decreases bs.len(),
{
    if bs.len() == 0 {
        assert(bs.push(x)[0] == x);
        assert(bs.push(x).skip(1) =~= Seq::<u8>::empty());
        assert(mix_bytes(mix(h, x as u64), bs.push(x).skip(1)) == mix(h, x as u64));
    } else {
        assert(bs.push(x)[0] == bs[0]);
        assert(bs.push(x).skip(1) =~= bs.skip(1).push(x));
        lemma_mix_bytes_push(mix(h, bs[0] as u64), bs.skip(1), x);
    }
}

/// Folds one entry: its address bytes, then its nonce, then its balance
/// bytes.
pub open spec fn mix_entry(h: u64, e: EntryModel) -> u64 {
    mix_bytes(mix(mix_bytes(h, e.addr), e.account.nonce), e.account.balance)
}

/// Folds a sequence of entries, first entry first.
pub open spec fn mix_entries(h: u64, s: Seq<EntryModel>) -> u64
    decreases s.len(),
{
    if s.len() <= 0 {
        h
    } else {
        mix_entries(mix_entry(h, s[0]), s.skip(1))
    }
}

/// Folding one more entry extends the fold by one step.
pub proof fn lemma_mix_entries_push(h: u64, s: Seq<EntryModel>, e: EntryModel)
    ensures
        mix_entries(h, s.push(e)) == mix_entry(mix_entries(h, s), e),
    decreases s.len(),
{
    if s.len() == 0 {
        assert(s.push(e)[0] == e);
        assert(s.push(e).skip(1) =~= Seq::<EntryModel>::empty());
        assert(mix_entries(mix_entry(h, e), s.push(e).skip(1)) == mix_entry(h, e));
    } else {
        assert(s.push(e)[0] == s[0]);
        assert(s.push(e).skip(1) =~= s.skip(1).push(e));
        lemma_mix_entries_push(mix_entry(h, s[0]), s.skip(1), e);
    }
}

/// The 64-bit digest of a store model.
pub open spec fn state_digest(s: Seq<EntryModel>) -> u64 {
    mix_entries(DIGEST_SEED, s)
}

/// Byte `i` of the big-endian serialization of `h`.
pub open spec fn root_byte(h: u64, i: int) -> u8 {
    (((h >> ((56 - 8 * i) as u64)) & 0xff) as u8)
}

/// The big-endian serialization of `h`: 8 bytes, most significant first.
pub open spec fn root_bytes(h: u64) -> Seq<u8> {
    Seq::new(8, |i: int| root_byte(h, i))
}

/// The state root of a store model: the serialized digest.
pub open spec fn root_model(s: Seq<EntryModel>) -> Seq<u8> {
    root_bytes(state_digest(s))
}

/// One executable folding step.
fn mix_u64(h: u64, x: u64) -> (r: u64)
    ensures
        r == mix(h, x),
{
    h.wrapping_mul(DIGEST_MULTIPLIER).wrapping_add(x)
}

/// Folds a byte slice into the accumulator.
fn mix_slice(h: u64, bytes: &[u8]) -> (r: u64)
    ensures
        r == mix_bytes(h, bytes@),
{
    let mut acc = h;
    let n = bytes.len();
    let mut i: usize = 0;
    proof {
        assert(bytes@.take(0) =~= Seq::<u8>::empty());
    }
    while i < n
        invariant
            0 <= i <= n,
            n == bytes@.len(),
            acc == mix_bytes(h, bytes@.take(i as int)),
        decreases n - i,
    {
        acc = mix_u64(acc, bytes[i] as u64);
        proof {
            assert(bytes@.take(i + 1) =~= bytes@.take(i as int).push(bytes@[i as int]));
            lemma_mix_bytes_push(h, bytes@.take(i as int), bytes@[i as int]);
        }
        i = i + 1;
    }
    proof {
        assert(bytes@.take(n as int) =~= bytes@);
    }
    acc
}

/// Computes the state root of a ledger snapshot: fold every entry in address
/// order, then serialize the accumulator big-endian.
pub fn state_root_for(state: &RollupState) -> (r: Vec<u8>)
    ensures
        r@ == root_model(state@),
{
    let n = state.entry_count();
    let mut h = DIGEST_SEED;
    let mut i: usize = 0;
    proof {
        assert(state@.take(0) =~= Seq::<EntryModel>::empty());
    }
    while i < n
        invariant
            0 <= i <= n,
            n == state@.len(),
            h == mix_entries(DIGEST_SEED, state@.take(i as int)),
        decreases n - i,
    {
        let ghost h0 = h;
        let e = state.entry_at(i);
        h = mix_slice(h, e.address.as_slice());
        h = mix_u64(h, e.account.nonce);
        h = mix_slice(h, e.account.balance.as_slice());
        proof {
            assert(h == mix_entry(h0, state@[i as int]));
            assert(state@.take(i + 1) =~= state@.take(i as int).push(state@[i as int]));
            lemma_mix_entries_push(DIGEST_SEED, state@.take(i as int), state@[i as int]);
        }
        i = i + 1;
    }
    proof {
        assert(state@.take(n as int) =~= state@);
    }
    let mut r: Vec<u8> = Vec::new();
    let mut k: usize = 0;
    while k < 8
        invariant
            0 <= k <= 8,
            r@.len() == k,
            forall|j: int| 0 <= j < k ==> r@[j] == root_byte(h, j),
        decreases 8 - k,
    {
        let sh: u64 = 56 - 8 * (k as u64);
        let masked: u64 = (h >> sh) & 0xff;
        proof {
            assert((h >> sh) & 0xff < 256) by (bit_vector);
        }
        assert(masked as u8 == root_byte(h, k as int));
        r.push(masked as u8);
        k = k + 1;
    }
    assert(r@ =~= root_bytes(state_digest(state@)));
    r
}

/// Compares two byte vectors for equality.
pub fn bytes_eq(a: &Vec<u8>, b: &Vec<u8>) -> (r: bool)
    ensures
        r == (a@ == b@),
{
    if a.len() != b.len() {
        return false;
    }
    let n = a.len();
    let mut i: usize = 0;
    while i < n
        invariant
            0 <= i <= n,
            n == a@.len(),
            n == b@.len(),
            forall|j: int| 0 <= j < i ==> a@[j] == b@[j],
        decreases n - i,
    {
        if a[i] != b[i] {
            return false;
        }
        i = i + 1;
    }
    proof {
        assert(a@ =~= b@);
    }
    true
}

} // verus!
