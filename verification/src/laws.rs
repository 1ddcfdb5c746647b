//! System-wide laws of the rollup engine, proved over its models.
//!
//! The chain invariant of the update log is part of the rollup's
//! well-formedness and is exposed as `OptimisticRollup::lemma_chain_invariant`;
//! the laws here relate replay, nonces and fraud proofs across functions.

use vstd::prelude::*;
use crate::state::{
    EntryModel, AccountModel, account_of, upsert, transfer_model, bump_nonce_model, sat_sub_bytes,
    sat_add_bytes, lemma_account_of_upsert_same, lemma_account_of_upsert_other, wf_state,
    contains_addr, lemma_canonical_representation,
};
use crate::tx::{TxModel, SignerRecovery};
use crate::commitment::root_model;
use crate::rollup::{
    UpdateModel, FraudProofModel, apply_tx_model, apply_txs_model, replay_to, generate_model,
    verify_model,
};

verus! {

/// Replay is deterministic: applying the same ordered transaction sequence
/// to the same state through the same signer-recovery capability yields the
/// same state and hence the same commitment, however often it is repeated.
/// Every executable replay path is proved equal to `apply_txs_model`, so any
/// two independent replayers agree byte for byte.
pub proof fn lemma_replay_deterministic<R: SignerRecovery>(
    r: R,
    genesis: Seq<EntryModel>,
    txs1: Seq<TxModel>,
    txs2: Seq<TxModel>,
)
    requires
        txs1 == txs2,
    ensures
        apply_txs_model(r, genesis, txs1) == apply_txs_model(r, genesis, txs2),
        root_model(apply_txs_model(r, genesis, txs1)) == root_model(
            apply_txs_model(r, genesis, txs2),
        ),
{
}

/// The commitment is a pure, order-independent function of the account
/// mapping: two well-formed stores that hold the same addresses with the
/// same accounts commit to the same state root, however their entries were
/// inserted.
pub proof fn lemma_commitment_order_independent(s1: Seq<EntryModel>, s2: Seq<EntryModel>)
    requires
        wf_state(s1),
        wf_state(s2),
        forall|a: Seq<u8>| contains_addr(s1, a) == contains_addr(s2, a),
        forall|a: Seq<u8>| account_of(s1, a) == account_of(s2, a),
    ensures
        root_model(s1) == root_model(s2),
{
    lemma_canonical_representation(s1, s2);
}

/// How many of `txs` the capability attributes to sender `a`.
pub open spec fn sender_count<R: SignerRecovery>(r: R, txs: Seq<TxModel>, a: Seq<u8>) -> nat
    decreases txs.len(),
{
    if txs.len() <= 0 {
        0
    } else {
        (if r.recover_spec(txs[0]) == Some(a) {
            1nat
        } else {
            0nat
        }) + sender_count(r, txs.skip(1), a)
    }
}

/// A transfer never changes any account's nonce: both rewritten entries keep
/// the nonce they were read with.
proof fn lemma_transfer_model_nonce(
    s: Seq<EntryModel>,
    f: Seq<u8>,
    t: Seq<u8>,
    v: Seq<u8>,
    a: Seq<u8>,
)
    ensures
        account_of(transfer_model(s, f, t, v), a).nonce == account_of(s, a).nonce,
{
    let fa = account_of(s, f);
    let s1 = upsert(s, f, fa);
    let ta = account_of(s1, t);
    let s2 = upsert(s1, t, ta);
    let nf = AccountModel { nonce: fa.nonce, balance: sat_sub_bytes(fa.balance, v) };
    let s3 = upsert(s2, f, nf);
    let nt = AccountModel { nonce: ta.nonce, balance: sat_add_bytes(ta.balance, v) };
    if a == t {
        lemma_account_of_upsert_same(s3, t, nt);
        if t == f {
            lemma_account_of_upsert_same(s, f, fa);
        } else {
            lemma_account_of_upsert_other(s, f, fa, t);
        }
    } else {
        lemma_account_of_upsert_other(s3, t, nt, a);
        if a == f {
            lemma_account_of_upsert_same(s2, f, nf);
        } else {
            lemma_account_of_upsert_other(s2, f, nf, a);
            lemma_account_of_upsert_other(s1, t, ta, a);
            lemma_account_of_upsert_other(s, f, fa, a);
        }
    }
}

/// Incrementing the nonce of `b` raises exactly that account's nonce by one
/// (wrapping at the 64-bit boundary) and no other.
proof fn lemma_bump_nonce_model_nonce(s: Seq<EntryModel>, b: Seq<u8>, a: Seq<u8>)
    ensures
        account_of(bump_nonce_model(s, b), a).nonce == (if a == b {
            account_of(s, b).nonce.wrapping_add(1)
        } else {
            account_of(s, a).nonce
        }),
{
    let acct = account_of(s, b);
    let s1 = upsert(s, b, acct);
    let na = AccountModel { nonce: acct.nonce.wrapping_add(1), balance: acct.balance };
    if a == b {
        lemma_account_of_upsert_same(s1, b, na);
    } else {
        lemma_account_of_upsert_other(s1, b, na, a);
        lemma_account_of_upsert_other(s, b, acct, a);
    }
}

/// One transaction raises the recovered sender's nonce by exactly one
/// (wrapping) — whether or not the transfer itself was economically valid,
/// and also for contract creations — and leaves every other nonce unchanged.
pub proof fn lemma_apply_tx_nonce<R: SignerRecovery>(
    r: R,
    s: Seq<EntryModel>,
    tx: TxModel,
    a: Seq<u8>,
)
    ensures
        account_of(apply_tx_model(r, s, tx), a).nonce == (if r.recover_spec(tx) == Some(a) {
            account_of(s, a).nonce.wrapping_add(1)
        } else {
            account_of(s, a).nonce
        }),
{
    match r.recover_spec(tx) {
        None => {},
        Some(from) => {
            let moved = match tx.to {
                Some(to) => transfer_model(s, from, to, tx.value),
                None => s,
            };
            match tx.to {
                Some(to) => {
                    lemma_transfer_model_nonce(s, from, to, tx.value, a);
                },
                None => {},
            }
            lemma_bump_nonce_model_nonce(moved, from, a);
        },
    }
}

/// Nonce monotonicity: an address attributed as sender of `N` of the
/// replayed transactions ends with its starting nonce plus exactly `N`, as
/// long as that sum stays within the 64-bit counter.
pub proof fn lemma_nonce_monotonic<R: SignerRecovery>(
    r: R,
    genesis: Seq<EntryModel>,
    txs: Seq<TxModel>,
    a: Seq<u8>,
)
    requires
        account_of(genesis, a).nonce + sender_count(r, txs, a) <= u64::MAX,
    ensures
        account_of(apply_txs_model(r, genesis, txs), a).nonce == account_of(genesis, a).nonce
            + sender_count(r, txs, a),
    decreases txs.len(),
{
    if txs.len() > 0 {
        let s1 = apply_tx_model(r, genesis, txs[0]);
        lemma_apply_tx_nonce(r, genesis, txs[0], a);
        lemma_nonce_monotonic(r, s1, txs.skip(1), a);
    }
}

/// Fraud-proof round trip: a proof generated for any valid index pair
/// verifies.
pub proof fn lemma_fraud_proof_round_trip<R: SignerRecovery>(
    r: R,
    log: Seq<UpdateModel>,
    ui: int,
    ti: int,
)
    requires
        0 <= ui < log.len(),
        0 <= ti < log[ui].transactions.len(),
    ensures
        verify_model(r, log, generate_model(r, log, ui, ti)),
{
}

/// Tamper detection, pre-commitment: changing the pre-commitment of a
/// generated proof — and nothing else — makes verification reject it, since
/// the verifier recomputes that commitment from the log alone.
pub proof fn lemma_tampered_pre_commitment_rejected<R: SignerRecovery>(
    r: R,
    log: Seq<UpdateModel>,
    ui: int,
    ti: int,
    tampered: FraudProofModel,
)
    requires
        0 <= ui < log.len(),
        0 <= ti < log[ui].transactions.len(),
        tampered.update_index == ui,
        tampered.tx_index == ti,
        tampered.tx == generate_model(r, log, ui, ti).tx,
        tampered.post_fraud_root == generate_model(r, log, ui, ti).post_fraud_root,
        tampered.pre_fraud_root != generate_model(r, log, ui, ti).pre_fraud_root,
    ensures
        !verify_model(r, log, tampered),
{
}

/// Tamper detection, post-commitment: changing the post-commitment of a
/// generated proof — and nothing else — makes verification reject it.
pub proof fn lemma_tampered_post_commitment_rejected<R: SignerRecovery>(
    r: R,
    log: Seq<UpdateModel>,
    ui: int,
    ti: int,
    tampered: FraudProofModel,
)
    requires
        0 <= ui < log.len(),
        0 <= ti < log[ui].transactions.len(),
        tampered.update_index == ui,
        tampered.tx_index == ti,
        tampered.tx == generate_model(r, log, ui, ti).tx,
        tampered.pre_fraud_root == generate_model(r, log, ui, ti).pre_fraud_root,
        tampered.post_fraud_root != generate_model(r, log, ui, ti).post_fraud_root,
    ensures
        !verify_model(r, log, tampered),
{
}

} // verus!
