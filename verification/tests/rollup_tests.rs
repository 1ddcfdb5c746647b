use optimistic_rollup::rollup::{FraudProof, OptimisticRollup};
use optimistic_rollup::state::{Account, RollupState};
use optimistic_rollup::tx::{CheckedStubSigner, SignatureError, StubSigner, Transaction};

fn addr(byte: u8) -> [u8; 20] {
    [byte; 20]
}

fn quantity(byte31: u8) -> [u8; 32] {
    let mut q = [0u8; 32];
    q[31] = byte31;
    q
}

fn transfer_tx(nonce: u64, to: [u8; 20], value: [u8; 32]) -> Transaction {
    Transaction {
        nonce,
        gas_price: [0u8; 32],
        gas_limit: 21000,
        to: Some(to),
        value,
        data: vec![],
        v: 0,
        r: [0u8; 32],
        s: [0u8; 32],
    }
}

fn seeded_rollup() -> OptimisticRollup<StubSigner> {
    let mut rollup = OptimisticRollup::new(StubSigner {});
    rollup.seed_account(&addr(0), Account { nonce: 0, balance: quantity(200) });
    rollup
}

/// The concrete scenario: a funded transfer, then an underfunded one that
/// "succeeds" by byte-local saturation and is provably fraudulent.
#[test]
fn scenario_genesis_two_batches() {
    let mut rollup = seeded_rollup();

    rollup.process_transaction_batch(vec![transfer_tx(0, addr(1), quantity(100))]);
    let a0 = rollup.get_account(&addr(0));
    let a1 = rollup.get_account(&addr(1));
    assert_eq!(a0.balance[31], 100);
    assert_eq!(a1.balance[31], 100);
    assert_eq!(a0.nonce, 1);

    rollup.process_transaction_batch(vec![transfer_tx(1, addr(2), quantity(150))]);
    let a0 = rollup.get_account(&addr(0));
    let a2 = rollup.get_account(&addr(2));
    assert_eq!(a0.balance[31], 0, "100 - 150 saturates at 0 per byte");
    assert_eq!(a2.balance[31], 150);
    assert_eq!(a0.nonce, 2);

    let proof = rollup
        .generate_fraud_proof(1, 0)
        .expect("valid indices must yield a proof");
    assert_eq!(proof.update_index, 1);
    assert_eq!(proof.fraudulent_tx_index, 0);
    assert!(rollup.verify_fraud_proof(&proof));
}

#[test]
fn fraud_proof_round_trip_valid_pair() {
    let mut rollup = seeded_rollup();
    rollup.process_transaction_batch(vec![
        transfer_tx(0, addr(1), quantity(10)),
        transfer_tx(1, addr(2), quantity(20)),
    ]);
    rollup.process_transaction_batch(vec![transfer_tx(2, addr(3), quantity(30))]);

    for (ui, ti) in [(0usize, 0usize), (0, 1), (1, 0)] {
        let proof = rollup.generate_fraud_proof(ui, ti).expect("in range");
        assert!(rollup.verify_fraud_proof(&proof), "({ui}, {ti}) must verify");
    }
}

#[test]
fn tamper_pre_commitment_rejected() {
    let mut rollup = seeded_rollup();
    rollup.process_transaction_batch(vec![transfer_tx(0, addr(1), quantity(100))]);
    let mut proof = rollup.generate_fraud_proof(0, 0).expect("in range");
    proof.pre_fraud_root[0] = proof.pre_fraud_root[0].wrapping_add(1);
    assert!(!rollup.verify_fraud_proof(&proof));
}

#[test]
fn tamper_post_commitment_rejected() {
    let mut rollup = seeded_rollup();
    rollup.process_transaction_batch(vec![transfer_tx(0, addr(1), quantity(100))]);
    let mut proof = rollup.generate_fraud_proof(0, 0).expect("in range");
    let last = proof.post_fraud_root.len() - 1;
    proof.post_fraud_root[last] = proof.post_fraud_root[last].wrapping_add(1);
    assert!(!rollup.verify_fraud_proof(&proof));
}

#[test]
fn tamper_transaction_value_rejected() {
    let mut rollup = seeded_rollup();
    rollup.process_transaction_batch(vec![transfer_tx(0, addr(1), quantity(100))]);
    let mut proof = rollup.generate_fraud_proof(0, 0).expect("in range");
    proof.fraudulent_tx.value = quantity(99);
    assert!(!rollup.verify_fraud_proof(&proof));
}

#[test]
fn generate_out_of_range_returns_none() {
    let mut rollup = seeded_rollup();
    assert!(rollup.generate_fraud_proof(0, 0).is_none(), "empty log");

    rollup.process_transaction_batch(vec![transfer_tx(0, addr(1), quantity(1))]);
    assert!(rollup.generate_fraud_proof(1, 0).is_none(), "index == log length");
    assert!(rollup.generate_fraud_proof(7, 0).is_none(), "index beyond log length");
    assert!(rollup.generate_fraud_proof(0, 1).is_none(), "tx index == batch length");
    assert!(rollup.generate_fraud_proof(0, 9).is_none(), "tx index beyond batch length");
}

#[test]
fn verify_out_of_range_proof_rejected() {
    let mut rollup = seeded_rollup();
    rollup.process_transaction_batch(vec![transfer_tx(0, addr(1), quantity(100))]);
    let proof = rollup.generate_fraud_proof(0, 0).expect("in range");

    let bad_update = FraudProof {
        update_index: 5,
        fraudulent_tx_index: proof.fraudulent_tx_index,
        pre_fraud_root: proof.pre_fraud_root.clone(),
        post_fraud_root: proof.post_fraud_root.clone(),
        fraudulent_tx: proof.fraudulent_tx.clone(),
    };
    assert!(!rollup.verify_fraud_proof(&bad_update));

    let bad_tx_index = FraudProof {
        update_index: proof.update_index,
        fraudulent_tx_index: 9,
        pre_fraud_root: proof.pre_fraud_root.clone(),
        post_fraud_root: proof.post_fraud_root.clone(),
        fraudulent_tx: proof.fraudulent_tx.clone(),
    };
    assert!(!rollup.verify_fraud_proof(&bad_tx_index));
}

#[test]
fn replay_determinism() {
    let build = || {
        let mut rollup = seeded_rollup();
        rollup.process_transaction_batch(vec![transfer_tx(0, addr(1), quantity(100))]);
        rollup.process_transaction_batch(vec![transfer_tx(1, addr(2), quantity(150))]);
        rollup
    };
    let r1 = build();
    let r2 = build();
    assert_eq!(r1.calculate_state_root(), r2.calculate_state_root());

    let first = r1.generate_fraud_proof(1, 0).expect("in range");
    let again = r1.generate_fraud_proof(1, 0).expect("in range");
    let elsewhere = r2.generate_fraud_proof(1, 0).expect("in range");
    for other in [&again, &elsewhere] {
        assert_eq!(first.update_index, other.update_index);
        assert_eq!(first.fraudulent_tx_index, other.fraudulent_tx_index);
        assert_eq!(first.pre_fraud_root, other.pre_fraud_root);
        assert_eq!(first.post_fraud_root, other.post_fraud_root);
    }
}

#[test]
fn chain_invariant_adjacent_roots() {
    let mut rollup = seeded_rollup();
    rollup.process_transaction_batch(vec![transfer_tx(0, addr(1), quantity(5))]);
    rollup.process_transaction_batch(vec![transfer_tx(1, addr(2), quantity(7))]);
    rollup.process_transaction_batch(vec![]);
    assert_eq!(rollup.update_count(), 3);
    for i in 0..rollup.update_count() - 1 {
        assert_eq!(
            rollup.update_at(i).new_state_root,
            rollup.update_at(i + 1).old_state_root,
            "adjacent updates must chain at {i}"
        );
    }
}

#[test]
fn nonce_monotonicity_counts_senders() {
    let mut rollup = seeded_rollup();
    rollup.process_transaction_batch(vec![
        transfer_tx(0, addr(1), quantity(1)),
        transfer_tx(1, addr(2), quantity(1)),
        transfer_tx(2, addr(3), quantity(1)),
    ]);
    rollup.process_transaction_batch(vec![
        transfer_tx(3, addr(1), quantity(1)),
        transfer_tx(4, addr(2), quantity(1)),
    ]);
    // StubSigner attributes every transaction to the zero address.
    assert_eq!(rollup.get_account(&addr(0)).nonce, 5);
    assert_eq!(rollup.get_account(&addr(1)).nonce, 0);
}

#[test]
fn signature_error_halts_transaction() {
    let mut rollup = OptimisticRollup::new(CheckedStubSigner {});
    rollup.seed_account(&addr(0), Account { nonce: 0, balance: quantity(200) });
    let root_before = rollup.calculate_state_root();

    let mut bad = transfer_tx(0, addr(1), quantity(50));
    bad.v = 7;
    assert_eq!(
        rollup.apply_transaction(&bad),
        Err(SignatureError::InvalidSignature)
    );
    assert_eq!(rollup.calculate_state_root(), root_before, "state unchanged on failure");

    let good = transfer_tx(0, addr(1), quantity(50));
    assert_eq!(rollup.apply_transaction(&good), Ok(()));
    assert_eq!(rollup.get_account(&addr(1)).balance[31], 50);
    assert_eq!(rollup.get_account(&addr(0)).nonce, 1);
}

#[test]
fn invalid_signature_skipped_in_batch() {
    let mut rollup = OptimisticRollup::new(CheckedStubSigner {});
    rollup.seed_account(&addr(0), Account { nonce: 0, balance: quantity(200) });
    let mut bad = transfer_tx(0, addr(1), quantity(50));
    bad.v = 9;
    rollup.process_transaction_batch(vec![bad, transfer_tx(1, addr(2), quantity(30))]);
    assert_eq!(rollup.get_account(&addr(1)).balance[31], 0, "failed transfer moved nothing");
    assert_eq!(rollup.get_account(&addr(2)).balance[31], 30);
    assert_eq!(rollup.get_account(&addr(0)).nonce, 1, "only the recovered sender advances");

    // Replay agrees with live processing on the mixed batch.
    let proof = rollup.generate_fraud_proof(0, 1).expect("in range");
    assert!(rollup.verify_fraud_proof(&proof));
}

#[test]
fn empty_batch_commits_unchanged_root() {
    let mut rollup = seeded_rollup();
    rollup.process_transaction_batch(vec![]);
    assert_eq!(rollup.update_count(), 1);
    let update = rollup.update_at(0);
    assert_eq!(update.old_state_root, update.new_state_root);
    assert!(rollup.generate_fraud_proof(0, 0).is_none(), "no transaction to dispute");
}

#[test]
fn contract_creation_bumps_nonce_only() {
    let mut rollup = seeded_rollup();
    let mut creation = transfer_tx(0, addr(0), quantity(0));
    creation.to = None;
    creation.data = vec![0x60, 0x60, 0x60];
    rollup.process_transaction_batch(vec![creation]);
    let a0 = rollup.get_account(&addr(0));
    assert_eq!(a0.nonce, 1, "sender nonce advances");
    assert_eq!(a0.balance[31], 200, "no balance moves");
}

#[test]
fn saturating_byte_arithmetic() {
    let mut rollup = seeded_rollup();
    // 200 on byte 31; two transfers of 150 each saturate the sender at 0 and
    // cap the recipient's byte sum 150 + 150 at 255.
    rollup.transfer(&addr(0), &addr(9), &quantity(150));
    rollup.transfer(&addr(0), &addr(9), &quantity(150));
    assert_eq!(rollup.get_account(&addr(0)).balance[31], 0);
    assert_eq!(rollup.get_account(&addr(9)).balance[31], 255);
    assert_eq!(rollup.get_account(&addr(0)).nonce, 0, "transfer alone never touches nonces");
}

#[test]
fn commitment_is_order_independent() {
    let mut r1 = OptimisticRollup::new(StubSigner {});
    r1.seed_account(&addr(3), Account { nonce: 1, balance: quantity(10) });
    r1.seed_account(&addr(1), Account { nonce: 2, balance: quantity(20) });
    let mut r2 = OptimisticRollup::new(StubSigner {});
    r2.seed_account(&addr(1), Account { nonce: 2, balance: quantity(20) });
    r2.seed_account(&addr(3), Account { nonce: 1, balance: quantity(10) });
    assert_eq!(r1.calculate_state_root(), r2.calculate_state_root());
    assert_ne!(
        r1.calculate_state_root(),
        OptimisticRollup::new(StubSigner {}).calculate_state_root(),
        "different contents commit differently here"
    );
}

#[test]
fn recover_signer_returns_zero_address() {
    let rollup = seeded_rollup();
    let tx = transfer_tx(0, addr(1), quantity(1));
    assert_eq!(rollup.recover_signer(&tx), Ok([0u8; 20]));
}

#[test]
fn state_root_for_matches_canonical_root() {
    let fresh = RollupState::new();
    let rollup = OptimisticRollup::new(StubSigner {});
    assert_eq!(
        OptimisticRollup::<StubSigner>::calculate_state_root_for(&fresh),
        rollup.calculate_state_root()
    );
}

#[test]
fn update_log_records_batches() {
    let mut rollup = seeded_rollup();
    let root_before = rollup.calculate_state_root();
    rollup.process_transaction_batch(vec![
        transfer_tx(0, addr(1), quantity(2)),
        transfer_tx(1, addr(2), quantity(3)),
    ]);
    assert_eq!(rollup.update_count(), 1);
    let update = rollup.update_at(0);
    assert_eq!(update.transactions.len(), 2);
    assert_eq!(update.old_state_root, root_before);
    assert_eq!(update.new_state_root, rollup.calculate_state_root());
}
