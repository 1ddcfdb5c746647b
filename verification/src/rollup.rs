//! The rollup engine: batch processing, the update log, and fraud proofs.
//!
//! A `BatchProcessor` role is played by `process_transaction_batch`, the only
//! writer of canonical state: it commits the state before and after applying
//! a batch and appends the result to the append-only update log. Fraud-proof
//! generation and verification are read-only consumers: each replays history
//! from an empty genesis state with the same state-transition function and
//! the same signer-recovery capability as live processing, so the two paths
//! cannot diverge.

use vstd::prelude::*;
use crate::state::{
    Account, AccountModel, EntryModel, RollupState, account_of, upsert, transfer_model,
    bump_nonce_model,
};
use crate::tx::{Transaction, TxModel, SignatureError, SignerRecovery};
use crate::commitment::{root_model, state_root_for, bytes_eq};

verus! {

/// The models of a sequence of transactions.
pub open spec fn tx_models(ts: Seq<Transaction>) -> Seq<TxModel> {
    ts.map_values(|t: Transaction| t@)
}

/// The state transition of one transaction: when the signer is recovered,
/// the value moves (unless the transaction creates a contract, which is
/// accepted but moves nothing) and the sender's nonce increases by one; when
/// recovery fails, the state is unchanged.
pub open spec fn apply_tx_model<R: SignerRecovery>(
    r: R,
    s: Seq<EntryModel>,
    tx: TxModel,
) -> Seq<EntryModel> {
    match r.recover_spec(tx) {
        None => s,
        Some(from) => {
            let moved = match tx.to {
                Some(to) => transfer_model(s, from, to, tx.value),
                None => s,
            };
            bump_nonce_model(moved, from)
        },
    }
}

/// Applies an ordered transaction sequence, first transaction first.
pub open spec fn apply_txs_model<R: SignerRecovery>(
    r: R,
    s: Seq<EntryModel>,
    txs: Seq<TxModel>,
) -> Seq<EntryModel>
    decreases txs.len(),
{
    if txs.len() <= 0 {
        s
    } else {
        apply_txs_model(r, apply_tx_model(r, s, txs[0]), txs.skip(1))
    }
}

/// Applying one more transaction extends the fold by one step.
pub proof fn lemma_apply_txs_push<R: SignerRecovery>(
    r: R,
    s: Seq<EntryModel>,
    txs: Seq<TxModel>,
    tx: TxModel,
)
    ensures
        apply_txs_model(r, s, txs.push(tx)) == apply_tx_model(r, apply_txs_model(r, s, txs), tx),
    decreases txs.len(),
{
    if txs.len() == 0 {
        assert(txs.push(tx)[0] == tx);
        assert(txs.push(tx).skip(1) =~= Seq::<TxModel>::empty());
        assert(apply_txs_model(r, apply_tx_model(r, s, tx), txs.push(tx).skip(1)) == apply_tx_model(
            r,
            s,
            tx,
        ));
    } else {
        assert(txs.push(tx)[0] == txs[0]);
        assert(txs.push(tx).skip(1) =~= txs.skip(1).push(tx));
        lemma_apply_txs_push(r, apply_tx_model(r, s, txs[0]), txs.skip(1), tx);
    }
}

/// The model of one update-log entry.
pub struct UpdateModel {
    pub transactions: Seq<TxModel>,
    pub old_state_root: Seq<u8>,
    pub new_state_root: Seq<u8>,
}

/// One entry of the append-only update log: an ordered batch with the state
/// roots committed before and after it was applied.
pub struct StateUpdate {
    pub transactions: Vec<Transaction>,
    pub old_state_root: Vec<u8>,
    pub new_state_root: Vec<u8>,
}

impl View for StateUpdate {
    type V = UpdateModel;

    open spec fn view(&self) -> UpdateModel {
        UpdateModel {
            transactions: tx_models(self.transactions@),
            old_state_root: self.old_state_root@,
            new_state_root: self.new_state_root@,
        }
    }
}

/// The state reached by replaying the first `n` updates of the log from an
/// empty genesis state.
pub open spec fn replay_prefix<R: SignerRecovery>(
    r: R,
    log: Seq<UpdateModel>,
    n: int,
) -> Seq<EntryModel>
    decreases n,
{
    if n <= 0 {
        Seq::empty()
    } else {
        apply_txs_model(r, replay_prefix(r, log, n - 1), log[n - 1].transactions)
    }
}

/// The state just before transaction `ti` of update `ui`: every earlier
/// update in full, then the first `ti` transactions of update `ui`.
pub open spec fn replay_to<R: SignerRecovery>(
    r: R,
    log: Seq<UpdateModel>,
    ui: int,
    ti: int,
) -> Seq<EntryModel> {
    apply_txs_model(r, replay_prefix(r, log, ui), log[ui].transactions.take(ti))
}

/// The model of a fraud proof.
pub struct FraudProofModel {
    pub update_index: int,
    pub tx_index: int,
    pub pre_fraud_root: Seq<u8>,
    pub post_fraud_root: Seq<u8>,
    pub tx: TxModel,
}

/// A self-contained claim that applying one disputed transaction to the
/// replayed pre-state yields the packaged commitments.
pub struct FraudProof {
    pub update_index: usize,
    pub fraudulent_tx_index: usize,
    pub pre_fraud_root: Vec<u8>,
    pub post_fraud_root: Vec<u8>,
    pub fraudulent_tx: Transaction,
}

impl View for FraudProof {
    type V = FraudProofModel;

    open spec fn view(&self) -> FraudProofModel {
        FraudProofModel {
            update_index: self.update_index as int,
            tx_index: self.fraudulent_tx_index as int,
            pre_fraud_root: self.pre_fraud_root@,
            post_fraud_root: self.post_fraud_root@,
            tx: self.fraudulent_tx@,
        }
    }
}

/// The proof that `generate_fraud_proof` packages for a valid index pair.
pub open spec fn generate_model<R: SignerRecovery>(
    r: R,
    log: Seq<UpdateModel>,
    ui: int,
    ti: int,
) -> FraudProofModel {
    let pre = replay_to(r, log, ui, ti);
    let tx = log[ui].transactions[ti];
    FraudProofModel {
        update_index: ui,
        tx_index: ti,
        pre_fraud_root: root_model(pre),
        post_fraud_root: root_model(apply_tx_model(r, pre, tx)),
        tx: tx,
    }
}

/// What `verify_fraud_proof` accepts: the proof's indices are within the log
/// (an out-of-range proof is rejected rather than faulting), the replayed
/// pre-state commits to the packaged pre-commitment, and applying the
/// packaged transaction — not the log's own copy — commits to the packaged
/// post-commitment.
pub open spec fn verify_model<R: SignerRecovery>(
    r: R,
    log: Seq<UpdateModel>,
    p: FraudProofModel,
) -> bool {
    &&& 0 <= p.update_index < log.len()
    &&& 0 <= p.tx_index <= log[p.update_index].transactions.len()
    &&& p.pre_fraud_root == root_model(replay_to(r, log, p.update_index, p.tx_index))
    &&& p.post_fraud_root == root_model(
        apply_tx_model(r, replay_to(r, log, p.update_index, p.tx_index), p.tx),
    )
}

/// The rollup: canonical state, the append-only update log, and the injected
/// signer-recovery capability shared by live processing and replay.
pub struct OptimisticRollup<R: SignerRecovery> {
    signer: R,
    state: RollupState,
    state_updates: Vec<StateUpdate>,
}

impl<R: SignerRecovery> OptimisticRollup<R> {
    /// The injected signer-recovery capability.
    pub closed spec fn signer_model(&self) -> R {
        self.signer
    }

    /// The canonical state's model.
    pub closed spec fn state_model(&self) -> Seq<EntryModel> {
        self.state@
    }

    /// The update log's model.
    pub closed spec fn log_model(&self) -> Seq<UpdateModel> {
        self.state_updates@.map_values(|u: StateUpdate| u@)
    }

    /// The canonical state is well formed.
    pub closed spec fn state_wf(&self) -> bool {
        self.state.wf()
    }

    /// The rollup invariant: the state is well formed, adjacent log entries
    /// chain (each update's post-commitment is the next one's
    /// pre-commitment), and the last update's post-commitment is the
    /// commitment of the canonical state.
    pub closed spec fn wf(&self) -> bool {
        &&& self.state.wf()
        &&& forall|i: int|
            #![trigger self.log_model()[i]]
            0 <= i && i + 1 < self.log_model().len() ==> self.log_model()[i].new_state_root
                == self.log_model()[i + 1].old_state_root
        &&& self.log_model().len() > 0 ==> self.log_model().last().new_state_root == root_model(
            self.state@,
        )
    }

    /// The chain invariant, exposed: in a well-formed rollup, every adjacent
    /// pair of log entries satisfies
    /// `update[i].post_commitment == update[i + 1].pre_commitment`.
    pub proof fn lemma_chain_invariant(&self)
        requires
            self.wf(),
        ensures
            forall|i: int|
                #![trigger self.log_model()[i]]
                0 <= i && i + 1 < self.log_model().len() ==> self.log_model()[i].new_state_root
                    == self.log_model()[i + 1].old_state_root,
    {
    }

    /// A well-formed rollup has a well-formed state.
    pub proof fn lemma_wf_state_wf(&self)
        requires
            self.wf(),
        ensures
            self.state_wf(),
    {
    }

    /// A fresh rollup: empty state, empty log.
    pub fn new(signer: R) -> (r: Self)
        ensures
            r.wf(),
            r.signer_model() == signer,
            r.state_model() == Seq::<EntryModel>::empty(),
            r.log_model() == Seq::<UpdateModel>::empty(),
    {
        let r = OptimisticRollup { signer, state: RollupState::new(), state_updates: Vec::new() };
        proof {
            assert(r.log_model() =~= Seq::<UpdateModel>::empty());
        }
        r
    }

    /// Seeds an account before the first batch; the genesis state may be set
    /// up externally as long as no update has been logged yet.
    pub fn seed_account(&mut self, address: &[u8; 20], account: Account)
        requires
            old(self).wf(),
            old(self).log_model().len() == 0,
        ensures
            final(self).wf(),
            final(self).log_model() == old(self).log_model(),
            final(self).signer_model() == old(self).signer_model(),
            final(self).state_model() == upsert(old(self).state_model(), address@, account@),
    {
        self.state.upsert_account(address, account);
    }

    /// The account held at `address` in the canonical state.
    pub fn get_account(&self, address: &[u8; 20]) -> (r: Account)
        requires
            self.state_wf(),
        ensures
            r@ == account_of(self.state_model(), address@),
    {
        self.state.get_account(address)
    }

    /// The number of updates logged so far.
    pub fn update_count(&self) -> (n: usize)
        ensures
            n == self.log_model().len(),
    {
        self.state_updates.len()
    }

    /// The logged update at position `i`.
    pub fn update_at(&self, i: usize) -> (u: &StateUpdate)
        requires
            i < self.log_model().len(),
        ensures
            u@ == self.log_model()[i as int],
    {
        &self.state_updates[i]
    }

    /// Recovers the sender of `tx` through the injected capability.
    pub fn recover_signer(&self, tx: &Transaction) -> (r: Result<[u8; 20], SignatureError>)
        ensures
            match r {
                Ok(a) => self.signer_model().recover_spec(tx@) == Some(a@),
                Err(_) => self.signer_model().recover_spec(tx@) is None,
            },
    {
        self.signer.recover(tx)
    }

    /// Moves `value` between two accounts of an arbitrary state, creating
    /// default accounts as needed; balances saturate per byte.
    pub fn transfer_in_state(
        state: &mut RollupState,
        from: &[u8; 20],
        to: &[u8; 20],
        value: &[u8; 32],
    )
        requires
            old(state).wf(),
        ensures
            final(state).wf(),
            final(state)@ == transfer_model(old(state)@, from@, to@, value@),
    {
        state.apply_transfer(from, to, value);
    }

    /// Moves `value` between two accounts of the canonical state.
    pub fn transfer(&mut self, from: &[u8; 20], to: &[u8; 20], value: &[u8; 32])
        requires
            old(self).state_wf(),
        ensures
            final(self).state_wf(),
            final(self).state_model() == transfer_model(
                old(self).state_model(),
                from@,
                to@,
                value@,
            ),
            final(self).log_model() == old(self).log_model(),
            final(self).signer_model() == old(self).signer_model(),
    {
        Self::transfer_in_state(&mut self.state, from, to, value)
    }

    /// The single state-transition function: applies one transaction to an
    /// arbitrary state with the given capability. Both live processing and
    /// fraud-proof replay call exactly this function. A transaction whose
    /// signature admits no sender leaves the state unchanged.
    pub fn apply_transaction_to_state(signer: &R, state: &mut RollupState, tx: &Transaction)
        requires
            old(state).wf(),
        ensures
            final(state).wf(),
            final(state)@ == apply_tx_model(*signer, old(state)@, tx@),
    {
        match signer.recover(tx) {
            Err(_) => {},
            Ok(from) => {
                match tx.to {
                    Some(to) => {
                        Self::transfer_in_state(state, &from, &to, &tx.value);
                    },
                    None => {},
                }
                state.bump_nonce(&from);
            },
        }
    }

    /// Applies one transaction to the canonical state, reporting whether the
    /// signature admitted a sender; on failure the state is unchanged.
    pub fn apply_transaction(&mut self, tx: &Transaction) -> (r: Result<(), SignatureError>)
        requires
            old(self).state_wf(),
        ensures
            final(self).state_wf(),
            final(self).state_model() == apply_tx_model(
                old(self).signer_model(),
                old(self).state_model(),
                tx@,
            ),
            final(self).log_model() == old(self).log_model(),
            final(self).signer_model() == old(self).signer_model(),
            r is Ok <==> old(self).signer_model().recover_spec(tx@) is Some,
    {
        let rec = self.signer.recover(tx);
        Self::apply_transaction_to_state(&self.signer, &mut self.state, tx);
        match rec {
            Ok(_) => Ok(()),
            Err(e) => Err(e),
        }
    }

    /// Applies an ordered batch atomically: commit the state, apply every
    /// transaction in batch order, commit again, and append the update to
    /// the log.
    pub fn process_transaction_batch(&mut self, transactions: Vec<Transaction>)
        requires
            old(self).wf(),
        ensures
            final(self).wf(),
            final(self).signer_model() == old(self).signer_model(),
            final(self).state_model() == apply_txs_model(
                old(self).signer_model(),
                old(self).state_model(),
                tx_models(transactions@),
            ),
            final(self).log_model() == old(self).log_model().push(
                (UpdateModel {
                    transactions: tx_models(transactions@),
                    old_state_root: root_model(old(self).state_model()),
                    new_state_root: root_model(
                        apply_txs_model(
                            old(self).signer_model(),
                            old(self).state_model(),
                            tx_models(transactions@),
                        ),
                    ),
                }),
            ),
    {
        let old_state_root = state_root_for(&self.state);
        let n = transactions.len();
        let mut k: usize = 0;
        proof {
            assert(tx_models(transactions@).take(0) =~= Seq::<TxModel>::empty());
        }
        while k < n
            invariant
                0 <= k <= n,
                n == transactions@.len(),
                self.state.wf(),
                self.signer == old(self).signer,
                self.log_model() == old(self).log_model(),
                self.state@ == apply_txs_model(
                    old(self).signer,
                    old(self).state@,
                    tx_models(transactions@).take(k as int),
                ),
            decreases n - k,
        {
            let _ = self.apply_transaction(&transactions[k]);
            proof {
                assert(tx_models(transactions@)[k as int] == transactions@[k as int]@);
                assert(tx_models(transactions@).take(k + 1) =~= tx_models(transactions@).take(
                    k as int,
                ).push(transactions@[k as int]@));
                lemma_apply_txs_push(
                    old(self).signer,
                    old(self).state@,
                    tx_models(transactions@).take(k as int),
                    transactions@[k as int]@,
                );
            }
            k = k + 1;
        }
        proof {
            assert(tx_models(transactions@).take(n as int) =~= tx_models(transactions@));
        }
        let new_state_root = state_root_for(&self.state);
        let ghost old_log = self.log_model();
        let upd = StateUpdate { transactions, old_state_root, new_state_root };
        self.state_updates.push(upd);
        proof {
            assert(self.log_model() =~= old_log.push(upd@));
            let lg = self.log_model();
            assert forall|i: int|
                #![trigger lg[i]]
                0 <= i && i + 1 < lg.len() implies lg[i].new_state_root == lg[i
                + 1].old_state_root by {
                if i + 1 < old_log.len() {
                    assert(lg[i] == old_log[i]);
                    assert(lg[i + 1] == old_log[i + 1]);
                } else {
                    assert(lg[i] == old_log[i]);
                    assert(lg[i + 1] == upd@);
                    assert(old_log.last() == old_log[i]);
                }
            }
        }
    }

    /// Replays history from an empty genesis state up to (not including)
    /// transaction `tx_count` of update `update_index`, with the same
    /// transition function and capability as live processing.
    fn replay_history(&self, update_index: usize, tx_count: usize) -> (s: RollupState)
        requires
            update_index < self.log_model().len(),
            tx_count <= self.log_model()[update_index as int].transactions.len(),
        ensures
            s.wf(),
            s@ == replay_to(
                self.signer_model(),
                self.log_model(),
                update_index as int,
                tx_count as int,
            ),
    {
        let ghost log = self.log_model();
        let mut replay = RollupState::new();
        let mut i: usize = 0;
        while i < update_index
            invariant
                0 <= i <= update_index,
                update_index < log.len(),
                log == self.log_model(),
                log.len() == self.state_updates@.len(),
                tx_count <= log[update_index as int].transactions.len(),
                replay.wf(),
                replay@ == replay_prefix(self.signer, log, i as int),
            decreases update_index - i,
        {
            let txs = &self.state_updates[i].transactions;
            let ghost base = replay@;
            let m = txs.len();
            let mut j: usize = 0;
            proof {
                assert(log[i as int] == self.state_updates@[i as int]@);
                assert(log[i as int].transactions.take(0) =~= Seq::<TxModel>::empty());
            }
            while j < m
                invariant
                    0 <= j <= m,
                    i < log.len(),
                    log == self.log_model(),
                    m == log[i as int].transactions.len(),
                    txs@ == self.state_updates@[i as int].transactions@,
                    log[i as int] == self.state_updates@[i as int]@,
                    replay.wf(),
                    replay@ == apply_txs_model(
                        self.signer,
                        base,
                        log[i as int].transactions.take(j as int),
                    ),
                decreases m - j,
            {
                Self::apply_transaction_to_state(&self.signer, &mut replay, &txs[j]);
                proof {
                    assert(log[i as int].transactions[j as int] == txs@[j as int]@);
                    assert(log[i as int].transactions.take(j + 1) =~= log[
                        i as int
                    ].transactions.take(j as int).push(txs@[j as int]@));
                    lemma_apply_txs_push(
                        self.signer,
                        base,
                        log[i as int].transactions.take(j as int),
                        txs@[j as int]@,
                    );
                }
                j = j + 1;
            }
            proof {
                assert(log[i as int].transactions.take(m as int) =~= log[i as int].transactions);
            }
            i = i + 1;
        }
        let update = &self.state_updates[update_index];
        let ghost base = replay@;
        let mut j: usize = 0;
        proof {
            assert(log[update_index as int] == self.state_updates@[update_index as int]@);
            assert(log[update_index as int].transactions.take(0) =~= Seq::<TxModel>::empty());
        }
        while j < tx_count
            invariant
                0 <= j <= tx_count,
                update_index < log.len(),
                log == self.log_model(),
                tx_count <= log[update_index as int].transactions.len(),
                update.transactions@ == self.state_updates@[update_index as int].transactions@,
                log[update_index as int] == self.state_updates@[update_index as int]@,
                replay.wf(),
                base == replay_prefix(self.signer, log, update_index as int),
                replay@ == apply_txs_model(
                    self.signer,
                    base,
                    log[update_index as int].transactions.take(j as int),
                ),
            decreases tx_count - j,
        {
            Self::apply_transaction_to_state(&self.signer, &mut replay, &update.transactions[j]);
            proof {
                assert(log[update_index as int].transactions[j as int] == update.transactions@[
                    j as int
                ]@);
                assert(log[update_index as int].transactions.take(j + 1) =~= log[
                    update_index as int
                ].transactions.take(j as int).push(update.transactions@[j as int]@));
                lemma_apply_txs_push(
                    self.signer,
                    base,
                    log[update_index as int].transactions.take(j as int),
                    update.transactions@[j as int]@,
                );
            }
            j = j + 1;
        }
        replay
    }

    /// Packages a fraud proof for the transaction at `fraudulent_tx_index`
    /// of update `update_index`: the commitments of the independently
    /// replayed state just before and just after that transaction, together
    /// with the transaction itself. Returns nothing exactly when either
    /// index is out of range.
    pub fn generate_fraud_proof(&self, update_index: usize, fraudulent_tx_index: usize) -> (r:
        Option<FraudProof>)
        ensures
            r is Some <==> (update_index < self.log_model().len() && fraudulent_tx_index
                < self.log_model()[update_index as int].transactions.len()),
            r matches Some(p) ==> p@ == generate_model(
                self.signer_model(),
                self.log_model(),
                update_index as int,
                fraudulent_tx_index as int,
            ),
    {
        proof {
            assert(self.log_model().len() == self.state_updates@.len());
        }
        if update_index >= self.state_updates.len() {
            return None;
        }
        let update = &self.state_updates[update_index];
        proof {
            assert(self.log_model()[update_index as int] == self.state_updates@[
                update_index as int
            ]@);
        }
        if fraudulent_tx_index >= update.transactions.len() {
            return None;
        }
        let mut replay = self.replay_history(update_index, fraudulent_tx_index);
        let pre_fraud_root = state_root_for(&replay);
        let fraudulent_tx = update.transactions[fraudulent_tx_index].clone();
        proof {
            assert(self.log_model()[update_index as int].transactions[fraudulent_tx_index as int]
                == update.transactions@[fraudulent_tx_index as int]@);
        }
        Self::apply_transaction_to_state(&self.signer, &mut replay, &fraudulent_tx);
        let post_fraud_root = state_root_for(&replay);
        Some(
            FraudProof {
                update_index,
                fraudulent_tx_index,
                pre_fraud_root,
                post_fraud_root,
                fraudulent_tx,
            },
        )
    }

    /// Checks a fraud proof by replaying history independently: recompute
    /// the pre-commitment, apply the proof's own copy of the disputed
    /// transaction, and recompute the post-commitment. No field of the proof
    /// is trusted beyond the indices and that embedded transaction; a proof
    /// whose indices fall outside the log is rejected.
    pub fn verify_fraud_proof(&self, proof: &FraudProof) -> (r: bool)
        ensures
            r == verify_model(self.signer_model(), self.log_model(), proof@),
    {
        proof {
            assert(self.log_model().len() == self.state_updates@.len());
        }
        if proof.update_index >= self.state_updates.len() {
            return false;
        }
        let update = &self.state_updates[proof.update_index];
        proof {
            assert(self.log_model()[proof.update_index as int] == self.state_updates@[
                proof.update_index as int
            ]@);
        }
        if proof.fraudulent_tx_index > update.transactions.len() {
            return false;
        }
        let mut replay = self.replay_history(proof.update_index, proof.fraudulent_tx_index);
        let calculated_pre_fraud_root = state_root_for(&replay);
        if !bytes_eq(&calculated_pre_fraud_root, &proof.pre_fraud_root) {
            return false;
        }
        Self::apply_transaction_to_state(&self.signer, &mut replay, &proof.fraudulent_tx);
        let calculated_post_fraud_root = state_root_for(&replay);
        bytes_eq(&calculated_post_fraud_root, &proof.post_fraud_root)
    }

    /// The commitment of the canonical state.
    pub fn calculate_state_root(&self) -> (r: Vec<u8>)
        ensures
            r@ == root_model(self.state_model()),
    {
        Self::calculate_state_root_for(&self.state)
    }

    /// The commitment of an arbitrary ledger snapshot.
    pub fn calculate_state_root_for(state: &RollupState) -> (r: Vec<u8>)
        ensures
            r@ == root_model(state@),
    {
        state_root_for(state)
    }
}

} // verus!
