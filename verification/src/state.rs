//! The account store: the canonical ledger mapping addresses to accounts.
//!
//! The store keeps its entries sorted strictly ascending by address, so the
//! sequence of entries is a canonical representation of the account mapping
//! and the commitment can fold over it directly. The mathematical model of a
//! store is the sequence of entry models; `upsert` and `account_of` are the
//! spec-level mutation and lookup that every executable operation is proved
//! against.

use vstd::prelude::*;
use crate::addr::{
    lex_lt, lemma_lex_lt_intro, lemma_lex_lt_irrefl, lemma_lex_lt_ne, lemma_lex_lt_trans,
    lemma_lex_lt_total, addr_cmp, AddrCmp,
};

verus! {

/// Mathematical model of an account.
pub struct AccountModel {
    pub nonce: u64,
    pub balance: Seq<u8>,
}

/// Mathematical model of one store entry.
pub struct EntryModel {
    pub addr: Seq<u8>,
    pub account: AccountModel,
}

/// The account every address holds before it is first touched.
pub open spec fn default_account_model() -> AccountModel {
    AccountModel { nonce: 0, balance: Seq::new(32, |i: int| 0u8) }
}

/// Byte-local saturating subtraction of two 32-byte quantities: each byte is
/// clamped at 0 independently, with no borrow between bytes.
pub open spec fn sat_sub_bytes(a: Seq<u8>, b: Seq<u8>) -> Seq<u8> {
    Seq::new(32, |i: int| a[i].saturating_sub(b[i]))
}

/// Byte-local saturating addition of two 32-byte quantities: each byte is
/// clamped at 255 independently, with no carry between bytes.
pub open spec fn sat_add_bytes(a: Seq<u8>, b: Seq<u8>) -> Seq<u8> {
    Seq::new(32, |i: int| a[i].saturating_add(b[i]))
}

/// The account held at `a`: the first entry with that address, or the default
/// account when none exists.
pub open spec fn account_of(s: Seq<EntryModel>, a: Seq<u8>) -> AccountModel
    decreases s.len(),
{
    if s.len() == 0 {
        default_account_model()
    } else if s[0].addr == a {
        s[0].account
    } else {
        account_of(s.skip(1), a)
    }
}

/// Stores `acct` under `a`: replaces the existing entry, or inserts a new one
/// at its sorted position.
pub open spec fn upsert(s: Seq<EntryModel>, a: Seq<u8>, acct: AccountModel) -> Seq<EntryModel>
    decreases s.len(),
{
    let e = EntryModel { addr: a, account: acct };
    if s.len() == 0 {
        seq![e]
    } else if lex_lt(a, s[0].addr) {
        seq![e] + s
    } else if s[0].addr == a {
        seq![e] + s.skip(1)
    } else {
        seq![s[0]] + upsert(s.skip(1), a, acct)
    }
}

/// Entries are sorted strictly ascending by address, so addresses are unique.
pub open spec fn sorted_by_addr(s: Seq<EntryModel>) -> bool {
    forall|i: int, j: int| 0 <= i < j < s.len() ==> lex_lt(s[i].addr, s[j].addr)
}

/// Every entry holds a 20-byte address and a 32-byte balance.
pub open spec fn entries_wf(s: Seq<EntryModel>) -> bool {
    forall|i: int|
        0 <= i < s.len() ==> (#[trigger] s[i]).addr.len() == 20 && s[i].account.balance.len()
            == 32
}

/// A well-formed store model: sorted and with fixed-width fields.
pub open spec fn wf_state(s: Seq<EntryModel>) -> bool {
    sorted_by_addr(s) && entries_wf(s)
}

proof fn lemma_tail_sorted(s: Seq<EntryModel>)
    requires
        sorted_by_addr(s),
        s.len() > 0,
    ensures
        sorted_by_addr(s.skip(1)),
{
    assert forall|i: int, j: int| 0 <= i < j < s.skip(1).len() implies lex_lt(
        s.skip(1)[i].addr,
        s.skip(1)[j].addr,
    ) by {
        assert(s.skip(1)[i] == s[i + 1]);
        assert(s.skip(1)[j] == s[j + 1]);
    }
}

proof fn lemma_tail_entries_wf(s: Seq<EntryModel>)
    requires
        entries_wf(s),
        s.len() > 0,
    ensures
        entries_wf(s.skip(1)),
{
    assert forall|i: int| 0 <= i < s.skip(1).len() implies (#[trigger] s.skip(1)[i]).addr.len()
        == 20 && s.skip(1)[i].account.balance.len() == 32 by {
        assert(s.skip(1)[i] == s[i + 1]);
    }
}

/// After storing `acct` under `a`, looking up `a` yields `acct`.
pub proof fn lemma_account_of_upsert_same(s: Seq<EntryModel>, a: Seq<u8>, acct: AccountModel)
    ensures
        account_of(upsert(s, a, acct), a) == acct,
    decreases s.len(),
{
    let e = EntryModel { addr: a, account: acct };
    let res = upsert(s, a, acct);
    if s.len() == 0 {
        assert(res[0] == e);
    } else if lex_lt(a, s[0].addr) {
        assert(res[0] == e);
    } else if s[0].addr == a {
        assert(res[0] == e);
    } else {
        assert(res[0] == s[0]);
        assert(res.skip(1) =~= upsert(s.skip(1), a, acct));
        lemma_account_of_upsert_same(s.skip(1), a, acct);
    }
}

/// Storing under `a` leaves every other address's account unchanged.
pub proof fn lemma_account_of_upsert_other(
    s: Seq<EntryModel>,
    a: Seq<u8>,
    acct: AccountModel,
    b: Seq<u8>,
)
    requires
        a != b,
    ensures
        account_of(upsert(s, a, acct), b) == account_of(s, b),
    decreases s.len(),
{
    let e = EntryModel { addr: a, account: acct };
    let res = upsert(s, a, acct);
    if s.len() == 0 {
        assert(res[0] == e);
        assert(res.skip(1) =~= Seq::<EntryModel>::empty());
        assert(account_of(res.skip(1), b) == default_account_model());
    } else if lex_lt(a, s[0].addr) {
        assert(res[0] == e);
        assert(res.skip(1) =~= s);
    } else if s[0].addr == a {
        assert(res[0] == e);
        assert(res.skip(1) =~= s.skip(1));
    } else {
        assert(res[0] == s[0]);
        assert(res.skip(1) =~= upsert(s.skip(1), a, acct));
        if s[0].addr == b {
        } else {
            lemma_account_of_upsert_other(s.skip(1), a, acct, b);
        }
    }
}

/// Storing a 32-byte account under a 20-byte address keeps the store
/// well formed, and introduces no address beyond `a` and those already
/// present.
pub proof fn lemma_upsert_wf(s: Seq<EntryModel>, a: Seq<u8>, acct: AccountModel)
    requires
        wf_state(s),
        a.len() == 20,
        acct.balance.len() == 32,
    ensures
        wf_state(upsert(s, a, acct)),
        forall|k: int|
            0 <= k < upsert(s, a, acct).len() ==> ((#[trigger] upsert(s, a, acct)[k]).addr == a
                || exists|i: int| 0 <= i < s.len() && s[i].addr == upsert(s, a, acct)[k].addr),
    decreases s.len(),
{
    let e = EntryModel { addr: a, account: acct };
    let res = upsert(s, a, acct);
    if s.len() == 0 {
        assert(res[0] == e);
    } else if lex_lt(a, s[0].addr) {
        assert(res =~= seq![e] + s);
        assert forall|i: int, j: int| 0 <= i < j < res.len() implies lex_lt(
            res[i].addr,
            res[j].addr,
        ) by {
            if i == 0 {
                assert(res[j] == s[j - 1]);
                if j - 1 > 0 {
                    lemma_lex_lt_trans(a, s[0].addr, s[j - 1].addr);
                }
            } else {
                assert(res[i] == s[i - 1]);
                assert(res[j] == s[j - 1]);
            }
        }
        assert forall|k: int| 0 <= k < res.len() implies ((#[trigger] res[k]).addr == a || exists|
            i: int,
        | 0 <= i < s.len() && s[i].addr == res[k].addr) by {
            if k > 0 {
                assert(res[k] == s[k - 1]);
                assert(s[k - 1].addr == res[k].addr);
            }
        }
        assert(entries_wf(res));
    } else if s[0].addr == a {
        assert(res =~= seq![e] + s.skip(1));
        assert forall|i: int, j: int| 0 <= i < j < res.len() implies lex_lt(
            res[i].addr,
            res[j].addr,
        ) by {
            if i == 0 {
                assert(res[j] == s.skip(1)[j - 1]);
                assert(s.skip(1)[j - 1] == s[j]);
                assert(lex_lt(s[0].addr, s[j].addr));
            } else {
                assert(res[i] == s[i]);
                assert(res[j] == s[j]);
            }
        }
        assert forall|k: int| 0 <= k < res.len() implies ((#[trigger] res[k]).addr == a || exists|
            i: int,
        | 0 <= i < s.len() && s[i].addr == res[k].addr) by {
            if k > 0 {
                assert(res[k] == s[k]);
                assert(s[k].addr == res[k].addr);
            }
        }
        assert(entries_wf(res));
    } else {
        lemma_lex_lt_total(a, s[0].addr);
        assert(lex_lt(s[0].addr, a));
        lemma_tail_sorted(s);
        lemma_tail_entries_wf(s);
        lemma_upsert_wf(s.skip(1), a, acct);
        let u = upsert(s.skip(1), a, acct);
        assert(res =~= seq![s[0]] + u);
        assert forall|i: int, j: int| 0 <= i < j < res.len() implies lex_lt(
            res[i].addr,
            res[j].addr,
        ) by {
            if i == 0 {
                assert(res[j] == u[j - 1]);
                if u[j - 1].addr == a {
                    assert(lex_lt(s[0].addr, a));
                } else {
                    let w = choose|w: int|
                        0 <= w < s.skip(1).len() && s.skip(1)[w].addr == u[j - 1].addr;
                    assert(s.skip(1)[w] == s[w + 1]);
                    assert(lex_lt(s[0].addr, s[w + 1].addr));
                }
            } else {
                assert(res[i] == u[i - 1]);
                assert(res[j] == u[j - 1]);
            }
        }
        assert forall|k: int| 0 <= k < res.len() implies ((#[trigger] res[k]).addr == a || exists|
            i: int,
        | 0 <= i < s.len() && s[i].addr == res[k].addr) by {
            if k == 0 {
                assert(res[0] == s[0]);
                assert(s[0].addr == res[0].addr);
            } else {
                assert(res[k] == u[k - 1]);
                if u[k - 1].addr != a {
                    let w = choose|w: int|
                        0 <= w < s.skip(1).len() && s.skip(1)[w].addr == u[k - 1].addr;
                    assert(s.skip(1)[w] == s[w + 1]);
                    assert(s[w + 1].addr == res[k].addr);
                }
            }
        }
        assert(entries_wf(res)) by {
            assert forall|k: int| 0 <= k < res.len() implies (#[trigger] res[k]).addr.len() == 20
                && res[k].account.balance.len() == 32 by {
                if k == 0 {
                    assert(res[0] == s[0]);
                } else {
                    assert(res[k] == u[k - 1]);
                }
            }
        }
    }
}

/// When `p` is the sorted position of an absent address, `upsert` is exactly
/// insertion at `p`.
pub proof fn lemma_upsert_is_insert(s: Seq<EntryModel>, a: Seq<u8>, acct: AccountModel, p: int)
    requires
        sorted_by_addr(s),
        0 <= p <= s.len(),
        forall|j: int| 0 <= j < p ==> lex_lt(s[j].addr, a),
        p < s.len() ==> lex_lt(a, s[p].addr),
    ensures
        upsert(s, a, acct) == s.insert(p, EntryModel { addr: a, account: acct }),
    decreases s.len(),
{
    let e = EntryModel { addr: a, account: acct };
    if s.len() == 0 {
        assert(upsert(s, a, acct) =~= s.insert(0, e));
    } else if p == 0 {
        assert(lex_lt(a, s[0].addr));
        assert(upsert(s, a, acct) =~= s.insert(0, e));
    } else {
        assert(lex_lt(s[0].addr, a));
        if lex_lt(a, s[0].addr) {
            lemma_lex_lt_trans(s[0].addr, a, s[0].addr);
            lemma_lex_lt_irrefl(s[0].addr);
        }
        lemma_lex_lt_ne(s[0].addr, a);
        lemma_tail_sorted(s);
        assert forall|j: int| 0 <= j < p - 1 implies lex_lt(s.skip(1)[j].addr, a) by {
            assert(s.skip(1)[j] == s[j + 1]);
        }
        if p - 1 < s.skip(1).len() {
            assert(s.skip(1)[p - 1] == s[p]);
        }
        lemma_upsert_is_insert(s.skip(1), a, acct, p - 1);
        assert(seq![s[0]] + s.skip(1).insert(p - 1, e) =~= s.insert(p, e));
    }
}

/// When `i` holds the address already, `upsert` is exactly replacement at `i`.
pub proof fn lemma_upsert_is_update(s: Seq<EntryModel>, a: Seq<u8>, acct: AccountModel, i: int)
    requires
        sorted_by_addr(s),
        0 <= i < s.len(),
        s[i].addr == a,
    ensures
        upsert(s, a, acct) == s.update(i, EntryModel { addr: a, account: acct }),
    decreases s.len(),
{
    let e = EntryModel { addr: a, account: acct };
    if i == 0 {
        lemma_lex_lt_irrefl(a);
        assert(upsert(s, a, acct) =~= s.update(0, e));
    } else {
        assert(lex_lt(s[0].addr, s[i].addr));
        lemma_lex_lt_ne(s[0].addr, a);
        if lex_lt(a, s[0].addr) {
            lemma_lex_lt_trans(a, s[0].addr, a);
            lemma_lex_lt_irrefl(a);
        }
        lemma_tail_sorted(s);
        assert(s.skip(1)[i - 1] == s[i]);
        lemma_upsert_is_update(s.skip(1), a, acct, i - 1);
        assert(seq![s[0]] + s.skip(1).update(i - 1, e) =~= s.update(i, e));
    }
}

/// In a sorted store, the lookup of an address found at `i` is that entry.
pub proof fn lemma_account_of_found(s: Seq<EntryModel>, i: int)
    requires
        sorted_by_addr(s),
        0 <= i < s.len(),
    ensures
        account_of(s, s[i].addr) == s[i].account,
    decreases i,
{
    if i == 0 {
    } else {
        assert(lex_lt(s[0].addr, s[i].addr));
        lemma_lex_lt_ne(s[0].addr, s[i].addr);
        lemma_tail_sorted(s);
        assert(s.skip(1)[i - 1] == s[i]);
        lemma_account_of_found(s.skip(1), i - 1);
    }
}

/// The lookup of an address held by no entry is the default account.
pub proof fn lemma_account_of_absent(s: Seq<EntryModel>, a: Seq<u8>)
    requires
        forall|j: int| 0 <= j < s.len() ==> (#[trigger] s[j]).addr != a,
    ensures
        account_of(s, a) == default_account_model(),
    decreases s.len(),
{
    if s.len() > 0 {
        assert forall|j: int| 0 <= j < s.skip(1).len() implies (#[trigger] s.skip(1)[j]).addr
            != a by {
            assert(s.skip(1)[j] == s[j + 1]);
        }
        lemma_account_of_absent(s.skip(1), a);
    }
}

/// Whether some entry holds address `a`.
pub open spec fn contains_addr(s: Seq<EntryModel>, a: Seq<u8>) -> bool {
    exists|i: int| 0 <= i < s.len() && (#[trigger] s[i]).addr == a
}

proof fn lemma_tail_contains(s: Seq<EntryModel>, a: Seq<u8>)
    requires
        s.len() > 0,
        s[0].addr != a,
    ensures
        contains_addr(s, a) == contains_addr(s.skip(1), a),
{
    if contains_addr(s, a) {
        let i = choose|i: int| 0 <= i < s.len() && (#[trigger] s[i]).addr == a;
        assert(s.skip(1)[i - 1] == s[i]);
    }
    if contains_addr(s.skip(1), a) {
        let k = choose|k: int| 0 <= k < s.skip(1).len() && (#[trigger] s.skip(1)[k]).addr == a;
        assert(s[k + 1] == s.skip(1)[k]);
    }
}

proof fn lemma_head_not_in_tail(s: Seq<EntryModel>)
    requires
        sorted_by_addr(s),
        s.len() > 0,
    ensures
        !contains_addr(s.skip(1), s[0].addr),
{
    if contains_addr(s.skip(1), s[0].addr) {
        let k = choose|k: int|
            0 <= k < s.skip(1).len() && (#[trigger] s.skip(1)[k]).addr == s[0].addr;
        assert(s.skip(1)[k] == s[k + 1]);
        assert(lex_lt(s[0].addr, s[k + 1].addr));
        lemma_lex_lt_ne(s[0].addr, s[k + 1].addr);
    }
}

/// The sorted sequence is a canonical representation of the account mapping:
/// two well-formed stores that hold the same addresses with the same
/// accounts are the same sequence of entries.
pub proof fn lemma_canonical_representation(s1: Seq<EntryModel>, s2: Seq<EntryModel>)
    requires
        wf_state(s1),
        wf_state(s2),
        forall|a: Seq<u8>| contains_addr(s1, a) == contains_addr(s2, a),
        forall|a: Seq<u8>| account_of(s1, a) == account_of(s2, a),
    ensures
        s1 == s2,
    decreases s1.len(),
{
    if s1.len() == 0 {
        if s2.len() > 0 {
            assert(contains_addr(s2, s2[0].addr));
            assert(contains_addr(s1, s2[0].addr));
            let i = choose|i: int| 0 <= i < s1.len() && (#[trigger] s1[i]).addr == s2[0].addr;
            assert(false);
        }
        assert(s1 =~= s2);
    } else if s2.len() == 0 {
        assert(contains_addr(s1, s1[0].addr));
        assert(contains_addr(s2, s1[0].addr));
        let i = choose|i: int| 0 <= i < s2.len() && (#[trigger] s2[i]).addr == s1[0].addr;
        assert(false);
    } else {
        assert(contains_addr(s1, s1[0].addr));
        assert(contains_addr(s2, s2[0].addr));
        assert(contains_addr(s2, s1[0].addr));
        assert(contains_addr(s1, s2[0].addr));
        let j = choose|j: int| 0 <= j < s2.len() && (#[trigger] s2[j]).addr == s1[0].addr;
        let i = choose|i: int| 0 <= i < s1.len() && (#[trigger] s1[i]).addr == s2[0].addr;
        if j > 0 {
            assert(lex_lt(s2[0].addr, s2[j].addr));
            if i > 0 {
                assert(lex_lt(s1[0].addr, s1[i].addr));
                lemma_lex_lt_trans(s1[0].addr, s2[0].addr, s1[0].addr);
                lemma_lex_lt_irrefl(s1[0].addr);
            } else {
                lemma_lex_lt_irrefl(s1[0].addr);
            }
        }
        assert(s2[0].addr == s1[0].addr);
        lemma_account_of_found(s1, 0);
        lemma_account_of_found(s2, 0);
        assert(s1[0].account == s2[0].account);
        lemma_tail_sorted(s1);
        lemma_tail_entries_wf(s1);
        lemma_tail_sorted(s2);
        lemma_tail_entries_wf(s2);
        assert forall|a: Seq<u8>| contains_addr(s1.skip(1), a) == contains_addr(
            s2.skip(1),
            a,
        ) by {
            if a == s1[0].addr {
                lemma_head_not_in_tail(s1);
                lemma_head_not_in_tail(s2);
            } else {
                lemma_tail_contains(s1, a);
                lemma_tail_contains(s2, a);
            }
        }
        assert forall|a: Seq<u8>| account_of(s1.skip(1), a) == account_of(s2.skip(1), a) by {
            if a == s1[0].addr {
                lemma_head_not_in_tail(s1);
                lemma_head_not_in_tail(s2);
                assert forall|k: int| 0 <= k < s1.skip(1).len() implies (#[trigger] s1.skip(
                    1,
                )[k]).addr != a by {}
                assert forall|k: int| 0 <= k < s2.skip(1).len() implies (#[trigger] s2.skip(
                    1,
                )[k]).addr != a by {}
                lemma_account_of_absent(s1.skip(1), a);
                lemma_account_of_absent(s2.skip(1), a);
            } else {
                assert(account_of(s1, a) == account_of(s1.skip(1), a));
                assert(account_of(s2, a) == account_of(s2.skip(1), a));
            }
        }
        lemma_canonical_representation(s1.skip(1), s2.skip(1));
        assert(s1 =~= s2) by {
            assert forall|k: int| 0 <= k < s1.len() implies s1[k] == s2[k] by {
                if k > 0 {
                    assert(s1[k] == s1.skip(1)[k - 1]);
                    assert(s2[k] == s2.skip(1)[k - 1]);
                }
            }
        }
    }
}

/// The transfer's effect on the store model. It mirrors the executable
/// sequence exactly: both accounts are materialized first, then each is
/// rewritten with its pre-transfer balance adjusted byte-locally, sender
/// first. When sender and recipient coincide, the recipient write wins, so
/// the balance is the saturating sum of the starting balance and the value.
pub open spec fn transfer_model(
    s: Seq<EntryModel>,
    from: Seq<u8>,
    to: Seq<u8>,
    value: Seq<u8>,
) -> Seq<EntryModel> {
    let fa = account_of(s, from);
    let s1 = upsert(s, from, fa);
    let ta = account_of(s1, to);
    let s2 = upsert(s1, to, ta);
    let s3 = upsert(
        s2,
        from,
        AccountModel { nonce: fa.nonce, balance: sat_sub_bytes(fa.balance, value) },
    );
    upsert(s3, to, AccountModel { nonce: ta.nonce, balance: sat_add_bytes(ta.balance, value) })
}

/// The nonce increment's effect on the store model: the account at `a` is
/// materialized and its nonce incremented by one, wrapping at the 64-bit
/// boundary.
pub open spec fn bump_nonce_model(s: Seq<EntryModel>, a: Seq<u8>) -> Seq<EntryModel> {
    let acct = account_of(s, a);
    let s1 = upsert(s, a, acct);
    upsert(s1, a, AccountModel { nonce: acct.nonce.wrapping_add(1), balance: acct.balance })
}

/// An account: a transaction counter and a 32-byte big-endian balance.
#[derive(Clone, Copy)]
pub struct Account {
    pub nonce: u64,
    pub balance: [u8; 32],
}

impl View for Account {
    type V = AccountModel;

    open spec fn view(&self) -> AccountModel {
        AccountModel { nonce: self.nonce, balance: self.balance@ }
    }
}

/// One store entry: an address and its account.
#[derive(Clone, Copy)]
pub struct AccountEntry {
    pub address: [u8; 20],
    pub account: Account,
}

impl View for AccountEntry {
    type V = EntryModel;

    open spec fn view(&self) -> EntryModel {
        EntryModel { addr: self.address@, account: self.account@ }
    }
}

/// Byte-local saturating subtraction of two 32-byte balances.
fn sat_sub_balance(a: &[u8; 32], b: &[u8; 32]) -> (r: [u8; 32])
    ensures
        r@ == sat_sub_bytes(a@, b@),
{
    let mut r = [0u8; 32];
    let mut i: usize = 0;
    while i < 32
        invariant
            a@.len() == 32,
            b@.len() == 32,
            r@.len() == 32,
            0 <= i <= 32,
            forall|j: int| 0 <= j < i ==> r@[j] == sat_sub_bytes(a@, b@)[j],
        decreases 32 - i,
    {
        r[i] = a[i].saturating_sub(b[i]);
        i = i + 1;
    }
    assert(r@ =~= sat_sub_bytes(a@, b@));
    r
}

/// Byte-local saturating addition of two 32-byte balances.
fn sat_add_balance(a: &[u8; 32], b: &[u8; 32]) -> (r: [u8; 32])
    ensures
        r@ == sat_add_bytes(a@, b@),
{
    let mut r = [0u8; 32];
    let mut i: usize = 0;
    while i < 32
        invariant
            a@.len() == 32,
            b@.len() == 32,
            r@.len() == 32,
            0 <= i <= 32,
            forall|j: int| 0 <= j < i ==> r@[j] == sat_add_bytes(a@, b@)[j],
        decreases 32 - i,
    {
        r[i] = a[i].saturating_add(b[i]);
        i = i + 1;
    }
    assert(r@ =~= sat_add_bytes(a@, b@));
    r
}

/// The canonical ledger: accounts keyed by address, kept sorted strictly
/// ascending by address.
pub struct RollupState {
    pub(crate) accounts: Vec<AccountEntry>,
}

impl View for RollupState {
    type V = Seq<EntryModel>;

    closed spec fn view(&self) -> Seq<EntryModel> {
        self.accounts@.map_values(|e: AccountEntry| e@)
    }
}

impl RollupState {
    /// The representation invariant: the entry sequence is well formed.
    pub open spec fn wf(&self) -> bool {
        wf_state(self@)
    }

    /// An empty ledger.
    pub fn new() -> (r: Self)
        ensures
            r.wf(),
            r@ == Seq::<EntryModel>::empty(),
    {
        let r = RollupState { accounts: Vec::new() };
        assert(r@ =~= Seq::<EntryModel>::empty());
        r
    }

    /// The number of materialized accounts.
    pub fn entry_count(&self) -> (n: usize)
        ensures
            n == self@.len(),
    {
        self.accounts.len()
    }

    /// The entry at position `i` in address order.
    pub fn entry_at(&self, i: usize) -> (e: &AccountEntry)
        requires
            i < self@.len(),
        ensures
            e@ == self@[i as int],
    {
        &self.accounts[i]
    }

    /// Finds `address`: either `(true, i)` with the entry at `i`, or
    /// `(false, p)` with `p` the sorted position where it would be inserted.
    fn locate(&self, address: &[u8; 20]) -> (r: (bool, usize))
        requires
            self.wf(),
        ensures
            r.0 ==> r.1 < self@.len() && self@[r.1 as int].addr == address@,
            !r.0 ==> {
                &&& r.1 <= self@.len()
                &&& forall|j: int| 0 <= j < r.1 ==> lex_lt(self@[j].addr, address@)
                &&& r.1 < self@.len() ==> lex_lt(address@, self@[r.1 as int].addr)
                &&& forall|j: int| 0 <= j < self@.len() ==> (#[trigger] self@[j]).addr != address@
            },
    {
        let ghost v = self@;
        let n = self.accounts.len();
        let mut i: usize = 0;
        while i < n
            invariant
                self.wf(),
                v == self@,
                n == self@.len(),
                0 <= i <= n,
                forall|j: int| 0 <= j < i ==> lex_lt(self@[j].addr, address@),
            decreases n - i,
        {
            let e = &self.accounts[i];
            assert(e@ == self@[i as int]);
            match addr_cmp(&e.address, address) {
                AddrCmp::Equal => {
                    return (true, i);
                },
                AddrCmp::Above => {
                    proof {
                        assert forall|j: int| 0 <= j < self@.len() implies (#[trigger] self@[j]).addr
                            != address@ by {
                            if j < i {
                                lemma_lex_lt_ne(self@[j].addr, address@);
                            } else if j == i {
                                lemma_lex_lt_ne(address@, self@[j].addr);
                            } else {
                                lemma_lex_lt_trans(address@, self@[i as int].addr, self@[j].addr);
                                lemma_lex_lt_ne(address@, self@[j].addr);
                            }
                        }
                    }
                    return (false, i);
                },
                AddrCmp::Below => {
                },
            }
            i = i + 1;
        }
        proof {
            assert forall|j: int| 0 <= j < self@.len() implies (#[trigger] self@[j]).addr
                != address@ by {
                lemma_lex_lt_ne(self@[j].addr, address@);
            }
        }
        (false, i)
    }

    /// The account held at `address`, without materializing it.
    pub fn get_account(&self, address: &[u8; 20]) -> (r: Account)
        requires
            self.wf(),
        ensures
            r@ == account_of(self@, address@),
    {
        let (found, i) = self.locate(address);
        if found {
            proof {
                lemma_account_of_found(self@, i as int);
            }
            self.accounts[i].account
        } else {
            proof {
                lemma_account_of_absent(self@, address@);
            }
            let acct = Account { nonce: 0, balance: [0u8; 32] };
            assert(acct@.balance =~= default_account_model().balance);
            acct
        }
    }

    /// Stores `account` under `address`, replacing or inserting at the sorted
    /// position.
    pub fn upsert_account(&mut self, address: &[u8; 20], account: Account)
        requires
            old(self).wf(),
        ensures
            final(self).wf(),
            final(self)@ == upsert(old(self)@, address@, account@),
    {
        let ghost s = self@;
        let e = AccountEntry { address: *address, account };
        let (found, i) = self.locate(address);
        if found {
            self.accounts[i] = e;
            proof {
                assert(self@ =~= s.update(i as int, e@));
                lemma_upsert_is_update(s, address@, account@, i as int);
                lemma_upsert_wf(s, address@, account@);
            }
        } else {
            self.accounts.insert(i, e);
            proof {
                assert(self@ =~= s.insert(i as int, e@));
                lemma_upsert_is_insert(s, address@, account@, i as int);
                lemma_upsert_wf(s, address@, account@);
            }
        }
    }

    /// Applies a transfer of `value` from `from` to `to`, creating default
    /// accounts as needed. Balances move byte-locally and saturating: an
    /// insufficient byte clamps at 0 rather than borrowing or erroring, which
    /// is exactly how an economically invalid transfer can "succeed" and
    /// later be proven fraudulent.
    pub fn apply_transfer(&mut self, from: &[u8; 20], to: &[u8; 20], value: &[u8; 32])
        requires
            old(self).wf(),
        ensures
            final(self).wf(),
            final(self)@ == transfer_model(old(self)@, from@, to@, value@),
    {
        let fa = self.get_or_create(from);
        let ta = self.get_or_create(to);
        self.upsert_account(
            from,
            Account { nonce: fa.nonce, balance: sat_sub_balance(&fa.balance, value) },
        );
        self.upsert_account(
            to,
            Account { nonce: ta.nonce, balance: sat_add_balance(&ta.balance, value) },
        );
    }

    /// Increments the nonce of the account at `address` by one, materializing
    /// it first.
    pub fn bump_nonce(&mut self, address: &[u8; 20])
        requires
            old(self).wf(),
        ensures
            final(self).wf(),
            final(self)@ == bump_nonce_model(old(self)@, address@),
    {
        let acct = self.get_or_create(address);
        self.upsert_account(
            address,
            Account { nonce: acct.nonce.wrapping_add(1), balance: acct.balance },
        );
    }

    /// Returns the account at `address`, materializing the default account on
    /// first access.
    pub fn get_or_create(&mut self, address: &[u8; 20]) -> (r: Account)
        requires
            old(self).wf(),
        ensures
            final(self).wf(),
            r@ == account_of(old(self)@, address@),
            final(self)@ == upsert(old(self)@, address@, account_of(old(self)@, address@)),
    {
        let acct = self.get_account(address);
        self.upsert_account(address, acct);
        acct
    }
}

} // verus!
