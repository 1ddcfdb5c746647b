//! Lexicographic ordering of addresses.
//!
//! Addresses are 20-byte identifiers; the commitment sorts accounts by
//! address, so a strict total order on byte strings is needed, together with
//! the facts (irreflexivity, transitivity, totality) that sorted-insert
//! proofs rest on.

use vstd::prelude::*;

verus! {

/// Strict lexicographic order on byte strings: `a` is below `b` when they
/// agree on a (possibly empty) common prefix and then `a` has the smaller
/// byte.
pub open spec fn lex_lt(a: Seq<u8>, b: Seq<u8>) -> bool {
    exists|k: int|
        #![trigger a[k], b[k]]
        0 <= k < a.len() && k < b.len() && (forall|j: int| 0 <= j < k ==> a[j] == b[j]) && a[k]
            < b[k]
}

/// A position where `a` and `b` first differ with `a[k] < b[k]` witnesses `lex_lt(a, b)`.
pub proof fn lemma_lex_lt_intro(a: Seq<u8>, b: Seq<u8>, k: int)
    requires
        0 <= k < a.len(),
        k < b.len(),
        forall|j: int| 0 <= j < k ==> a[j] == b[j],
        a[k] < b[k],
    ensures
        lex_lt(a, b),
{
    assert(0 <= k < a.len() && k < b.len() && (forall|j: int| 0 <= j < k ==> a[j] == b[j])
        && a[k] < b[k]);
}

/// No byte string is below itself.
pub proof fn lemma_lex_lt_irrefl(a: Seq<u8>)
    ensures
        !lex_lt(a, a),
{
    if lex_lt(a, a) {
        let k = choose|k: int|
            #![trigger a[k]]
            0 <= k < a.len() && k < a.len() && (forall|j: int| 0 <= j < k ==> a[j] == a[j]) && a[k]
                < a[k];
        assert(a[k] < a[k]);
    }
}

/// A string strictly below another is a different string.
pub proof fn lemma_lex_lt_ne(a: Seq<u8>, b: Seq<u8>)
    requires
        lex_lt(a, b),
    ensures
        a != b,
{
    if a == b {
        lemma_lex_lt_irrefl(a);
    }
}

/// The order is transitive.
pub proof fn lemma_lex_lt_trans(a: Seq<u8>, b: Seq<u8>, c: Seq<u8>)
    requires
        lex_lt(a, b),
        lex_lt(b, c),
    ensures
        lex_lt(a, c),
{
    let k1 = choose|k: int|
        #![trigger a[k], b[k]]
        0 <= k < a.len() && k < b.len() && (forall|j: int| 0 <= j < k ==> a[j] == b[j]) && a[k]
            < b[k];
    let k2 = choose|k: int|
        #![trigger b[k], c[k]]
        0 <= k < b.len() && k < c.len() && (forall|j: int| 0 <= j < k ==> b[j] == c[j]) && b[k]
            < c[k];
    if k1 < k2 {
        lemma_lex_lt_intro(a, c, k1);
    } else if k2 < k1 {
        lemma_lex_lt_intro(a, c, k2);
    } else {
        lemma_lex_lt_intro(a, c, k1);
    }
}

/// Two distinct strings of equal length are ordered one way or the other.
pub proof fn lemma_lex_lt_total(a: Seq<u8>, b: Seq<u8>)
    requires
        a.len() == b.len(),
        a != b,
    ensures
        lex_lt(a, b) || lex_lt(b, a),
    decreases a.len(),
{
    if a.len() == 0 {
        assert(a =~= b);
    } else if a[0] < b[0] {
        lemma_lex_lt_intro(a, b, 0);
    } else if b[0] < a[0] {
        lemma_lex_lt_intro(b, a, 0);
    } else {
        let at = a.skip(1);
        let bt = b.skip(1);
        if at == bt {
            assert(a =~= b) by {
                assert(forall|i: int| 0 <= i < a.len() ==> a[i] == b[i]) by {
                    assert forall|i: int| 0 <= i < a.len() implies a[i] == b[i] by {
                        if i > 0 {
                            assert(a[i] == at[i - 1]);
                            assert(b[i] == bt[i - 1]);
                        }
                    }
                }
            }
        } else {
            lemma_lex_lt_total(at, bt);
            if lex_lt(at, bt) {
                let k = choose|k: int|
                    #![trigger at[k], bt[k]]
                    0 <= k < at.len() && k < bt.len() && (forall|j: int|
                        0 <= j < k ==> at[j] == bt[j]) && at[k] < bt[k];
                assert(forall|j: int| 0 <= j < k + 1 ==> a[j] == b[j]) by {
                    assert forall|j: int| 0 <= j < k + 1 implies a[j] == b[j] by {
                        if j > 0 {
                            assert(at[j - 1] == bt[j - 1]);
                            assert(a[j] == at[j - 1]);
                            assert(b[j] == bt[j - 1]);
                        }
                    }
                }
                assert(a[k + 1] == at[k]);
                assert(b[k + 1] == bt[k]);
                lemma_lex_lt_intro(a, b, k + 1);
            } else {
                let k = choose|k: int|
                    #![trigger bt[k], at[k]]
                    0 <= k < bt.len() && k < at.len() && (forall|j: int|
                        0 <= j < k ==> bt[j] == at[j]) && bt[k] < at[k];
                assert(forall|j: int| 0 <= j < k + 1 ==> b[j] == a[j]) by {
                    assert forall|j: int| 0 <= j < k + 1 implies b[j] == a[j] by {
                        if j > 0 {
                            assert(bt[j - 1] == at[j - 1]);
                            assert(b[j] == bt[j - 1]);
                            assert(a[j] == at[j - 1]);
                        }
                    }
                }
                assert(b[k + 1] == bt[k]);
                assert(a[k + 1] == at[k]);
                lemma_lex_lt_intro(b, a, k + 1);
            }
        }
    }
}

/// The result of a three-way address comparison.
pub enum AddrCmp {
    Below,
    Equal,
    Above,
}

/// Three-way lexicographic comparison of two addresses.
pub fn addr_cmp(a: &[u8; 20], b: &[u8; 20]) -> (r: AddrCmp)
    ensures
        match r {
            AddrCmp::Below => lex_lt(a@, b@),
            AddrCmp::Equal => a@ == b@,
            AddrCmp::Above => lex_lt(b@, a@),
        },
{
    let mut i: usize = 0;
    while i < 20
        invariant
            0 <= i <= 20,
            a@.len() == 20,
            b@.len() == 20,
            forall|j: int| 0 <= j < i ==> a@[j] == b@[j],
        decreases 20 - i,
    {
        if a[i] < b[i] {
            proof {
                lemma_lex_lt_intro(a@, b@, i as int);
            }
            return AddrCmp::Below;
        }
        if b[i] < a[i] {
            proof {
                lemma_lex_lt_intro(b@, a@, i as int);
            }
            return AddrCmp::Above;
        }
        i = i + 1;
    }
    proof {
        assert(a@ =~= b@);
    }
    AddrCmp::Equal
}

} // verus!
