//! Cross-event laws of the ledger, stated over the model and proved once for
//! every ledger the invariants admit.

use vstd::prelude::*;

use crate::event::{ApplyError, ClientID, Transaction};
use crate::model::{account_inv, ledger_inv, step, step_or_same, LedgerView};

verus! {

/// Once a client is locked, every event for that client is rejected with
/// `AccountLocked` and leaves the whole ledger unchanged, and no event of any
/// other client moves the locked account either: the lock is permanent.
pub proof fn lemma_locked_permanent(m: LedgerView, t: Transaction, c: ClientID)
    requires
        m.contains_key(c),
        m[c].locked,
    ensures
        t.client == c ==> step(m, t) == Err::<LedgerView, ApplyError>(ApplyError::AccountLocked),
        t.client == c ==> step_or_same(m, t) == m,
        step_or_same(m, t).contains_key(c),
        step_or_same(m, t)[c] == m[c],
{
}

/// Dispute then Resolve on the same client and transaction: the resolve is
/// always accepted and restores the ledger exactly to its pre-dispute value.
pub proof fn lemma_dispute_resolve_round_trip(m: LedgerView, d: Transaction, r: Transaction)
    requires
        ledger_inv(m),
        d.transaction_type is Dispute,
        r.transaction_type is Resolve,
        r.client == d.client,
        r.tx == d.tx,
        step(m, d) is Ok,
    ensures
        step(step(m, d)->Ok_0, r) == Ok::<LedgerView, ApplyError>(m),
{
    let c = d.client;
    let m1 = step(m, d)->Ok_0;
    assert(m.contains_key(c));
    assert(account_inv(m[c]));
    assert(step(m1, r) is Ok);
    let m2 = step(m1, r)->Ok_0;
    assert(m2 =~~= m);
}

/// Dispute then Chargeback on the same client and transaction: the
/// chargeback is always accepted, it returns the held balance to its
/// pre-dispute value (the disputed deposit's amount leaves the account for
/// good, out of available funds), and it locks the account; by
/// `lemma_locked_permanent` the lock is permanent.
pub proof fn lemma_dispute_chargeback_locks(m: LedgerView, d: Transaction, cb: Transaction)
    requires
        ledger_inv(m),
        d.transaction_type is Dispute,
        cb.transaction_type is Chargeback,
        cb.client == d.client,
        cb.tx == d.tx,
        step(m, d) is Ok,
    ensures
        step(step(m, d)->Ok_0, cb) is Ok,
        ({
            let m2 = step(step(m, d)->Ok_0, cb)->Ok_0;
            let a = m[d.client].deposits[d.tx].amount;
            &&& m2.contains_key(d.client)
            &&& m2[d.client].locked
            &&& m2[d.client].held == m[d.client].held
            &&& m2[d.client].available == m[d.client].available - a
            &&& m2[d.client].available + m2[d.client].held == m[d.client].available
                + m[d.client].held - a
        }),
{
    let c = d.client;
    let m1 = step(m, d)->Ok_0;
    assert(m.contains_key(c));
    assert(account_inv(m[c]));
    assert(step(m1, cb) is Ok);
}

} // verus!
