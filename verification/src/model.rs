//! The mathematical model of the ledger: per-client account states, the
//! transition taken by one event, and the invariants the transitions keep.

use vstd::prelude::*;

use crate::event::{tx_wf, ApplyError, ClientID, Transaction, TransactionType, TxID};

verus! {

/// Memory of one historical deposit: its original amount and whether a
/// dispute against it is currently open.
#[verifier::ext_equal]
pub struct DepositModel {
    pub amount: int,
    pub disputed: bool,
}

/// One client's account state.
#[verifier::ext_equal]
pub struct AccountModel {
    pub available: int,
    pub held: int,
    pub locked: bool,
    pub deposits: Map<TxID, DepositModel>,
}

/// The whole ledger: every known client's account, keyed by client id.
pub type LedgerView = Map<ClientID, AccountModel>;

/// What one deposit record contributes to the held balance: its amount while
/// a dispute against it is open, nothing otherwise.
pub open spec fn disputed_contribution(d: DepositModel) -> int {
    if d.disputed {
        d.amount
    } else {
        0
    }
}

/// The sum of the disputed deposits' amounts, taken in the key order given by
/// `order`. Keys missing from `deposits` contribute nothing.
pub open spec fn sum_disputed(order: Seq<TxID>, deposits: Map<TxID, DepositModel>) -> int
    decreases order.len(),
{
    if order.len() == 0 {
        0
    } else {
        let k = order[0];
        let c = if deposits.contains_key(k) {
            disputed_contribution(deposits[k])
        } else {
            0
        };
        c + sum_disputed(order.drop_first(), deposits)
    }
}

/// `order` enumerates exactly the keys of `deposits`, each once.
pub open spec fn is_deposit_order(order: Seq<TxID>, deposits: Map<TxID, DepositModel>) -> bool {
    &&& order.no_duplicates()
    &&& forall|k: TxID| deposits.contains_key(k) <==> order.contains(k)
}

/// Validity of one account:
/// - every recorded deposit amount is a non-negative representable value;
/// - the held balance is exactly the sum of the currently disputed deposits'
///   amounts (hence never negative);
/// - the balances and their total stay within the representable range.
pub open spec fn account_inv(a: AccountModel) -> bool {
    &&& forall|k: TxID| #[trigger]
        a.deposits.contains_key(k) ==> 0 <= a.deposits[k].amount <= i128::MAX
    &&& exists|order: Seq<TxID>|
        #[trigger] is_deposit_order(order, a.deposits) && a.held == sum_disputed(
            order,
            a.deposits,
        )
    &&& 0 <= a.held <= i128::MAX
    &&& i128::MIN <= a.available <= i128::MAX
    &&& a.available + a.held <= i128::MAX
}

/// Validity of the whole ledger: every account is valid.
pub open spec fn ledger_inv(m: LedgerView) -> bool {
    forall|c: ClientID| #[trigger] m.contains_key(c) ==> account_inv(m[c])
}

/// The transition one event makes on its client's account, before the global
/// locked-account policy is applied. `acct` is the client's account if one
/// exists. Returns the new account state, or the reason the event is refused.
pub open spec fn step_account(acct: Option<AccountModel>, t: Transaction) -> Result<
    AccountModel,
    ApplyError,
> {
    match t.transaction_type {
        TransactionType::Deposit => match t.amount {
            None => Err(ApplyError::MissingAmount),
            Some(a) => match acct {
                None => Ok(
                    AccountModel {
                        available: a as int,
                        held: 0,
                        locked: false,
                        deposits: Map::empty().insert(
                            t.tx,
                            DepositModel { amount: a as int, disputed: false },
                        ),
                    },
                ),
                Some(acc) => {
                    if acc.deposits.contains_key(t.tx) {
                        Err(ApplyError::DuplicateTransaction)
                    } else if acc.available + acc.held + a > i128::MAX {
                        Err(ApplyError::AmountOverflow)
                    } else {
                        Ok(
                            AccountModel {
                                available: acc.available + a,
                                deposits: acc.deposits.insert(
                                    t.tx,
                                    DepositModel { amount: a as int, disputed: false },
                                ),
                                ..acc
                            },
                        )
                    }
                },
            },
        },
        TransactionType::Withdrawal => match acct {
            None => Err(ApplyError::UnknownClient),
            Some(acc) => match t.amount {
                None => Err(ApplyError::MissingAmount),
                Some(a) => {
                    if acc.available >= a {
                        Ok(AccountModel { available: acc.available - a, ..acc })
                    } else {
                        Err(ApplyError::InsufficientFunds)
                    }
                },
            },
        },
        TransactionType::Dispute => match acct {
            None => Err(ApplyError::UnknownClient),
            Some(acc) => {
                if !acc.deposits.contains_key(t.tx) {
                    Err(ApplyError::UnknownTransaction)
                } else if acc.deposits[t.tx].disputed {
                    Err(ApplyError::AlreadyDisputed)
                } else {
                    let a = acc.deposits[t.tx].amount;
                    if acc.held + a > i128::MAX || acc.available - a < i128::MIN {
                        Err(ApplyError::AmountOverflow)
                    } else {
                        Ok(
                            AccountModel {
                                available: acc.available - a,
                                held: acc.held + a,
                                deposits: acc.deposits.insert(
                                    t.tx,
                                    DepositModel { amount: a, disputed: true },
                                ),
                                ..acc
                            },
                        )
                    }
                }
            },
        },
        TransactionType::Resolve => match acct {
            None => Err(ApplyError::UnknownClient),
            Some(acc) => {
                if !acc.deposits.contains_key(t.tx) {
                    Err(ApplyError::UnknownTransaction)
                } else if !acc.deposits[t.tx].disputed {
                    Err(ApplyError::NotDisputed)
                } else {
                    let a = acc.deposits[t.tx].amount;
                    if acc.available + a > i128::MAX {
                        Err(ApplyError::AmountOverflow)
                    } else {
                        Ok(
                            AccountModel {
                                available: acc.available + a,
                                held: acc.held - a,
                                deposits: acc.deposits.insert(
                                    t.tx,
                                    DepositModel { amount: a, disputed: false },
                                ),
                                ..acc
                            },
                        )
                    }
                }
            },
        },
        TransactionType::Chargeback => match acct {
            None => Err(ApplyError::UnknownClient),
            Some(acc) => {
                if !acc.deposits.contains_key(t.tx) {
                    Err(ApplyError::UnknownTransaction)
                } else if !acc.deposits[t.tx].disputed {
                    Err(ApplyError::NotDisputed)
                } else {
                    let a = acc.deposits[t.tx].amount;
                    Ok(
                        AccountModel {
                            held: acc.held - a,
                            locked: true,
                            deposits: acc.deposits.insert(
                                t.tx,
                                DepositModel { amount: a, disputed: false },
                            ),
                            ..acc
                        },
                    )
                }
            },
        },
    }
}

/// The transition one event makes on the whole ledger. An event for a locked
/// client is always refused, whatever its kind; otherwise the client's
/// account steps by `step_account` and every other account is untouched.
pub open spec fn step(m: LedgerView, t: Transaction) -> Result<LedgerView, ApplyError> {
    if m.contains_key(t.client) && m[t.client].locked {
        Err(ApplyError::AccountLocked)
    } else {
        let acct = if m.contains_key(t.client) {
            Some(m[t.client])
        } else {
            None
        };
        match step_account(acct, t) {
            Ok(a) => Ok(m.insert(t.client, a)),
            Err(e) => Err(e),
        }
    }
}

/// The ledger after one event: the stepped ledger when the event is accepted,
/// the same ledger when it is rejected.
pub open spec fn step_or_same(m: LedgerView, t: Transaction) -> LedgerView {
    match step(m, t) {
        Ok(m2) => m2,
        Err(_) => m,
    }
}

/// The ledger after a whole event sequence, applied in order starting from
/// `m`, with every rejected event ignored.
pub open spec fn run(m: LedgerView, ts: Seq<Transaction>) -> LedgerView
    decreases ts.len(),
{
    if ts.len() == 0 {
        m
    } else {
        run(step_or_same(m, ts[0]), ts.drop_first())
    }
}

/// Running one more event is one more step on the ledger the earlier events
/// reached.
pub proof fn lemma_run_push(m: LedgerView, s: Seq<Transaction>, t: Transaction)
    ensures
        run(m, s.push(t)) == step_or_same(run(m, s), t),
    decreases s.len(),
{
    if s.len() == 0 {
        assert(s.push(t)[0] == t);
        assert(s.push(t).drop_first() =~= Seq::<Transaction>::empty());
        assert(run(step_or_same(m, t), Seq::<Transaction>::empty()) == step_or_same(m, t));
        assert(run(m, s) == m);
    } else {
        assert(s.push(t)[0] == s[0]);
        assert(s.push(t).drop_first() =~= s.drop_first().push(t));
        lemma_run_push(step_or_same(m, s[0]), s.drop_first(), t);
        assert(run(m, s.push(t)) == run(step_or_same(m, s[0]), s.drop_first().push(t)));
        assert(run(m, s) == run(step_or_same(m, s[0]), s.drop_first()));
    }
}

/// A sum of contributions is non-negative when every recorded amount is.
pub proof fn lemma_sum_nonneg(order: Seq<TxID>, deposits: Map<TxID, DepositModel>)
    requires
        forall|k: TxID| #[trigger] deposits.contains_key(k) ==> deposits[k].amount >= 0,
    ensures
        sum_disputed(order, deposits) >= 0,
    decreases order.len(),
{
    if order.len() > 0 {
        lemma_sum_nonneg(order.drop_first(), deposits);
    }
}

/// Two deposit maps that agree on every key of `order` give the same sum.
pub proof fn lemma_sum_congruence(
    order: Seq<TxID>,
    d1: Map<TxID, DepositModel>,
    d2: Map<TxID, DepositModel>,
)
    requires
        forall|k: TxID| #[trigger] order.contains(k) ==> (d1.contains_key(k) <==> d2.contains_key(
            k,
        )),
        forall|k: TxID| order.contains(k) && #[trigger] d1.contains_key(k) ==> d1[k] == d2[k],
    ensures
        sum_disputed(order, d1) == sum_disputed(order, d2),
    decreases order.len(),
{
    if order.len() > 0 {
        assert(order.contains(order[0]));
        let rest = order.drop_first();
        assert forall|k: TxID| #[trigger] rest.contains(k) implies order.contains(k) by {
            let i = choose|i: int| 0 <= i < rest.len() && rest[i] == k;
            assert(order[i + 1] == k);
        }
        lemma_sum_congruence(rest, d1, d2);
    }
}

/// Appending a key not yet enumerated, and recording it, adds exactly that
/// record's contribution to the sum.
pub proof fn lemma_sum_insert_fresh(
    order: Seq<TxID>,
    deposits: Map<TxID, DepositModel>,
    k: TxID,
    r: DepositModel,
)
    requires
        !order.contains(k),
    ensures
        sum_disputed(order.push(k), deposits.insert(k, r)) == sum_disputed(order, deposits)
            + disputed_contribution(r),
    decreases order.len(),
{
    let pushed = order.push(k);
    if order.len() == 0 {
        assert(pushed[0] == k);
        assert(pushed.drop_first() =~= Seq::<TxID>::empty());
        assert(sum_disputed(Seq::<TxID>::empty(), deposits.insert(k, r)) == 0);
        assert(sum_disputed(pushed, deposits.insert(k, r)) == disputed_contribution(r));
    } else {
        assert(order.contains(order[0]));
        assert(pushed[0] == order[0]);
        assert(order[0] != k);
        let rest = order.drop_first();
        assert forall|j: TxID| #[trigger] rest.contains(j) implies order.contains(j) by {
            let i = choose|i: int| 0 <= i < rest.len() && rest[i] == j;
            assert(order[i + 1] == j);
        }
        assert(pushed.drop_first() =~= rest.push(k));
        assert(!rest.contains(k));
        lemma_sum_insert_fresh(rest, deposits, k, r);
        assert(sum_disputed(pushed, deposits.insert(k, r)) == sum_disputed(
            rest.push(k),
            deposits.insert(k, r),
        ) + (if deposits.insert(k, r).contains_key(order[0]) {
            disputed_contribution(deposits.insert(k, r)[order[0]])
        } else {
            0
        }));
        assert(sum_disputed(order, deposits) == sum_disputed(rest, deposits) + (
        if deposits.contains_key(order[0]) {
            disputed_contribution(deposits[order[0]])
        } else {
            0
        }));
    }
}

/// Re-recording one enumerated key swaps its old contribution for the new
/// one and leaves the rest of the sum alone.
pub proof fn lemma_sum_update(
    order: Seq<TxID>,
    deposits: Map<TxID, DepositModel>,
    k: TxID,
    r: DepositModel,
)
    requires
        order.no_duplicates(),
        order.contains(k),
        deposits.contains_key(k),
    ensures
        sum_disputed(order, deposits.insert(k, r)) == sum_disputed(order, deposits)
            - disputed_contribution(deposits[k]) + disputed_contribution(r),
    decreases order.len(),
{
    let rest = order.drop_first();
    assert forall|j: TxID| #[trigger] rest.contains(j) implies order.contains(j) by {
        let i = choose|i: int| 0 <= i < rest.len() && rest[i] == j;
        assert(order[i + 1] == j);
    }
    if order[0] == k {
        assert(!rest.contains(k)) by {
            if rest.contains(k) {
                let i = choose|i: int| 0 <= i < rest.len() && rest[i] == k;
                assert(order[i + 1] == order[0]);
            }
        }
        lemma_sum_congruence(rest, deposits, deposits.insert(k, r));
    } else {
        let i = choose|i: int| 0 <= i < order.len() && order[i] == k;
        assert(rest[i - 1] == k);
        assert(rest.contains(k));
        lemma_sum_update(rest, deposits, k, r);
    }
}

/// A disputed record's amount never exceeds the sum: the held balance covers
/// each open dispute.
pub proof fn lemma_sum_lower_bound(order: Seq<TxID>, deposits: Map<TxID, DepositModel>, k: TxID)
    requires
        order.no_duplicates(),
        order.contains(k),
        deposits.contains_key(k),
        deposits[k].disputed,
        forall|j: TxID| #[trigger] deposits.contains_key(j) ==> deposits[j].amount >= 0,
    ensures
        sum_disputed(order, deposits) >= deposits[k].amount,
    decreases order.len(),
{
    let rest = order.drop_first();
    if order[0] == k {
        lemma_sum_nonneg(rest, deposits);
    } else {
        let i = choose|i: int| 0 <= i < order.len() && order[i] == k;
        assert(rest[i - 1] == k);
        assert(rest.contains(k));
        lemma_sum_lower_bound(rest, deposits, k);
        assert(order.contains(order[0]));
    }
}

/// Membership in a sequence extended by one element.
proof fn lemma_push_contains(s: Seq<TxID>, x: TxID)
    ensures
        forall|y: TxID| #[trigger] s.push(x).contains(y) <==> s.contains(y) || y == x,
{
    assert forall|y: TxID| #[trigger] s.push(x).contains(y) implies s.contains(y) || y == x by {
        let i = choose|i: int| 0 <= i < s.push(x).len() && s.push(x)[i] == y;
        if i < s.len() {
            assert(s[i] == y);
        }
    }
    assert forall|y: TxID| s.contains(y) || y == x implies #[trigger] s.push(x).contains(y) by {
        if s.contains(y) {
            let i = choose|i: int| 0 <= i < s.len() && s[i] == y;
            assert(s.push(x)[i] == y);
        } else {
            assert(s.push(x)[s.len() as int] == y);
        }
    }
}

/// Every transition keeps every account valid. In particular the held
/// balance stays non-negative after any successful event, and a rejected
/// event changes nothing, so `held` is never negative after any event.
pub proof fn lemma_step_preserves_inv(m: LedgerView, t: Transaction)
    requires
        ledger_inv(m),
        tx_wf(t),
    ensures
        ledger_inv(step_or_same(m, t)),
        step(m, t) matches Ok(m2) ==> ledger_inv(m2),
        forall|c: ClientID| #[trigger]
            step_or_same(m, t).contains_key(c) ==> step_or_same(m, t)[c].held >= 0,
{
    if step(m, t) is Ok {
        let m2 = step(m, t)->Ok_0;
        let c = t.client;
        let acct = if m.contains_key(c) {
            Some(m[c])
        } else {
            None
        };
        let a2 = step_account(acct, t)->Ok_0;
        assert(m2 == m.insert(c, a2));
        assert forall|x: ClientID| #[trigger] m2.contains_key(x) implies account_inv(m2[x]) by {
            if x != c {
                assert(m.contains_key(x));
            } else {
                lemma_account_step_inv(acct, t);
            }
        }
    }
}

/// A whole sequence of valid events, applied in order with rejected events
/// ignored, keeps every account valid: in particular, after any run the held
/// balance of every account is non-negative.
pub proof fn lemma_run_preserves_inv(m: LedgerView, ts: Seq<Transaction>)
    requires
        ledger_inv(m),
        forall|i: int| 0 <= i < ts.len() ==> tx_wf(#[trigger] ts[i]),
    ensures
        ledger_inv(run(m, ts)),
        forall|c: ClientID| #[trigger]
            run(m, ts).contains_key(c) ==> run(m, ts)[c].held >= 0,
    decreases ts.len(),
{
    if ts.len() > 0 {
        lemma_step_preserves_inv(m, ts[0]);
        let rest = ts.drop_first();
        assert forall|i: int| 0 <= i < rest.len() implies tx_wf(#[trigger] rest[i]) by {
            assert(rest[i] == ts[i + 1]);
        }
        lemma_run_preserves_inv(step_or_same(m, ts[0]), rest);
    }
}

/// The per-account transition keeps a valid account valid, and gives a valid
/// account to a newly created client.
proof fn lemma_account_step_inv(acct: Option<AccountModel>, t: Transaction)
    requires
        tx_wf(t),
        acct matches Some(acc) ==> account_inv(acc),
        step_account(acct, t) is Ok,
    ensures
        account_inv(step_account(acct, t)->Ok_0),
{
    let a2 = step_account(acct, t)->Ok_0;
    match t.transaction_type {
        TransactionType::Deposit => {
            let a = t.amount->0;
            let rec = DepositModel { amount: a as int, disputed: false };
            match acct {
                None => {
                    let order = Seq::<TxID>::empty().push(t.tx);
                    lemma_push_contains(Seq::<TxID>::empty(), t.tx);
                    assert(is_deposit_order(order, a2.deposits));
                    lemma_sum_insert_fresh(
                        Seq::<TxID>::empty(),
                        Map::<TxID, DepositModel>::empty(),
                        t.tx,
                        rec,
                    );
                    assert(sum_disputed(order, a2.deposits) == 0);
                },
                Some(acc) => {
                    let order = choose|order: Seq<TxID>|
                        #[trigger] is_deposit_order(order, acc.deposits) && acc.held
                            == sum_disputed(order, acc.deposits);
                    let order2 = order.push(t.tx);
                    lemma_push_contains(order, t.tx);
                    assert(order2.no_duplicates()) by {
                        assert forall|i: int, j: int|
                            0 <= i < j < order2.len() implies order2[i] != order2[j] by {
                            if j == order.len() {
                                assert(order.contains(order[i]));
                            }
                        }
                    }
                    assert(is_deposit_order(order2, a2.deposits));
                    lemma_sum_insert_fresh(order, acc.deposits, t.tx, rec);
                    assert(a2.held == sum_disputed(order2, a2.deposits));
                },
            }
        },
        TransactionType::Withdrawal => {
            let acc = acct->0;
            let order = choose|order: Seq<TxID>|
                #[trigger] is_deposit_order(order, acc.deposits) && acc.held == sum_disputed(
                    order,
                    acc.deposits,
                );
            assert(is_deposit_order(order, a2.deposits));
        },
        TransactionType::Dispute => {
            let acc = acct->0;
            let old_rec = acc.deposits[t.tx];
            let rec = DepositModel { amount: old_rec.amount, disputed: true };
            let order = choose|order: Seq<TxID>|
                #[trigger] is_deposit_order(order, acc.deposits) && acc.held == sum_disputed(
                    order,
                    acc.deposits,
                );
            assert(order.contains(t.tx));
            lemma_sum_update(order, acc.deposits, t.tx, rec);
            assert(is_deposit_order(order, a2.deposits));
            assert(a2.held == sum_disputed(order, a2.deposits));
        },
        TransactionType::Resolve => {
            let acc = acct->0;
            let old_rec = acc.deposits[t.tx];
            let rec = DepositModel { amount: old_rec.amount, disputed: false };
            let order = choose|order: Seq<TxID>|
                #[trigger] is_deposit_order(order, acc.deposits) && acc.held == sum_disputed(
                    order,
                    acc.deposits,
                );
            assert(order.contains(t.tx));
            lemma_sum_lower_bound(order, acc.deposits, t.tx);
            lemma_sum_update(order, acc.deposits, t.tx, rec);
            assert(is_deposit_order(order, a2.deposits));
            assert(a2.held == sum_disputed(order, a2.deposits));
        },
        TransactionType::Chargeback => {
            let acc = acct->0;
            let old_rec = acc.deposits[t.tx];
            let rec = DepositModel { amount: old_rec.amount, disputed: false };
            let order = choose|order: Seq<TxID>|
                #[trigger] is_deposit_order(order, acc.deposits) && acc.held == sum_disputed(
                    order,
                    acc.deposits,
                );
            assert(order.contains(t.tx));
            lemma_sum_lower_bound(order, acc.deposits, t.tx);
            lemma_sum_update(order, acc.deposits, t.tx, rec);
            assert(is_deposit_order(order, a2.deposits));
            assert(a2.held == sum_disputed(order, a2.deposits));
        },
    }
}

} // verus!
