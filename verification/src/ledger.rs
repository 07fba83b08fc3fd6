//! The executable ledger state machine: per-client accounts, the application
//! of one event, and the final per-client summary.

use std::collections::HashMap;
use vstd::prelude::*;

use crate::event::{tx_wf, Amount, ApplyError, ClientID, Transaction, TransactionType, TxID};
use crate::model::{
    account_inv, ledger_inv, lemma_run_push, lemma_step_preserves_inv, run, step, step_or_same,
    AccountModel, DepositModel, LedgerView,
};

verus! {

/// Memory of one historical deposit: its original amount, and whether a
/// dispute against it is currently open.
#[derive(Debug)]
pub struct DepositInfo {
    pub amount: Amount,
    pub disputed: bool,
}

impl View for DepositInfo {
    type V = DepositModel;

    open spec fn view(&self) -> DepositModel {
        DepositModel { amount: self.amount as int, disputed: self.disputed }
    }
}

/// One client's running account state. Created lazily by that client's first
/// deposit; never destroyed during a run.
#[derive(Debug)]
pub struct ClientInfo {
    pub available: Amount,
    pub held: Amount,
    pub locked: bool,
    pub deposits: HashMap<TxID, DepositInfo>,
}

impl View for ClientInfo {
    type V = AccountModel;

    open spec fn view(&self) -> AccountModel {
        AccountModel {
            available: self.available as int,
            held: self.held as int,
            locked: self.locked,
            deposits: self.deposits@.map_values(|d: DepositInfo| d@),
        }
    }
}

/// The output projection of one account: client id, balances, their total,
/// and the lock status.
#[derive(Debug)]
pub struct ClientOutput {
    pub client: ClientID,
    pub available: Amount,
    pub held: Amount,
    pub total: Amount,
    pub locked: bool,
}

impl ClientOutput {
    /// Projects an account into its summary row; the total is recomputed as
    /// available plus held, never stored.
    pub fn new(client_id: ClientID, client_info: &ClientInfo) -> (r: ClientOutput)
        requires
            client_info@.held >= 0,
            client_info@.available + client_info@.held <= i128::MAX,
        ensures
            r.client == client_id,
            r.available == client_info.available,
            r.held == client_info.held,
            r.locked == client_info.locked,
            r.total as int == r.available as int + r.held as int,
    {
        ClientOutput {
            client: client_id,
            available: client_info.available,
            held: client_info.held,
            total: client_info.available + client_info.held,
            locked: client_info.locked,
        }
    }
}

/// The whole ledger: every known client's account, plus the order in which
/// the clients were first seen (used only to report summaries in a stable
/// order).
#[derive(Debug)]
pub struct Clients {
    pub client_data: HashMap<ClientID, ClientInfo>,
    pub ids: Vec<ClientID>,
}

impl View for Clients {
    type V = LedgerView;

    open spec fn view(&self) -> LedgerView {
        self.client_data@.map_values(|ci: ClientInfo| ci@)
    }
}

impl Clients {
    /// Validity: `ids` lists exactly the known clients, each once, and every
    /// account satisfies the ledger invariants.
    pub open spec fn wf(self) -> bool {
        &&& self.ids@.no_duplicates()
        &&& (forall|c: ClientID|
            #![trigger self.client_data@.contains_key(c)]
            #![trigger self.ids@.contains(c)]
            self.client_data@.contains_key(c) <==> self.ids@.contains(c))
        &&& ledger_inv(self@)
    }

    /// An empty ledger: no clients are known yet.
    pub fn new() -> (r: Clients)
        ensures
            r.wf(),
            r@ == Map::<ClientID, AccountModel>::empty(),
            r.ids@ == Seq::<ClientID>::empty(),
    {
        let r = Clients { client_data: HashMap::new(), ids: Vec::new() };
        proof {
            assert(r@ =~= Map::<ClientID, AccountModel>::empty());
        }
        r
    }

    /// Applies one event. On success the ledger takes exactly the step the
    /// model prescribes; on rejection the ledger is unchanged and the error
    /// names the one violated precondition, again exactly as the model
    /// prescribes.
    pub fn process_transaction(&mut self, t: &Transaction) -> (r: Result<(), ApplyError>)
        requires
            old(self).wf(),
            tx_wf(*t),
        ensures
            final(self).wf(),
            match r {
                Ok(()) => step(old(self)@, *t) == Ok::<LedgerView, ApplyError>(final(self)@),
                Err(e) => final(self)@ == old(self)@ && step(old(self)@, *t) == Err::<
                    LedgerView,
                    ApplyError,
                >(e),
            },
    {
        let locked_now = match self.client_data.get(&t.client) {
            Some(ci) => ci.locked,
            None => false,
        };
        if locked_now {
            return Err(ApplyError::AccountLocked);
        }
        match t.transaction_type {
            TransactionType::Deposit => {
                let a = match t.amount {
                    Some(a) => a,
                    None => {
                        return Err(ApplyError::MissingAmount);
                    },
                };
                match self.client_data.remove(&t.client) {
                    None => {
                        let mut deposits: HashMap<TxID, DepositInfo> = HashMap::new();
                        deposits.insert(t.tx, DepositInfo { amount: a, disputed: false });
                        let ci = ClientInfo { available: a, held: 0, locked: false, deposits };
                        self.client_data.insert(t.client, ci);
                        self.ids.push(t.client);
                        proof {
                            let expected = AccountModel {
                                available: a as int,
                                held: 0,
                                locked: false,
                                deposits: Map::empty().insert(
                                    t.tx,
                                    DepositModel { amount: a as int, disputed: false },
                                ),
                            };
                            assert(self@ =~~= old(self)@.insert(t.client, expected));
                            assert(step(old(self)@, *t) == Ok::<LedgerView, ApplyError>(self@));
                            lemma_step_preserves_inv(old(self)@, *t);
                            assert(self.ids@.no_duplicates()) by {
                                assert forall|i: int, j: int|
                                    0 <= i < j < self.ids@.len() implies self.ids@[i]
                                    != self.ids@[j] by {
                                    if j == old(self).ids@.len() {
                                        assert(old(self).ids@.contains(old(self).ids@[i]));
                                    }
                                }
                            }
                            assert forall|c: ClientID|
                                self.client_data@.contains_key(c)
                                    <==> self.ids@.contains(c) by {
                                if c == t.client {
                                    assert(self.ids@[self.ids@.len() - 1] == c);
                                } else {
                                    if old(self).ids@.contains(c) {
                                        let i = choose|i: int|
                                            0 <= i < old(self).ids@.len() && old(self).ids@[i]
                                                == c;
                                        assert(self.ids@[i] == c);
                                    }
                                    if self.ids@.contains(c) {
                                        let i = choose|i: int|
                                            0 <= i < self.ids@.len() && self.ids@[i] == c;
                                        assert(old(self).ids@[i] == c);
                                    }
                                }
                            }
                        }
                        Ok(())
                    },
                    Some(mut ci) => {
                        if ci.deposits.contains_key(&t.tx) {
                            self.client_data.insert(t.client, ci);
                            proof {
                                assert(self.client_data@ =~= old(self).client_data@);
                            }
                            return Err(ApplyError::DuplicateTransaction);
                        }
                        proof {
                            assert(account_inv(old(self)@[t.client]));
                        }
                        let total = ci.available + ci.held;
                        if total > i128::MAX - a {
                            self.client_data.insert(t.client, ci);
                            proof {
                                assert(self.client_data@ =~= old(self).client_data@);
                            }
                            return Err(ApplyError::AmountOverflow);
                        }
                        ci.available = ci.available + a;
                        ci.deposits.insert(t.tx, DepositInfo { amount: a, disputed: false });
                        self.client_data.insert(t.client, ci);
                        proof {
                            let old_acc = old(self)@[t.client];
                            let expected = AccountModel {
                                available: old_acc.available + a as int,
                                held: old_acc.held,
                                locked: old_acc.locked,
                                deposits: old_acc.deposits.insert(
                                    t.tx,
                                    DepositModel { amount: a as int, disputed: false },
                                ),
                            };
                            assert(self@ =~~= old(self)@.insert(t.client, expected));
                            assert(step(old(self)@, *t) == Ok::<LedgerView, ApplyError>(self@));
                            lemma_step_preserves_inv(old(self)@, *t);
                            assert(old(self).ids@.contains(t.client));
                        }
                        Ok(())
                    },
                }
            },
            TransactionType::Withdrawal => {
                match self.client_data.remove(&t.client) {
                    None => {
                        proof {
                            assert(self.client_data@ =~= old(self).client_data@);
                        }
                        Err(ApplyError::UnknownClient)
                    },
                    Some(mut ci) => {
                        let a = match t.amount {
                            Some(a) => a,
                            None => {
                                self.client_data.insert(t.client, ci);
                                proof {
                                    assert(self.client_data@ =~= old(self).client_data@);
                                }
                                return Err(ApplyError::MissingAmount);
                            },
                        };
                        if ci.available >= a {
                            ci.available = ci.available - a;
                            self.client_data.insert(t.client, ci);
                            proof {
                                let old_acc = old(self)@[t.client];
                                let expected = AccountModel {
                                    available: old_acc.available - a as int,
                                    held: old_acc.held,
                                    locked: old_acc.locked,
                                    deposits: old_acc.deposits,
                                };
                                assert(self@ =~~= old(self)@.insert(t.client, expected));
                                assert(step(old(self)@, *t) == Ok::<LedgerView, ApplyError>(
                                    self@,
                                ));
                                lemma_step_preserves_inv(old(self)@, *t);
                                assert(old(self).ids@.contains(t.client));
                            }
                            Ok(())
                        } else {
                            self.client_data.insert(t.client, ci);
                            proof {
                                assert(self.client_data@ =~= old(self).client_data@);
                            }
                            Err(ApplyError::InsufficientFunds)
                        }
                    },
                }
            },
            TransactionType::Dispute => {
                match self.client_data.remove(&t.client) {
                    None => {
                        proof {
                            assert(self.client_data@ =~= old(self).client_data@);
                        }
                        Err(ApplyError::UnknownClient)
                    },
                    Some(mut ci) => {
                        proof {
                            assert(account_inv(old(self)@[t.client]));
                        }
                        match ci.deposits.remove(&t.tx) {
                            None => {
                                self.client_data.insert(t.client, ci);
                                proof {
                                    assert(ci.deposits@ =~= old(
                                        self,
                                    ).client_data@[t.client].deposits@);
                                    assert(self@ =~= old(self)@);
                                }
                                Err(ApplyError::UnknownTransaction)
                            },
                            Some(dep) => {
                                if dep.disputed {
                                    ci.deposits.insert(t.tx, dep);
                                    self.client_data.insert(t.client, ci);
                                    proof {
                                        assert(ci.deposits@ =~= old(
                                            self,
                                        ).client_data@[t.client].deposits@);
                                        assert(self@ =~= old(self)@);
                                    }
                                    return Err(ApplyError::AlreadyDisputed);
                                }
                                let a = dep.amount;
                                proof {
                                    assert(old(self)@[t.client].deposits.contains_key(t.tx));
                                }
                                if ci.held > i128::MAX - a || ci.available < i128::MIN + a {
                                    ci.deposits.insert(t.tx, dep);
                                    self.client_data.insert(t.client, ci);
                                    proof {
                                        assert(ci.deposits@ =~= old(
                                            self,
                                        ).client_data@[t.client].deposits@);
                                        assert(self@ =~= old(self)@);
                                    }
                                    return Err(ApplyError::AmountOverflow);
                                }
                                ci.held = ci.held + a;
                                ci.available = ci.available - a;
                                ci.deposits.insert(t.tx, DepositInfo { amount: a, disputed: true });
                                self.client_data.insert(t.client, ci);
                                proof {
                                    let old_acc = old(self)@[t.client];
                                    let expected = AccountModel {
                                        available: old_acc.available - a as int,
                                        held: old_acc.held + a as int,
                                        locked: old_acc.locked,
                                        deposits: old_acc.deposits.insert(
                                            t.tx,
                                            DepositModel { amount: a as int, disputed: true },
                                        ),
                                    };
                                    assert(self@ =~~= old(self)@.insert(t.client, expected));
                                    assert(step(old(self)@, *t) == Ok::<LedgerView, ApplyError>(
                                        self@,
                                    ));
                                    lemma_step_preserves_inv(old(self)@, *t);
                                    assert(old(self).ids@.contains(t.client));
                                }
                                Ok(())
                            },
                        }
                    },
                }
            },
            TransactionType::Resolve => {
                match self.client_data.remove(&t.client) {
                    None => {
                        proof {
                            assert(self.client_data@ =~= old(self).client_data@);
                        }
                        Err(ApplyError::UnknownClient)
                    },
                    Some(mut ci) => {
                        proof {
                            assert(account_inv(old(self)@[t.client]));
                        }
                        match ci.deposits.remove(&t.tx) {
                            None => {
                                self.client_data.insert(t.client, ci);
                                proof {
                                    assert(ci.deposits@ =~= old(
                                        self,
                                    ).client_data@[t.client].deposits@);
                                    assert(self@ =~= old(self)@);
                                }
                                Err(ApplyError::UnknownTransaction)
                            },
                            Some(dep) => {
                                if !dep.disputed {
                                    ci.deposits.insert(t.tx, dep);
                                    self.client_data.insert(t.client, ci);
                                    proof {
                                        assert(ci.deposits@ =~= old(
                                            self,
                                        ).client_data@[t.client].deposits@);
                                        assert(self@ =~= old(self)@);
                                    }
                                    return Err(ApplyError::NotDisputed);
                                }
                                let a = dep.amount;
                                proof {
                                    assert(old(self)@[t.client].deposits.contains_key(t.tx));
                                }
                                if ci.available > i128::MAX - a {
                                    ci.deposits.insert(t.tx, dep);
                                    self.client_data.insert(t.client, ci);
                                    proof {
                                        assert(ci.deposits@ =~= old(
                                            self,
                                        ).client_data@[t.client].deposits@);
                                        assert(self@ =~= old(self)@);
                                    }
                                    return Err(ApplyError::AmountOverflow);
                                }
                                ci.available = ci.available + a;
                                ci.held = ci.held - a;
                                ci.deposits.insert(
                                    t.tx,
                                    DepositInfo { amount: a, disputed: false },
                                );
                                self.client_data.insert(t.client, ci);
                                proof {
                                    let old_acc = old(self)@[t.client];
                                    let expected = AccountModel {
                                        available: old_acc.available + a as int,
                                        held: old_acc.held - a as int,
                                        locked: old_acc.locked,
                                        deposits: old_acc.deposits.insert(
                                            t.tx,
                                            DepositModel { amount: a as int, disputed: false },
                                        ),
                                    };
                                    assert(self@ =~~= old(self)@.insert(t.client, expected));
                                    assert(step(old(self)@, *t) == Ok::<LedgerView, ApplyError>(
                                        self@,
                                    ));
                                    lemma_step_preserves_inv(old(self)@, *t);
                                    assert(old(self).ids@.contains(t.client));
                                }
                                Ok(())
                            },
                        }
                    },
                }
            },
            TransactionType::Chargeback => {
                match self.client_data.remove(&t.client) {
                    None => {
                        proof {
                            assert(self.client_data@ =~= old(self).client_data@);
                        }
                        Err(ApplyError::UnknownClient)
                    },
                    Some(mut ci) => {
                        proof {
                            assert(account_inv(old(self)@[t.client]));
                        }
                        match ci.deposits.remove(&t.tx) {
                            None => {
                                self.client_data.insert(t.client, ci);
                                proof {
                                    assert(ci.deposits@ =~= old(
                                        self,
                                    ).client_data@[t.client].deposits@);
                                    assert(self@ =~= old(self)@);
                                }
                                Err(ApplyError::UnknownTransaction)
                            },
                            Some(dep) => {
                                if !dep.disputed {
                                    ci.deposits.insert(t.tx, dep);
                                    self.client_data.insert(t.client, ci);
                                    proof {
                                        assert(ci.deposits@ =~= old(
                                            self,
                                        ).client_data@[t.client].deposits@);
                                        assert(self@ =~= old(self)@);
                                    }
                                    return Err(ApplyError::NotDisputed);
                                }
                                let a = dep.amount;
                                proof {
                                    assert(old(self)@[t.client].deposits.contains_key(t.tx));
                                }
                                ci.held = ci.held - a;
                                ci.locked = true;
                                ci.deposits.insert(
                                    t.tx,
                                    DepositInfo { amount: a, disputed: false },
                                );
                                self.client_data.insert(t.client, ci);
                                proof {
                                    let old_acc = old(self)@[t.client];
                                    let expected = AccountModel {
                                        available: old_acc.available,
                                        held: old_acc.held - a as int,
                                        locked: true,
                                        deposits: old_acc.deposits.insert(
                                            t.tx,
                                            DepositModel { amount: a as int, disputed: false },
                                        ),
                                    };
                                    assert(self@ =~~= old(self)@.insert(t.client, expected));
                                    assert(step(old(self)@, *t) == Ok::<LedgerView, ApplyError>(
                                        self@,
                                    ));
                                    lemma_step_preserves_inv(old(self)@, *t);
                                    assert(old(self).ids@.contains(t.client));
                                }
                                Ok(())
                            },
                        }
                    },
                }
            },
        }
    }

    /// Projects every known account into its summary row, one row per client,
    /// in the order the clients were first seen. Every row's total is its
    /// available plus its held balance.
    pub fn snapshot(&self) -> (out: Vec<ClientOutput>)
        requires
            self.wf(),
        ensures
            out@.len() == self.ids@.len(),
            forall|i: int|
                0 <= i < out@.len() ==> {
                    let c = self.ids@[i];
                    &&& (#[trigger] out@[i]).client == c
                    &&& self@.contains_key(c)
                    &&& out@[i].available as int == self@[c].available
                    &&& out@[i].held as int == self@[c].held
                    &&& out@[i].locked == self@[c].locked
                    &&& out@[i].total as int == out@[i].available as int + out@[i].held as int
                },
    {
        let mut out: Vec<ClientOutput> = Vec::new();
        let mut i: usize = 0;
        while i < self.ids.len()
            invariant
                self.wf(),
                i <= self.ids@.len(),
                out@.len() == i as int,
                forall|j: int|
                    0 <= j < i as int ==> {
                        let c = self.ids@[j];
                        &&& (#[trigger] out@[j]).client == c
                        &&& self@.contains_key(c)
                        &&& out@[j].available as int == self@[c].available
                        &&& out@[j].held as int == self@[c].held
                        &&& out@[j].locked == self@[c].locked
                        &&& out@[j].total as int == out@[j].available as int + out@[j].held as int
                    },
            decreases self.ids@.len() - i,
        {
            let c = self.ids[i];
            proof {
                assert(self.ids@.contains(self.ids@[i as int]));
                assert(self@.contains_key(c));
                assert(account_inv(self@[c]));
            }
            let ci = self.client_data.get(&c).unwrap();
            let row = ClientOutput::new(c, ci);
            out.push(row);
            i += 1;
        }
        out
    }
}

/// Applies a whole event sequence, in order, to an initially empty ledger,
/// silently ignoring every rejected event, and returns the final ledger.
pub fn process_transactions(transactions: &Vec<Transaction>) -> (clients: Clients)
    requires
        forall|i: int| 0 <= i < transactions@.len() ==> tx_wf(#[trigger] transactions@[i]),
    ensures
        clients.wf(),
        clients@ == run(Map::<ClientID, AccountModel>::empty(), transactions@),
{
    let mut clients = Clients::new();
    let mut i: usize = 0;
    while i < transactions.len()
        invariant
            clients.wf(),
            i <= transactions@.len(),
            forall|j: int| 0 <= j < transactions@.len() ==> tx_wf(#[trigger] transactions@[j]),
            clients@ == run(
                Map::<ClientID, AccountModel>::empty(),
                transactions@.take(i as int),
            ),
        decreases transactions@.len() - i,
    {
        let ghost before = clients@;
        let t = &transactions[i];
        let _ = clients.process_transaction(t);
        proof {
            assert(step_or_same(before, *t) == clients@);
            lemma_run_push(
                Map::<ClientID, AccountModel>::empty(),
                transactions@.take(i as int),
                *t,
            );
            assert(transactions@.take(i as int).push(*t) =~= transactions@.take(i as int + 1));
        }
        i += 1;
    }
    proof {
        assert(transactions@.take(transactions@.len() as int) =~= transactions@);
    }
    clients
}

} // verus!
