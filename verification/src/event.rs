use vstd::prelude::*;

verus! {

/// Identifies a client account.
pub type ClientID = u16;

/// Identifies a transaction; globally unique among deposits.
pub type TxID = u32;

/// An exact amount, in integer units of the smallest currency step.
/// The scale is fixed by the caller; the ledger only adds, subtracts and
/// compares amounts, so every operation is exact at any fixed scale.
pub type Amount = i128;

/// The five kinds of ledger event.
#[derive(Clone, Copy, Debug, PartialEq, Eq, Structural)]
pub enum TransactionType {
    Deposit,
    Withdrawal,
    Dispute,
    Resolve,
    Chargeback,
}

/// One decoded input record. `amount` is meaningful only for deposits and
/// withdrawals; the three dispute-lifecycle kinds ignore it.
#[derive(Clone, Copy, Debug, PartialEq, Eq)]
pub struct Transaction {
    pub transaction_type: TransactionType,
    pub client: ClientID,
    pub tx: TxID,
    pub amount: Option<Amount>,
}

/// Why an event was rejected. A rejected event is always a complete no-op on
/// account state. `AmountOverflow` is the one machine-limit rejection: an
/// event whose arithmetic would leave the representable fixed-point range is
/// refused rather than applied inexactly.
#[derive(Clone, Copy, Debug, PartialEq, Eq, Structural)]
pub enum ApplyError {
    AccountLocked,
    MissingAmount,
    UnknownClient,
    DuplicateTransaction,
    InsufficientFunds,
    UnknownTransaction,
    AlreadyDisputed,
    NotDisputed,
    AmountOverflow,
}

/// A transaction as the decoder hands it over: any amount present is
/// non-negative. The ledger assumes this of its input and does not itself
/// defend against negative amounts.
pub open spec fn tx_wf(t: Transaction) -> bool {
    match t.amount {
        Some(a) => a >= 0,
        None => true,
    }
}

/// Exposes the decoder's obligation as a runtime check, so that an
/// unverified caller can test an event before handing it to the ledger.
pub fn transaction_is_wf(t: &Transaction) -> (r: bool)
    ensures
        r == tx_wf(*t),
{
    match t.amount {
        Some(a) => a >= 0,
        None => true,
    }
}

} // verus!
