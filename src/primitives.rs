use vstd::prelude::*;

verus! {

/// A scalar, single-currency balance.
pub type Money = u64;

/// Opaque identifier of an account.
#[derive(Clone, Copy, Debug, PartialEq, Eq, Structural, Hash)]
pub struct Address(pub u64);

/// Moves `amount` from `src` to `dst`. A transaction without a sender is
/// issued by the faucet and only credits `dst`. Two transactions are the same
/// transaction exactly when all their fields agree; `nonce` lets a sender issue
/// otherwise identical transfers.
#[derive(Clone, Copy, Debug, PartialEq, Eq, Structural, Hash)]
pub struct Transaction {
    pub src: Option<Address>,
    pub dst: Address,
    pub amount: Money,
    pub nonce: u64,
}

/// A block: the height it extends and its transactions, in order.
#[derive(Clone, Debug)]
pub struct Block {
    pub prev_height: usize,
    pub txs: Vec<Transaction>,
}

} // verus!
