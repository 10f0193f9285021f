use vstd::prelude::*;
use crate::chain::{BlockRejection, Blockchain};
use crate::ledger::{apply_block, apply_chain, apply_tx, check_transfer, LedgerError};
use crate::primitives::{Address, Block, Transaction};

verus! {

/// When a pending transaction was first seen.
#[derive(Clone, Copy, Debug, PartialEq, Eq, Structural)]
pub struct TransactionStats {
    pub first_seen: u64,
}

/// The answer to an admission request.
#[derive(Clone, Copy, Debug, PartialEq, Eq, Structural)]
pub enum Admission {
    /// The transaction is pending: newly added, or already there.
    Accepted { already_pending: bool },
    /// The transaction was refused and is not pending.
    Rejected(LedgerError),
}

/// Whether `tx` has an entry in `pool`.
pub open spec fn is_pending(pool: Seq<(Transaction, TransactionStats)>, tx: Transaction) -> bool {
    exists|i: int| 0 <= i < pool.len() && pool[i].0 == tx
}

/// Whether no transaction has two entries.
pub open spec fn txs_distinct(pool: Seq<(Transaction, TransactionStats)>) -> bool {
    forall|i: int, j: int| 0 <= i < pool.len() && 0 <= j < pool.len() && i != j ==> pool[i].0 != pool[j].0
}

/// The pool and the answer after admitting `tx` at time `now` against the
/// balances `m`: a pending transaction is accepted again and keeps its entry;
/// a new one is validated as if applied alone to `m`.
pub open spec fn admission_outcome(
    pool: Seq<(Transaction, TransactionStats)>,
    m: Map<Address, u64>,
    tx: Transaction,
    now: u64,
) -> (Seq<(Transaction, TransactionStats)>, Admission) {
    if is_pending(pool, tx) {
        (pool, Admission::Accepted { already_pending: true })
    } else {
        match apply_tx(m, tx) {
            Err(e) => (pool, Admission::Rejected(e)),
            Ok(_) => (pool.push((tx, TransactionStats { first_seen: now })), Admission::Accepted { already_pending: false }),
        }
    }
}

/// Whether `tx` is in one of the first `n` blocks.
pub open spec fn included(blocks: Seq<Block>, n: int, tx: Transaction) -> bool {
    exists|i: int, j: int| 0 <= i < n && 0 <= j < blocks[i].txs@.len() && blocks[i].txs@[j] == tx
}

/// Whether `tx` is in one of the first `n` blocks.
pub fn included_in(blocks: &Vec<Block>, n: usize, tx: &Transaction) -> (r: bool)
    requires
        n <= blocks@.len(),
    ensures
        r == included(blocks@, n as int, *tx),
{
    let mut i: usize = 0;
    while i < n
        invariant
            n <= blocks@.len(),
            i <= n,
            !included(blocks@, i as int, *tx),
        decreases n - i,
    {
        let txs = &blocks[i].txs;
        let mut j: usize = 0;
        while j < txs.len()
            invariant
                n <= blocks@.len(),
                i < n,
                txs@ == blocks@[i as int].txs@,
                j <= txs@.len(),
                forall|k: int| 0 <= k < j ==> txs@[k] != *tx,
            decreases txs@.len() - j,
        {
            if txs[j] == *tx {
                assert(blocks@[i as int].txs@[j as int] == *tx);
                return true;
            }
            j = j + 1;
        }
        assert(!included(blocks@, i + 1, *tx)) by {
            if included(blocks@, i + 1, *tx) {
                let (a, b) = choose|a: int, b: int| 0 <= a < i + 1 && 0 <= b < blocks@[a].txs@.len() && blocks@[a].txs@[b] == *tx;
                if a < i {
                    assert(included(blocks@, i as int, *tx));
                }
            }
        }
        i = i + 1;
    }
    false
}

/// Transactions admitted but not yet in an applied block, at most one entry
/// for each.
pub struct Mempool {
    entries: Vec<(Transaction, TransactionStats)>,
}

impl View for Mempool {
    type V = Seq<(Transaction, TransactionStats)>;

    closed spec fn view(&self) -> Seq<(Transaction, TransactionStats)> {
        self.entries@
    }
}

impl Mempool {
    pub closed spec fn well_formed(&self) -> bool {
        txs_distinct(self.entries@)
    }

    /// An empty pool.
    pub fn new() -> (r: Mempool)
        ensures
            r.well_formed(),
            r@ == Seq::<(Transaction, TransactionStats)>::empty(),
    {
        Mempool { entries: Vec::new() }
    }

    /// The number of pending transactions.
    pub fn len(&self) -> (r: usize)
        ensures
            r == self@.len(),
    {
        self.entries.len()
    }

    /// When `tx` was first seen, if it is pending.
    pub fn first_seen(&self, tx: &Transaction) -> (r: Option<u64>)
        ensures
            match r {
                Some(t) => exists|i: int| 0 <= i < self@.len() && self@[i] == (*tx, TransactionStats { first_seen: t }),
                None => !is_pending(self@, *tx),
            },
    {
        let mut i: usize = 0;
        while i < self.entries.len()
            invariant
                i <= self@.len(),
                forall|j: int| 0 <= j < i ==> self@[j].0 != *tx,
            decreases self@.len() - i,
        {
            if self.entries[i].0 == *tx {
                assert(self@[i as int] == (*tx, TransactionStats { first_seen: self.entries[i as int].1.first_seen }));
                return Some(self.entries[i].1.first_seen);
            }
            i = i + 1;
        }
        None
    }

    fn push_new(&mut self, tx: Transaction, now: u64)
        requires
            old(self).well_formed(),
            !is_pending(old(self)@, tx),
        ensures
            final(self).well_formed(),
            final(self)@ == old(self)@.push((tx, TransactionStats { first_seen: now })),
    {
        self.entries.push((tx, TransactionStats { first_seen: now }));
        proof {
            let s = self.entries@;
            let o = old(self).entries@;
            assert forall|i: int, j: int| 0 <= i < s.len() && 0 <= j < s.len() && i != j implies s[i].0 != s[j].0 by {
                if i < o.len() && j < o.len() {
                    assert(s[i] == o[i] && s[j] == o[j]);
                } else if i < o.len() {
                    assert(s[i] == o[i]);
                } else {
                    assert(s[j] == o[j]);
                }
            }
        }
    }

    /// Drops every transaction that one of the first `n` blocks includes.
    pub fn remove_included(&mut self, blocks: &Vec<Block>, n: usize)
        requires
            old(self).well_formed(),
            n <= blocks@.len(),
        ensures
            final(self).well_formed(),
            final(self)@ == old(self)@.filter(|e: (Transaction, TransactionStats)| !included(blocks@, n as int, e.0)),
    {
        let ghost o = self@;
        let ghost keep = |e: (Transaction, TransactionStats)| !included(blocks@, n as int, e.0);
        let mut kept: Vec<(Transaction, TransactionStats)> = Vec::new();
        let mut i: usize = 0;
        assert(o.take(0) =~= Seq::<(Transaction, TransactionStats)>::empty());
        proof { reveal(Seq::filter); }
        while i < self.entries.len()
            invariant
                self@ == o,
                txs_distinct(o),
                n <= blocks@.len(),
                i <= o.len(),
                keep == |e: (Transaction, TransactionStats)| !included(blocks@, n as int, e.0),
                kept@ == o.take(i as int).filter(keep),
                txs_distinct(kept@),
                forall|k: int| 0 <= k < kept@.len() ==> exists|j: int| 0 <= j < i && #[trigger] kept@[k] == o[j],
            decreases o.len() - i,
        {
            let e = self.entries[i];
            proof {
                assert(o.take(i + 1).drop_last() =~= o.take(i as int));
                assert(o.take(i + 1).last() == e);
                reveal(Seq::filter);
            }
            if !included_in(blocks, n, &e.0) {
                let ghost before = kept@;
                kept.push(e);
                proof {
                    let s = kept@;
                    assert forall|a: int, b: int| 0 <= a < s.len() && 0 <= b < s.len() && a != b implies s[a].0 != s[b].0 by {
                        if a < before.len() && b < before.len() {
                            assert(s[a] == before[a] && s[b] == before[b]);
                        } else if a < before.len() {
                            assert(s[a] == before[a]);
                            let j = choose|j: int| 0 <= j < i && before[a] == o[j];
                        } else {
                            assert(s[b] == before[b]);
                            let j = choose|j: int| 0 <= j < i && before[b] == o[j];
                        }
                    }
                    assert forall|k: int| 0 <= k < s.len() implies exists|j: int| 0 <= j < i + 1 && #[trigger] s[k] == o[j] by {
                        if k < before.len() {
                            assert(s[k] == before[k]);
                            let j = choose|j: int| 0 <= j < i && before[k] == o[j];
                        } else {
                            assert(s[k] == o[i as int]);
                        }
                    }
                }
            }
            i = i + 1;
        }
        assert(o.take(o.len() as int) =~= o);
        self.entries = kept;
    }
}

/// The node's state: the ledger and the pool of pending transactions.
/// Callers serialise writers around it; see `admit_transaction`.
pub struct NodeContext<B: Blockchain> {
    pub blockchain: B,
    pub mempool: Mempool,
}

impl<B: Blockchain> NodeContext<B> {
    pub open spec fn well_formed(&self) -> bool {
        self.blockchain.well_formed() && self.mempool.well_formed()
    }

    pub fn new(blockchain: B) -> (r: NodeContext<B>)
        ensures
            r.blockchain == blockchain,
            r.mempool.well_formed(),
            r.mempool@ == Seq::<(Transaction, TransactionStats)>::empty(),
    {
        NodeContext { blockchain, mempool: Mempool::new() }
    }

    /// Validates `tx` against the current balances and, if it is valid and not
    /// yet pending, records it as first seen at `now`. Re-admitting a pending
    /// transaction changes nothing. The ledger is never changed.
    pub fn admit_transaction(&mut self, tx: Transaction, now: u64) -> (r: Admission)
        requires
            old(self).well_formed(),
        ensures
            final(self).well_formed(),
            final(self).blockchain == old(self).blockchain,
            r != Admission::Rejected(LedgerError::StoreFailure) ==> (final(self).mempool@, r)
                == admission_outcome(old(self).mempool@, old(self).blockchain.balances(), tx, now),
            r == Admission::Rejected(LedgerError::StoreFailure) ==> final(self).mempool@ == old(self).mempool@
                && !is_pending(old(self).mempool@, tx),
            old(self).blockchain.reliable() ==> r != Admission::Rejected(LedgerError::StoreFailure),
    {
        if self.mempool.first_seen(&tx).is_some() {
            return Admission::Accepted { already_pending: true };
        }
        let src_balance = match tx.src {
            Some(s) => match self.blockchain.get_balance(s) {
                Ok(b) => b,
                Err(e) => return Admission::Rejected(e),
            },
            None => 0,
        };
        let dst_balance = match self.blockchain.get_balance(tx.dst) {
            Ok(b) => b,
            Err(e) => return Admission::Rejected(e),
        };
        match check_transfer(&tx, src_balance, dst_balance) {
            Err(e) => Admission::Rejected(e),
            Ok(()) => {
                self.mempool.push_new(tx, now);
                Admission::Accepted { already_pending: false }
            },
        }
    }

    /// Applies the blocks to the ledger as `Blockchain::extend` does, then
    /// drops from the pool every transaction that an applied block includes.
    pub fn extend(&mut self, blocks: &Vec<Block>) -> (r: Result<usize, BlockRejection>)
        requires
            old(self).well_formed(),
        ensures
            final(self).well_formed(),
            old(self).blockchain.reliable() ==> final(self).blockchain.reliable(),
            old(self).blockchain.reliable() ==> !(r matches Err(rej) && rej.error == LedgerError::StoreFailure),
            r matches Err(rej) && rej.index == 0 ==> final(self).blockchain.durable() == old(self).blockchain.durable(),
            match r {
                Ok(h) => h == final(self).blockchain.height()
                    && apply_chain(old(self).blockchain.balances(), old(self).blockchain.height(), blocks@)
                        == Ok::<(Map<Address, u64>, nat), (nat, LedgerError)>((final(self).blockchain.balances(), final(self).blockchain.height()))
                    && final(self).mempool@ == old(self).mempool@.filter(
                        |e: (Transaction, TransactionStats)| !included(blocks@, blocks@.len() as int, e.0)),
                Err(rej) => rej.index < blocks@.len()
                    && apply_chain(old(self).blockchain.balances(), old(self).blockchain.height(), blocks@.take(rej.index as int))
                        == Ok::<(Map<Address, u64>, nat), (nat, LedgerError)>((final(self).blockchain.balances(), final(self).blockchain.height()))
                    && (rej.error == LedgerError::StoreFailure
                        || apply_block(final(self).blockchain.balances(), final(self).blockchain.height(), blocks@[rej.index as int])
                            == Err::<(Map<Address, u64>, nat), LedgerError>(rej.error))
                    && ((blocks@[rej.index as int].prev_height != final(self).blockchain.height()
                        || final(self).blockchain.height() >= usize::MAX) ==> rej.error == LedgerError::ChainDiscontinuity)
                    && final(self).mempool@ == old(self).mempool@.filter(
                        |e: (Transaction, TransactionStats)| !included(blocks@, rej.index as int, e.0)),
            },
    {
        let r = self.blockchain.extend(blocks);
        let applied = match r {
            Ok(_) => blocks.len(),
            Err(rej) => rej.index,
        };
        self.mempool.remove_included(blocks, applied);
        r
    }
}

} // verus!
