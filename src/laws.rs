use vstd::prelude::*;
use crate::chain::ledger_of;
use crate::ledger::{
    apply_block, apply_chain, apply_tx, apply_txs, lemma_frame, lemma_refusal_persists,
    sender_balance, touched, touches, LedgerError,
};
use crate::mempool::{admission_outcome, is_pending, txs_distinct, Admission, TransactionStats};
use crate::primitives::{Address, Block, Transaction};

verus! {

/// The sum of the balances of `addrs`.
pub open spec fn total(m: Map<Address, u64>, addrs: Seq<Address>) -> int
    decreases addrs.len(),
{
    if addrs.len() == 0 {
        0
    } else {
        total(m, addrs.drop_last()) + m[addrs.last()]
    }
}

/// The value that the faucet transactions of `txs` issue.
pub open spec fn minted(txs: Seq<Transaction>) -> int
    decreases txs.len(),
{
    if txs.len() == 0 {
        0
    } else {
        minted(txs.drop_last()) + if txs.last().src is None { txs.last().amount as int } else { 0 }
    }
}

/// The value that the faucet transactions of the blocks issue.
pub open spec fn minted_in(blocks: Seq<Block>) -> int
    decreases blocks.len(),
{
    if blocks.len() == 0 {
        0
    } else {
        minted_in(blocks.drop_last()) + minted(blocks.last().txs@)
    }
}

/// Whether some transaction of some block touches `a`.
pub open spec fn touched_in(blocks: Seq<Block>, a: Address) -> bool {
    exists|i: int| 0 <= i < blocks.len() && touched(blocks[i].txs@, a)
}

proof fn lemma_total_insert(m: Map<Address, u64>, addrs: Seq<Address>, k: Address, v: u64)
    requires
        addrs.no_duplicates(),
    ensures
        total(m.insert(k, v), addrs) == total(m, addrs) + if addrs.contains(k) { v - m[k] } else { 0 },
    decreases addrs.len(),
{
    if addrs.len() > 0 {
        let rest = addrs.drop_last();
        assert(rest.no_duplicates());
        lemma_total_insert(m, rest, k, v);
        if addrs.contains(k) {
            if addrs.last() != k {
                let i = choose|i: int| 0 <= i < addrs.len() && addrs[i] == k;
                assert(rest[i] == k);
            } else {
                assert(!rest.contains(k));
            }
        } else {
            assert(!rest.contains(k)) by {
                if rest.contains(k) {
                    let i = choose|i: int| 0 <= i < rest.len() && rest[i] == k;
                    assert(addrs[i] == k);
                }
            }
        }
    }
}

proof fn lemma_tx_conserves(m: Map<Address, u64>, tx: Transaction, addrs: Seq<Address>)
    requires
        apply_tx(m, tx) is Ok,
        addrs.no_duplicates(),
        forall|a: Address| touches(tx, a) ==> addrs.contains(a),
    ensures
        total(apply_tx(m, tx)->Ok_0, addrs) == total(m, addrs) + if tx.src is None { tx.amount as int } else { 0 },
{
    match tx.src {
        Some(s) => {
            let m1 = m.insert(s, (m[s] - tx.amount) as u64);
            lemma_total_insert(m, addrs, s, (m[s] - tx.amount) as u64);
            lemma_total_insert(m1, addrs, tx.dst, (m[tx.dst] + tx.amount) as u64);
            assert(touches(tx, s) && touches(tx, tx.dst));
        },
        None => {
            lemma_total_insert(m, addrs, tx.dst, (m[tx.dst] + tx.amount) as u64);
            assert(touches(tx, tx.dst));
        },
    }
}

proof fn lemma_txs_conserve(m: Map<Address, u64>, txs: Seq<Transaction>, addrs: Seq<Address>)
    requires
        apply_txs(m, txs) is Ok,
        addrs.no_duplicates(),
        forall|a: Address| touched(txs, a) ==> addrs.contains(a),
    ensures
        total(apply_txs(m, txs)->Ok_0, addrs) == total(m, addrs) + minted(txs),
    decreases txs.len(),
{
    if txs.len() > 0 {
        let rest = txs.drop_last();
        assert forall|a: Address| touched(rest, a) implies addrs.contains(a) by {
            let i = choose|i: int| 0 <= i < rest.len() && touches(rest[i], a);
            assert(touches(txs[i], a));
        }
        lemma_txs_conserve(m, rest, addrs);
        assert forall|a: Address| touches(txs.last(), a) implies addrs.contains(a) by {
            assert(touches(txs[txs.len() - 1], a));
        }
        lemma_tx_conserves(apply_txs(m, rest)->Ok_0, txs.last(), addrs);
    }
}

/// Applying blocks creates no value and destroys none: over any list of
/// distinct addresses that holds every address the blocks touch, the sum of
/// balances grows exactly by what the faucet issued in those blocks, and the
/// height grows by the number of blocks.
pub proof fn lemma_value_conserved(m: Map<Address, u64>, h: nat, blocks: Seq<Block>, addrs: Seq<Address>)
    requires
        apply_chain(m, h, blocks) is Ok,
        addrs.no_duplicates(),
        forall|a: Address| touched_in(blocks, a) ==> addrs.contains(a),
    ensures
        total(apply_chain(m, h, blocks)->Ok_0.0, addrs) == total(m, addrs) + minted_in(blocks),
        apply_chain(m, h, blocks)->Ok_0.1 == h + blocks.len(),
    decreases blocks.len(),
{
    if blocks.len() > 0 {
        let rest = blocks.drop_last();
        assert forall|a: Address| touched_in(rest, a) implies addrs.contains(a) by {
            let i = choose|i: int| 0 <= i < rest.len() && touched(rest[i].txs@, a);
            assert(touched(blocks[i].txs@, a));
        }
        lemma_value_conserved(m, h, rest, addrs);
        let (m1, h1) = apply_chain(m, h, rest)->Ok_0;
        let b = blocks.last();
        assert forall|a: Address| touched(b.txs@, a) implies addrs.contains(a) by {
            assert(touched(blocks[blocks.len() - 1].txs@, a));
        }
        lemma_txs_conserve(m1, b.txs@, addrs);
    }
}

/// A balance that no transaction of the blocks touches is left as it was.
pub proof fn lemma_untouched_kept(m: Map<Address, u64>, h: nat, blocks: Seq<Block>, a: Address)
    requires
        apply_chain(m, h, blocks) is Ok,
        !touched_in(blocks, a),
    ensures
        apply_chain(m, h, blocks)->Ok_0.0[a] == m[a],
    decreases blocks.len(),
{
    if blocks.len() > 0 {
        let rest = blocks.drop_last();
        assert(!touched_in(rest, a)) by {
            if touched_in(rest, a) {
                let i = choose|i: int| 0 <= i < rest.len() && touched(rest[i].txs@, a);
                assert(touched(blocks[i].txs@, a));
            }
        }
        lemma_untouched_kept(m, h, rest, a);
        let m1 = apply_chain(m, h, rest)->Ok_0.0;
        assert(!touched(blocks[blocks.len() - 1].txs@, a));
        lemma_frame(m1, m1, blocks.last().txs@);
    }
}

/// From an empty store, an address that no applied transaction ever credited
/// or debited has balance zero.
pub proof fn lemma_never_touched_is_zero(blocks: Seq<Block>, a: Address)
    requires
        apply_chain(ledger_of(Map::empty()), 0, blocks) is Ok,
        !touched_in(blocks, a),
    ensures
        apply_chain(ledger_of(Map::empty()), 0, blocks)->Ok_0.0[a] == 0,
{
    lemma_untouched_kept(ledger_of(Map::empty()), 0, blocks, a);
}

/// A block with a transaction that would overdraw its sender, given the
/// balances left by the transactions before it, is refused as a whole.
pub proof fn lemma_overdraft_refuses_block(m: Map<Address, u64>, h: nat, b: Block, k: int)
    requires
        b.prev_height == h,
        h < usize::MAX,
        0 <= k < b.txs@.len(),
        apply_txs(m, b.txs@.take(k)) is Ok,
        b.txs@[k].amount > 0,
        b.txs@[k].src matches Some(s) && s != b.txs@[k].dst,
        sender_balance(apply_txs(m, b.txs@.take(k))->Ok_0, b.txs@[k]) < b.txs@[k].amount,
    ensures
        apply_block(m, h, b) == Err::<(Map<Address, u64>, nat), LedgerError>(LedgerError::InsufficientFunds),
{
    let txs = b.txs@;
    assert(txs.take(k + 1).drop_last() =~= txs.take(k));
    assert(txs.take(k + 1).last() == txs[k]);
    lemma_refusal_persists(m, txs, k + 1);
}

/// Submitting the same transaction twice: both answers accept it, and the
/// pool holds exactly one entry for it, stamped with the first time.
pub proof fn lemma_admission_idempotent(
    pool: Seq<(Transaction, TransactionStats)>,
    m: Map<Address, u64>,
    tx: Transaction,
    t1: u64,
    t2: u64,
)
    requires
        txs_distinct(pool),
        !is_pending(pool, tx),
        admission_outcome(pool, m, tx, t1).1 is Accepted,
    ensures
        ({
            let (after_first, first) = admission_outcome(pool, m, tx, t1);
            let (after_second, second) = admission_outcome(after_first, m, tx, t2);
            &&& first == Admission::Accepted { already_pending: false }
            &&& second == Admission::Accepted { already_pending: true }
            &&& after_second == after_first
            &&& after_first.len() == pool.len() + 1
            &&& exists|i: int| 0 <= i < after_second.len() && after_second[i] == (tx, TransactionStats { first_seen: t1 })
            &&& forall|i: int, j: int| 0 <= i < after_second.len() && 0 <= j < after_second.len() && after_second[i].0 == tx && after_second[j].0 == tx ==> i == j
        }),
{
    let after_first = admission_outcome(pool, m, tx, t1).0;
    let n = pool.len() as int;
    assert(after_first[n] == (tx, TransactionStats { first_seen: t1 }));
    assert(is_pending(after_first, tx));
    assert forall|i: int, j: int| 0 <= i < after_first.len() && 0 <= j < after_first.len() && after_first[i].0 == tx && after_first[j].0 == tx implies i == j by {
        if i < n {
            assert(after_first[i] == pool[i]);
        }
        if j < n {
            assert(after_first[j] == pool[j]);
        }
    }
}

} // verus!
