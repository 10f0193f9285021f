use bazuka::chain::{balance_from_stored, BlockRejection, Blockchain, KvStoreChain};
use bazuka::encoding::{decode_money, encode_money, height_store_key, Identifiable, StringKey};
use bazuka::ledger::{apply_transactions, check_transfer, touched_addresses, BalanceSheet, LedgerError};
use bazuka::mempool::{included_in, Admission, Mempool, NodeContext};
use bazuka::primitives::{Address, Block, Transaction};
use bazuka::store::{KvStore, MemKvStore, WriteOp};

const A: Address = Address(0xa);
const B: Address = Address(0xb);
const C: Address = Address(0xc);

fn faucet(dst: Address, amount: u64) -> Transaction {
    Transaction { src: None, dst, amount, nonce: 0 }
}

fn transfer(src: Address, dst: Address, amount: u64) -> Transaction {
    Transaction { src: Some(src), dst, amount, nonce: 0 }
}

fn block(prev_height: usize, txs: Vec<Transaction>) -> Block {
    Block { prev_height, txs }
}

fn fresh_chain() -> KvStoreChain<MemKvStore> {
    KvStoreChain::new(MemKvStore::new())
}

fn balance(chain: &KvStoreChain<MemKvStore>, a: Address) -> u64 {
    chain.get_balance(a).unwrap()
}

#[test]
fn empty_ledger_reads_zero_and_height_zero() {
    let chain = fresh_chain();
    assert_eq!(chain.get_height(), 0);
    assert_eq!(chain.get_balance(A), Ok(0));
    assert_eq!(chain.get_balance(Address(u64::MAX)), Ok(0));
}

#[test]
fn untouched_address_stays_zero_after_blocks() {
    let mut chain = fresh_chain();
    let blocks = vec![block(0, vec![faucet(A, 100)]), block(1, vec![transfer(A, B, 30)])];
    assert_eq!(chain.extend(&blocks), Ok(2));
    assert_eq!(balance(&chain, C), 0);
}

#[test]
fn three_block_scenario() {
    let mut chain = fresh_chain();
    assert_eq!(chain.extend(&vec![block(0, vec![faucet(A, 100)])]), Ok(1));
    assert_eq!(balance(&chain, A), 100);
    assert_eq!(chain.get_height(), 1);

    assert_eq!(chain.extend(&vec![block(1, vec![transfer(A, B, 30)])]), Ok(2));
    assert_eq!(balance(&chain, A), 70);
    assert_eq!(balance(&chain, B), 30);
    assert_eq!(chain.get_height(), 2);

    let r = chain.extend(&vec![block(2, vec![transfer(A, C, 1000)])]);
    assert_eq!(r, Err(BlockRejection { index: 0, error: LedgerError::InsufficientFunds }));
    assert_eq!(balance(&chain, A), 70);
    assert_eq!(balance(&chain, B), 30);
    assert_eq!(balance(&chain, C), 0);
    assert_eq!(chain.get_height(), 2);
}

#[test]
fn value_is_conserved_across_blocks() {
    let mut chain = fresh_chain();
    let blocks = vec![
        block(0, vec![faucet(A, 100), faucet(B, 5)]),
        block(1, vec![transfer(A, B, 30), transfer(B, C, 20), transfer(C, A, 1)]),
    ];
    assert_eq!(chain.extend(&blocks), Ok(2));
    let sum = balance(&chain, A) + balance(&chain, B) + balance(&chain, C);
    assert_eq!(sum, 105);
    assert_eq!(balance(&chain, A), 71);
    assert_eq!(balance(&chain, B), 15);
    assert_eq!(balance(&chain, C), 19);
    assert_eq!(chain.get_height(), 2);
}

#[test]
fn discontinuous_block_changes_nothing() {
    let mut chain = fresh_chain();
    assert_eq!(chain.extend(&vec![block(0, vec![faucet(A, 100)])]), Ok(1));
    let r = chain.extend(&vec![block(0, vec![faucet(A, 5)])]);
    assert_eq!(r, Err(BlockRejection { index: 0, error: LedgerError::ChainDiscontinuity }));
    let r = chain.extend(&vec![block(7, vec![faucet(A, 5)])]);
    assert_eq!(r, Err(BlockRejection { index: 0, error: LedgerError::ChainDiscontinuity }));
    assert_eq!(balance(&chain, A), 100);
    assert_eq!(chain.get_height(), 1);
}

#[test]
fn discontinuous_block_leaves_store_bytes_identical() {
    let mut chain = fresh_chain();
    chain.extend_block(&block(0, vec![faucet(A, 9)])).unwrap();
    assert_eq!(chain.extend_block(&block(5, vec![faucet(A, 1)])), Err(LedgerError::ChainDiscontinuity));
    assert_eq!(balance(&chain, A), 9);
    assert_eq!(chain.get_height(), 1);
}

#[test]
fn overdraft_rejects_whole_block() {
    let mut chain = fresh_chain();
    assert_eq!(chain.extend(&vec![block(0, vec![faucet(A, 50)])]), Ok(1));
    let bad = block(1, vec![transfer(A, B, 10), faucet(C, 7), transfer(A, C, 41)]);
    let r = chain.extend(&vec![bad]);
    assert_eq!(r, Err(BlockRejection { index: 0, error: LedgerError::InsufficientFunds }));
    assert_eq!(balance(&chain, A), 50);
    assert_eq!(balance(&chain, B), 0);
    assert_eq!(balance(&chain, C), 0);
    assert_eq!(chain.get_height(), 1);
}

#[test]
fn extend_stops_at_first_refused_block() {
    let mut chain = fresh_chain();
    let blocks = vec![
        block(0, vec![faucet(A, 10)]),
        block(1, vec![transfer(A, B, 4)]),
        block(2, vec![transfer(B, C, 5)]),
        block(3, vec![faucet(C, 1)]),
    ];
    let r = chain.extend(&blocks);
    assert_eq!(r, Err(BlockRejection { index: 2, error: LedgerError::InsufficientFunds }));
    assert_eq!(chain.get_height(), 2);
    assert_eq!(balance(&chain, A), 6);
    assert_eq!(balance(&chain, B), 4);
    assert_eq!(balance(&chain, C), 0);
}

#[test]
fn invalid_transactions_are_refused() {
    let mut chain = fresh_chain();
    let r = chain.extend(&vec![block(0, vec![faucet(A, 0)])]);
    assert_eq!(r, Err(BlockRejection { index: 0, error: LedgerError::InvalidTransaction }));
    assert_eq!(chain.extend(&vec![block(0, vec![faucet(A, 10)])]), Ok(1));
    let r = chain.extend(&vec![block(1, vec![transfer(A, A, 5)])]);
    assert_eq!(r, Err(BlockRejection { index: 0, error: LedgerError::InvalidTransaction }));
    let r = chain.extend(&vec![block(1, vec![faucet(A, u64::MAX)])]);
    assert_eq!(r, Err(BlockRejection { index: 0, error: LedgerError::InvalidTransaction }));
    assert_eq!(balance(&chain, A), 10);
    assert_eq!(chain.get_height(), 1);
}

#[test]
fn largest_balance_is_stored_whole() {
    let mut chain = fresh_chain();
    assert_eq!(chain.extend(&vec![block(0, vec![faucet(A, u64::MAX)])]), Ok(1));
    assert_eq!(balance(&chain, A), u64::MAX);
    assert_eq!(chain.extend(&vec![block(1, vec![transfer(A, B, 256)])]), Ok(2));
    assert_eq!(balance(&chain, A), u64::MAX - 256);
    assert_eq!(balance(&chain, B), 256);
}

#[test]
fn corrupt_balance_is_a_store_failure() {
    let mut store = MemKvStore::new();
    store.set(A.get_key(), vec![1, 2, 3]).unwrap();
    let mut chain = KvStoreChain::new(store);
    assert_eq!(chain.get_balance(A), Err(LedgerError::StoreFailure));
    let r = chain.extend(&vec![block(0, vec![faucet(A, 1)])]);
    assert_eq!(r, Err(BlockRejection { index: 0, error: LedgerError::StoreFailure }));
    assert_eq!(chain.get_height(), 0);
}

#[test]
fn balance_from_stored_values() {
    assert_eq!(balance_from_stored(&None), Ok(0));
    assert_eq!(balance_from_stored(&Some(vec![44, 1, 0, 0, 0, 0, 0, 0])), Ok(300));
    assert_eq!(balance_from_stored(&Some(vec![44])), Err(LedgerError::StoreFailure));
    assert_eq!(balance_from_stored(&Some(vec![])), Err(LedgerError::StoreFailure));
}

#[test]
fn money_encoding_is_little_endian_and_wide() {
    assert_eq!(encode_money(0x0102030405060708), vec![8, 7, 6, 5, 4, 3, 2, 1]);
    assert_eq!(encode_money(0), vec![0; 8]);
    assert_eq!(decode_money(&vec![8, 7, 6, 5, 4, 3, 2, 1]), Some(0x0102030405060708));
    assert_eq!(decode_money(&encode_money(u64::MAX)), Some(u64::MAX));
    assert_eq!(decode_money(&encode_money(300)), Some(300));
    assert_eq!(decode_money(&vec![1, 2]), None);
}

#[test]
fn address_keys_are_prefixed_hex() {
    assert_eq!(Address(0x1f).get_key().as_str(), "addr_000000000000001f");
    assert_eq!(Address(u64::MAX).get_key().as_str(), "addr_ffffffffffffffff");
    assert_eq!(Address(0x0123456789abcdef).get_key().as_str(), "addr_0123456789abcdef");
    assert!(!Address(1).get_key().same_as(&Address(16).get_key()));
    assert_eq!(height_store_key().as_str(), "chain_height");
    assert!(StringKey::new("x").same_as(&StringKey::new("x")));
}

#[test]
fn reopened_chain_resumes_at_stored_height() {
    let mut chain = fresh_chain();
    let blocks = vec![block(0, vec![faucet(A, 10)]), block(1, vec![transfer(A, B, 3)])];
    assert_eq!(chain.extend(&blocks), Ok(2));
    let store = chain.into_store();
    assert_eq!(store.get(height_store_key()), Ok(Some(encode_money(2))));
    let mut reopened = KvStoreChain::open(store).unwrap();
    assert_eq!(reopened.get_height(), 2);
    assert_eq!(balance(&reopened, A), 7);
    assert_eq!(balance(&reopened, B), 3);
    assert_eq!(reopened.extend(&vec![block(2, vec![transfer(B, A, 1)])]), Ok(3));
    assert_eq!(balance(&reopened, A), 8);
}

#[test]
fn open_empty_and_corrupt_height() {
    let chain = KvStoreChain::open(MemKvStore::new()).unwrap();
    assert_eq!(chain.get_height(), 0);
    let mut store = MemKvStore::new();
    store.set(height_store_key(), vec![1, 0]).unwrap();
    assert!(matches!(KvStoreChain::open(store), Err(LedgerError::StoreFailure)));
}

#[test]
fn mem_store_operations() {
    let mut s = MemKvStore::new();
    let k = StringKey::new("k");
    assert_eq!(s.get(k.duplicate()), Ok(None));
    s.set(k.duplicate(), vec![1]).unwrap();
    s.set(k.duplicate(), vec![2]).unwrap();
    assert_eq!(s.get(k.duplicate()), Ok(Some(vec![2])));
    s.del(k.duplicate()).unwrap();
    assert_eq!(s.get(k.duplicate()), Ok(None));
    s.batch(vec![
        WriteOp::Put(StringKey::new("a"), vec![1]),
        WriteOp::Put(StringKey::new("b"), vec![2]),
        WriteOp::Remove(StringKey::new("a")),
        WriteOp::Put(StringKey::new("b"), vec![3]),
    ])
    .unwrap();
    assert_eq!(s.get(StringKey::new("a")), Ok(None));
    assert_eq!(s.get(StringKey::new("b")), Ok(Some(vec![3])));
}

#[test]
fn check_transfer_verdicts() {
    assert_eq!(check_transfer(&transfer(A, B, 5), 5, 0), Ok(()));
    assert_eq!(check_transfer(&transfer(A, B, 6), 5, 0), Err(LedgerError::InsufficientFunds));
    assert_eq!(check_transfer(&transfer(A, A, 1), 5, 5), Err(LedgerError::InvalidTransaction));
    assert_eq!(check_transfer(&transfer(A, B, 0), 5, 0), Err(LedgerError::InvalidTransaction));
    assert_eq!(check_transfer(&faucet(B, 1), 0, u64::MAX), Err(LedgerError::InvalidTransaction));
    assert_eq!(check_transfer(&faucet(B, 1), 0, u64::MAX - 1), Ok(()));
}

#[test]
fn apply_transactions_on_sheet() {
    let mut sheet = BalanceSheet::new();
    sheet.set(A, 10);
    let after = apply_transactions(sheet, &vec![transfer(A, B, 4), faucet(C, 2), transfer(B, C, 1)]).unwrap();
    assert_eq!(after.balance(A), 6);
    assert_eq!(after.balance(B), 3);
    assert_eq!(after.balance(C), 3);
    let mut sheet = BalanceSheet::new();
    sheet.set(A, 1);
    let r = apply_transactions(sheet, &vec![transfer(A, B, 1), transfer(A, B, 1)]);
    assert!(matches!(r, Err(LedgerError::InsufficientFunds)));
}

#[test]
fn touched_addresses_are_distinct() {
    let t = touched_addresses(&vec![transfer(A, B, 1), faucet(B, 2), transfer(B, A, 1)]);
    assert_eq!(t, vec![A, B]);
}

fn funded_node() -> NodeContext<KvStoreChain<MemKvStore>> {
    let mut node = NodeContext::new(fresh_chain());
    node.extend(&vec![block(0, vec![faucet(A, 100)]), block(1, vec![transfer(A, B, 30)])]).unwrap();
    node
}

#[test]
fn admission_scenario() {
    let mut node = funded_node();
    assert_eq!(node.blockchain.get_balance(A), Ok(70));
    let tx = transfer(A, C, 50);
    assert_eq!(node.admit_transaction(tx, 1000), Admission::Accepted { already_pending: false });
    assert_eq!(node.admit_transaction(tx, 1001), Admission::Accepted { already_pending: true });
    assert_eq!(node.mempool.len(), 1);
    assert_eq!(node.mempool.first_seen(&tx), Some(1000));
    assert_eq!(node.blockchain.get_balance(A), Ok(70));
}

#[test]
fn resubmission_keeps_first_seen() {
    let mut node = funded_node();
    let tx = transfer(B, C, 30);
    assert_eq!(node.admit_transaction(tx, 5), Admission::Accepted { already_pending: false });
    assert_eq!(node.admit_transaction(tx, 99), Admission::Accepted { already_pending: true });
    assert_eq!(node.admit_transaction(tx, 100), Admission::Accepted { already_pending: true });
    assert_eq!(node.mempool.len(), 1);
    assert_eq!(node.mempool.first_seen(&tx), Some(5));
}

#[test]
fn admission_rejections() {
    let mut node = funded_node();
    assert_eq!(node.admit_transaction(transfer(A, C, 71), 1), Admission::Rejected(LedgerError::InsufficientFunds));
    assert_eq!(node.admit_transaction(transfer(A, A, 1), 1), Admission::Rejected(LedgerError::InvalidTransaction));
    assert_eq!(node.admit_transaction(transfer(C, A, 1), 1), Admission::Rejected(LedgerError::InsufficientFunds));
    assert_eq!(node.mempool.len(), 0);
    assert_eq!(node.mempool.first_seen(&transfer(A, C, 71)), None);
}

#[test]
fn pending_transactions_do_not_add_up() {
    let mut node = funded_node();
    let t1 = Transaction { src: Some(A), dst: C, amount: 60, nonce: 1 };
    let t2 = Transaction { src: Some(A), dst: C, amount: 60, nonce: 2 };
    assert_eq!(node.admit_transaction(t1, 1), Admission::Accepted { already_pending: false });
    assert_eq!(node.admit_transaction(t2, 2), Admission::Accepted { already_pending: false });
    assert_eq!(node.mempool.len(), 2);
}

#[test]
fn applied_block_clears_included_pending() {
    let mut node = funded_node();
    let t1 = transfer(A, C, 10);
    let t2 = transfer(B, C, 10);
    node.admit_transaction(t1, 1);
    node.admit_transaction(t2, 2);
    assert_eq!(node.extend(&vec![block(2, vec![t1])]), Ok(3));
    assert_eq!(node.mempool.len(), 1);
    assert_eq!(node.mempool.first_seen(&t1), None);
    assert_eq!(node.mempool.first_seen(&t2), Some(2));
    let r = node.extend(&vec![block(9, vec![t2])]);
    assert_eq!(r, Err(BlockRejection { index: 0, error: LedgerError::ChainDiscontinuity }));
    assert_eq!(node.mempool.len(), 1);
}

#[test]
fn included_in_looks_at_first_blocks_only() {
    let blocks = vec![block(0, vec![faucet(A, 1)]), block(1, vec![faucet(B, 1)])];
    assert!(included_in(&blocks, 2, &faucet(B, 1)));
    assert!(!included_in(&blocks, 1, &faucet(B, 1)));
    assert!(included_in(&blocks, 1, &faucet(A, 1)));
    assert!(!included_in(&blocks, 2, &faucet(C, 1)));
}

#[test]
fn empty_mempool() {
    let pool = Mempool::new();
    assert_eq!(pool.len(), 0);
}
