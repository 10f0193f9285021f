use vstd::prelude::*;
use crate::encoding::{
    addr_key, decode_money, encode_money, height_key, Identifiable, height_store_key, lemma_addr_key_injective,
    lemma_money_round_trip, money_bytes, money_of_bytes,
};
use crate::ledger::{
    apply_block, apply_chain, apply_transactions, apply_txs, lemma_frame, lemma_keeps_addresses, lemma_refusal_reasons, touched,
    touched_addresses, BalanceSheet, LedgerError,
};
use crate::primitives::{Address, Block, Money, Transaction};
use crate::store::{apply_ops, KvStore, WriteOp};

verus! {

/// The balance that a store holds for `a`: zero where it holds none, and
/// zero where the value is not a balance (reading it then fails).
pub open spec fn stored_balance(st: Map<Seq<char>, Seq<u8>>, a: Address) -> u64 {
    if st.contains_key(addr_key(a)) && st[addr_key(a)].len() == 8 {
        money_of_bytes(st[addr_key(a)])
    } else {
        0
    }
}

/// The balances that a store holds, one for every address.
pub open spec fn ledger_of(st: Map<Seq<char>, Seq<u8>>) -> Map<Address, u64> {
    Map::total(|a: Address| stored_balance(st, a))
}

/// The height that a store records: zero where it records none; `None`
/// where the value is not an eight-byte count that fits a `usize`.
pub open spec fn stored_height(st: Map<Seq<char>, Seq<u8>>) -> Option<nat> {
    if !st.contains_key(height_key()) {
        Some(0)
    } else if st[height_key()].len() == 8 && money_of_bytes(st[height_key()]) <= usize::MAX {
        Some(money_of_bytes(st[height_key()]) as nat)
    } else {
        None
    }
}

/// Whether every balance that a store holds is eight bytes long, so that
/// reading it cannot fail on its content.
pub open spec fn balances_readable(st: Map<Seq<char>, Seq<u8>>) -> bool {
    forall|a: Address| #[trigger] st.contains_key(addr_key(a)) ==> st[addr_key(a)].len() == 8
}

/// Whether applying `txs` writes the key `k`: the height key, or the key of
/// an address that they touch.
pub open spec fn written_key(txs: Seq<Transaction>, k: Seq<char>) -> bool {
    k == height_key() || exists|a: Address| touched(txs, a) && addr_key(a) == k
}

/// Whether `k` is the key of one of the addresses `s`.
spec fn lists_key(s: Seq<Address>, k: Seq<char>) -> bool {
    exists|c: Address| s.contains(c) && addr_key(c) == k
}

/// The first block of an `extend` that was refused, and why.
#[derive(Clone, Copy, Debug, PartialEq, Eq, Structural)]
pub struct BlockRejection {
    pub index: usize,
    pub error: LedgerError,
}

/// A ledger: balances and chain height, extended block by block.
pub trait Blockchain {
    /// The implementation's consistency condition, kept by every operation.
    spec fn well_formed(&self) -> bool;

    /// The balance of every address.
    spec fn balances(&self) -> Map<Address, u64>;

    /// The number of blocks applied.
    spec fn height(&self) -> nat;

    /// What the ledger has written to its durable storage.
    spec fn durable(&self) -> Map<Seq<char>, Seq<u8>>;

    /// Whether reads and writes of the ledger cannot fail.
    spec fn reliable(&self) -> bool;

    /// The balance of `addr`, zero if it was never credited or debited.
    fn get_balance(&self, addr: Address) -> (r: Result<Money, LedgerError>)
        requires
            self.well_formed(),
        ensures
            r matches Ok(v) ==> v == self.balances()[addr],
            r matches Err(e) ==> e == LedgerError::StoreFailure,
            self.reliable() ==> r is Ok,
    ;

    /// Applies the blocks in order, each one atomically, and stops at the first
    /// one refused. Returns the new height.
    fn extend(&mut self, blocks: &Vec<Block>) -> (r: Result<usize, BlockRejection>)
        requires
            old(self).well_formed(),
        ensures
            final(self).well_formed(),
            old(self).reliable() ==> final(self).reliable(),
            old(self).reliable() ==> !(r matches Err(rej) && rej.error == LedgerError::StoreFailure),
            r matches Err(rej) && rej.index == 0 ==> final(self).durable() == old(self).durable(),
            match r {
                Ok(h) => h == final(self).height() && apply_chain(old(self).balances(), old(self).height(), blocks@)
                    == Ok::<(Map<Address, u64>, nat), (nat, LedgerError)>((final(self).balances(), final(self).height())),
                Err(rej) => rej.index < blocks@.len()
                    && apply_chain(old(self).balances(), old(self).height(), blocks@.take(rej.index as int))
                        == Ok::<(Map<Address, u64>, nat), (nat, LedgerError)>((final(self).balances(), final(self).height()))
                    && (rej.error == LedgerError::StoreFailure
                        || apply_block(final(self).balances(), final(self).height(), blocks@[rej.index as int])
                            == Err::<(Map<Address, u64>, nat), LedgerError>(rej.error))
                    && ((blocks@[rej.index as int].prev_height != final(self).height() || final(self).height() >= usize::MAX)
                        ==> rej.error == LedgerError::ChainDiscontinuity),
            },
    ;

    /// The number of blocks applied so far.
    fn get_height(&self) -> (r: usize)
        requires
            self.well_formed(),
        ensures
            r == self.height(),
    ;
}

/// A ledger kept in a key-value store: each balance under its account key,
/// and the height under its own key.
pub struct KvStoreChain<K: KvStore> {
    database: K,
    height: usize,
}

/// What a read of an account key means: no value is a zero balance, a value
/// of eight bytes is a balance, any other value is a store failure.
pub fn balance_from_stored(v: &Option<Vec<u8>>) -> (r: Result<Money, LedgerError>)
    ensures
        r == match v {
            None => Ok(0),
            Some(b) => if b@.len() == 8 {
                Ok(money_of_bytes(b@))
            } else {
                Err(LedgerError::StoreFailure)
            },
        },
{
    match v {
        None => Ok(0),
        Some(b) => match decode_money(b) {
            Some(x) => Ok(x),
            None => Err(LedgerError::StoreFailure),
        },
    }
}

impl<K: KvStore> KvStoreChain<K> {
    /// What the store holds.
    pub closed spec fn contents(&self) -> Map<Seq<char>, Seq<u8>> {
        self.database.contents()
    }

    pub closed spec fn store_well_formed(&self) -> bool {
        self.database.well_formed()
    }

    pub closed spec fn chain_height(&self) -> nat {
        self.height as nat
    }

    pub closed spec fn store_infallible(&self) -> bool {
        self.database.infallible()
    }

    /// A ledger at height zero over `kv_store`, which records no block (an
    /// empty store, say); `open` resumes over any store.
    pub fn new(kv_store: K) -> (r: KvStoreChain<K>)
        requires
            stored_height(kv_store.contents()) == Some(0nat),
        ensures
            r.store_infallible() == kv_store.infallible(),
            r.contents() == kv_store.contents(),
            r.store_well_formed() == kv_store.well_formed(),
            r.chain_height() == 0,
    {
        KvStoreChain::<K> { database: kv_store, height: 0 }
    }

    /// A ledger over `kv_store` at the height that the store records, so that
    /// a node resumes where it stopped.
    pub fn open(kv_store: K) -> (r: Result<KvStoreChain<K>, LedgerError>)
        requires
            kv_store.well_formed(),
        ensures
            match r {
                Ok(c) => c.contents() == kv_store.contents() && c.store_well_formed()
                    && c.store_infallible() == kv_store.infallible()
                    && stored_height(kv_store.contents()) == Some(c.chain_height()),
                Err(e) => e == LedgerError::StoreFailure,
            },
            stored_height(kv_store.contents()) is None ==> r is Err,
            kv_store.infallible() && stored_height(kv_store.contents()) is Some ==> r is Ok,
    {
        let stored = match kv_store.get(height_store_key()) {
            Ok(v) => v,
            Err(_) => return Err(LedgerError::StoreFailure),
        };
        let height: usize = match stored {
            None => 0,
            Some(b) => match decode_money(&b) {
                Some(h) => {
                    if h > usize::MAX as u64 {
                        return Err(LedgerError::StoreFailure);
                    }
                    h as usize
                },
                None => return Err(LedgerError::StoreFailure),
            },
        };
        Ok(KvStoreChain { database: kv_store, height })
    }

    /// Gives the store back.
    pub fn into_store(self) -> (r: K)
        ensures
            r.contents() == self.contents(),
            r.well_formed() == self.store_well_formed(),
    {
        self.database
    }

    fn read_balance(&self, addr: Address) -> (r: Result<Money, LedgerError>)
        requires
            self.database.well_formed(),
        ensures
            r matches Ok(v) ==> v == ledger_of(self.contents())[addr],
            r matches Err(e) ==> e == LedgerError::StoreFailure,
            self.store_infallible() && balances_readable(self.contents()) ==> r is Ok,
    {
        match self.database.get(addr.get_key()) {
            Err(_) => Err(LedgerError::StoreFailure),
            Ok(v) => balance_from_stored(&v),
        }
    }

    /// Applies one block atomically: on any refusal or store failure the
    /// store and the height are left exactly as they were.
    pub fn extend_block(&mut self, block: &Block) -> (r: Result<(), LedgerError>)
        requires
            old(self).store_well_formed(),
        ensures
            final(self).store_well_formed(),
            match r {
                Ok(()) => apply_block(ledger_of(old(self).contents()), old(self).chain_height(), *block)
                    == Ok::<(Map<Address, u64>, nat), LedgerError>((ledger_of(final(self).contents()), final(self).chain_height())),
                Err(e) => final(self).contents() == old(self).contents()
                    && final(self).chain_height() == old(self).chain_height()
                    && (e == LedgerError::StoreFailure
                        || apply_block(ledger_of(old(self).contents()), old(self).chain_height(), *block)
                            == Err::<(Map<Address, u64>, nat), LedgerError>(e)),
            },
            (block.prev_height != old(self).chain_height() || old(self).chain_height() >= usize::MAX)
                ==> r == Err::<(), LedgerError>(LedgerError::ChainDiscontinuity),
            r is Ok ==> stored_height(final(self).contents()) == Some(final(self).chain_height()),
            r is Ok ==> forall|k: Seq<char>| !written_key(block.txs@, k)
                ==> (#[trigger] final(self).contents().contains_key(k)) == old(self).contents().contains_key(k)
                    && final(self).contents()[k] == old(self).contents()[k],
            r is Ok ==> forall|a: Address| touched(block.txs@, a)
                ==> (#[trigger] final(self).contents().contains_key(addr_key(a)))
                    && final(self).contents()[addr_key(a)].len() == 8,
            final(self).store_infallible() == old(self).store_infallible(),
            old(self).store_infallible() && balances_readable(old(self).contents())
                ==> r != Err::<(), LedgerError>(LedgerError::StoreFailure),
            r is Ok && balances_readable(old(self).contents()) ==> balances_readable(final(self).contents()),
    {
        if block.prev_height != self.height || self.height == usize::MAX {
            return Err(LedgerError::ChainDiscontinuity);
        }
        let ghost st0 = self.contents();
        let ghost m0 = ledger_of(st0);
        let addrs = touched_addresses(&block.txs);
        let mut sheet = BalanceSheet::new();
        let mut j: usize = 0;
        while j < addrs.len()
            invariant
                self.database.well_formed(),
                self.contents() == st0,
                self.store_infallible() == old(self).store_infallible(),
                old(self).contents() == st0,
                self.height == old(self).height,
                block.prev_height == self.height,
                self.height < usize::MAX,
                m0 == ledger_of(st0),
                addrs@.no_duplicates(),
                forall|a: Address| addrs@.contains(a) <==> touched(block.txs@, a),
                j <= addrs@.len(),
                sheet.well_formed(),
                forall|k: int| 0 <= k < j ==> sheet@[addrs@[k]] == m0[addrs@[k]],
            decreases addrs@.len() - j,
        {
            let a = addrs[j];
            let b = match self.read_balance(a) {
                Ok(b) => b,
                Err(e) => return Err(e),
            };
            sheet.set(a, b);
            j = j + 1;
        }
        proof {
            assert forall|a: Address| touched(block.txs@, a) implies m0[a] == sheet@[a] by {
                assert(addrs@.contains(a));
            }
            lemma_frame(m0, sheet@, block.txs@);
        }
        let ghost s0 = sheet@;
        assert(apply_txs(m0, block.txs@) is Ok ==> forall|b: Address| !touched(block.txs@, b)
            ==> (#[trigger] apply_txs(m0, block.txs@)->Ok_0[b]) == m0[b]);
        proof { lemma_refusal_reasons(m0, block.txs@); }
        let after = match apply_transactions(sheet, &block.txs) {
            Ok(s) => s,
            Err(e) => return Err(e),
        };
        let ghost m1 = apply_txs(m0, block.txs@)->Ok_0;
        let mut ops: Vec<WriteOp> = Vec::new();
        let mut j: usize = 0;
        while j < addrs.len()
            invariant
                self.database.well_formed(),
                self.contents() == st0,
                self.store_infallible() == old(self).store_infallible(),
                old(self).contents() == st0,
                self.height == old(self).height,
                block.prev_height == self.height,
                self.height < usize::MAX,
                m0 == ledger_of(st0),
                apply_txs(m0, block.txs@) is Ok,
                m1 == apply_txs(m0, block.txs@)->Ok_0,
                forall|b: Address| !touched(block.txs@, b) ==> m1[b] == m0[b],
                addrs@.no_duplicates(),
                forall|a: Address| addrs@.contains(a) <==> touched(block.txs@, a),
                j <= addrs@.len(),
                after.well_formed(),
                forall|k: int| 0 <= k < addrs@.len() ==> after@[addrs@[k]] == m1[addrs@[k]],
                forall|b: Address| #[trigger] stored_balance(apply_ops(st0, ops@), b)
                    == if addrs@.take(j as int).contains(b) { m1[b] } else { stored_balance(st0, b) },
                forall|k: Seq<char>| !lists_key(addrs@.take(j as int), k)
                    ==> (#[trigger] apply_ops(st0, ops@).contains_key(k)) == st0.contains_key(k)
                        && apply_ops(st0, ops@)[k] == st0[k],
                forall|c: Address| addrs@.take(j as int).contains(c)
                    ==> (#[trigger] apply_ops(st0, ops@).contains_key(addr_key(c)))
                        && apply_ops(st0, ops@)[addr_key(c)].len() == 8,
            decreases addrs@.len() - j,
        {
            let a = addrs[j];
            let v = after.balance(a);
            let key = a.get_key();
            let bytes = encode_money(v);
            let ghost kv = key@;
            let ghost bv = bytes@;
            let ghost prev = ops@;
            let ghost grown = addrs@.take(j + 1);
            ops.push(WriteOp::Put(key, bytes));
            proof {
                assert(ops@.drop_last() =~= prev);
                assert(apply_ops(st0, ops@) == apply_ops(st0, prev).insert(kv, bv));
                lemma_money_round_trip(v);
                assert forall|b: Address| #[trigger] stored_balance(apply_ops(st0, ops@), b)
                    == if addrs@.take(j + 1).contains(b) { m1[b] } else { stored_balance(st0, b) } by {
                    lemma_addr_key_injective(a, b);
                    assert(stored_balance(apply_ops(st0, prev), b)
                        == if addrs@.take(j as int).contains(b) { m1[b] } else { stored_balance(st0, b) });
                    if b != a {
                        assert(stored_balance(apply_ops(st0, ops@), b) == stored_balance(apply_ops(st0, prev), b));
                        let p = addrs@.take(j + 1);
                        let q = addrs@.take(j as int);
                        assert(p.contains(b) == q.contains(b)) by {
                            if p.contains(b) {
                                let k = choose|k: int| 0 <= k < p.len() && p[k] == b;
                                assert(q[k] == b);
                            }
                            if q.contains(b) {
                                let k = choose|k: int| 0 <= k < q.len() && q[k] == b;
                                assert(p[k] == b);
                            }
                        }
                    } else {
                        assert(addrs@.take(j + 1)[j as int] == b);
                        assert(after@[addrs@[j as int]] == m1[addrs@[j as int]]);
                        assert(apply_ops(st0, ops@)[addr_key(a)] == money_bytes(v));
                    }
                }
                let p = grown;
                let q = addrs@.take(j as int);
                assert forall|c: Address| #[trigger] p.contains(c) <==> (q.contains(c) || c == a) by {
                    if p.contains(c) {
                        let k = choose|k: int| 0 <= k < p.len() && p[k] == c;
                        if k < j { assert(q[k] == c); }
                    }
                    if q.contains(c) {
                        let k = choose|k: int| 0 <= k < q.len() && q[k] == c;
                        assert(p[k] == c);
                    }
                    if c == a { assert(p[j as int] == c); }
                }
                assert forall|k: Seq<char>| !lists_key(p, k)
                    implies (#[trigger] apply_ops(st0, ops@).contains_key(k)) == st0.contains_key(k)
                        && apply_ops(st0, ops@)[k] == st0[k] by {
                    assert(p.contains(a));
                    assert(kv != k);
                    if lists_key(q, k) {
                        let c = choose|c: Address| q.contains(c) && addr_key(c) == k;
                        assert(p.contains(c));
                    }
                    assert(apply_ops(st0, prev).contains_key(k) == st0.contains_key(k));
                }
                assert forall|c: Address| p.contains(c)
                    implies (#[trigger] apply_ops(st0, ops@).contains_key(addr_key(c)))
                        && apply_ops(st0, ops@)[addr_key(c)].len() == 8 by {
                    lemma_addr_key_injective(a, c);
                    if c != a {
                        assert(q.contains(c));
                        assert(apply_ops(st0, prev).contains_key(addr_key(c)));
                    }
                }
            }
            j = j + 1;
            proof { assert(addrs@.take(j as int) == grown); }
        }
        let new_height = self.height + 1;
        let hkey = height_store_key();
        let hbytes = encode_money(new_height as u64);
        let ghost kv = hkey@;
        let ghost bv = hbytes@;
        let ghost prev = ops@;
        ops.push(WriteOp::Put(hkey, hbytes));
        proof {
            assert(ops@.drop_last() =~= prev);
            assert(apply_ops(st0, ops@) == apply_ops(st0, prev).insert(kv, bv));
            assert(addrs@.take(addrs@.len() as int) =~= addrs@);
            assert forall|b: Address| stored_balance(apply_ops(st0, ops@), b) == m1[b] by {
                lemma_addr_key_injective(b, b);
                assert(stored_balance(apply_ops(st0, ops@), b) == stored_balance(apply_ops(st0, prev), b));
                if !addrs@.contains(b) {
                    assert(!touched(block.txs@, b));
                }
            }
        }
        let ghost all_ops = ops@;
        match self.database.batch(ops) {
            Err(_) => Err(LedgerError::StoreFailure),
            Ok(()) => {
                self.height = new_height;
                proof {
                    lemma_money_round_trip(new_height as u64);
                    assert(self.contents()[height_key()] == money_bytes(new_height as u64));
                    assert forall|b: Address| #[trigger] m1.contains_key(b) by {
                        assert(m0.contains_key(b));
                        lemma_keeps_addresses(m0, block.txs@, b);
                    }
                    assert forall|b: Address| #[trigger] ledger_of(self.contents())[b] == m1[b] by {
                        assert(stored_balance(apply_ops(st0, all_ops), b) == m1[b]);
                    }
                    assert(ledger_of(self.contents()) =~= m1);
                    let fin = self.contents();
                    assert forall|k: Seq<char>| !written_key(block.txs@, k)
                        implies (#[trigger] fin.contains_key(k)) == st0.contains_key(k) && fin[k] == st0[k] by {
                        if lists_key(addrs@, k) {
                            let c = choose|c: Address| addrs@.contains(c) && addr_key(c) == k;
                            assert(touched(block.txs@, c));
                        }
                        assert(apply_ops(st0, prev).contains_key(k) == st0.contains_key(k));
                    }
                    assert forall|c: Address| touched(block.txs@, c)
                        implies (#[trigger] fin.contains_key(addr_key(c))) && fin[addr_key(c)].len() == 8 by {
                        lemma_addr_key_injective(c, c);
                        assert(addrs@.contains(c));
                        assert(apply_ops(st0, prev).contains_key(addr_key(c)));
                    }
                    if balances_readable(st0) {
                        assert forall|c: Address| #[trigger] fin.contains_key(addr_key(c))
                            implies fin[addr_key(c)].len() == 8 by {
                            lemma_addr_key_injective(c, c);
                            if !touched(block.txs@, c) {
                                assert forall|t: Address| touched(block.txs@, t) implies addr_key(t) != addr_key(c) by {
                                    lemma_addr_key_injective(t, c);
                                }
                                assert(!written_key(block.txs@, addr_key(c)));
                            }
                        }
                    }
                }
                Ok(())
            },
        }
    }
}

impl<K: KvStore> Blockchain for KvStoreChain<K> {
    open spec fn well_formed(&self) -> bool {
        self.store_well_formed() && stored_height(self.contents()) == Some(self.chain_height())
    }

    open spec fn durable(&self) -> Map<Seq<char>, Seq<u8>> {
        self.contents()
    }

    open spec fn reliable(&self) -> bool {
        self.store_infallible() && balances_readable(self.contents())
    }

    open spec fn balances(&self) -> Map<Address, u64> {
        ledger_of(self.contents())
    }

    open spec fn height(&self) -> nat {
        self.chain_height()
    }

    fn get_balance(&self, addr: Address) -> (r: Result<Money, LedgerError>) {
        self.read_balance(addr)
    }

    fn extend(&mut self, blocks: &Vec<Block>) -> (r: Result<usize, BlockRejection>) {
        let ghost m0 = self.balances();
        let ghost h0 = self.height();
        let mut i: usize = 0;
        assert(blocks@.take(0) =~= Seq::<Block>::empty());
        while i < blocks.len()
            invariant
                i <= blocks@.len(),
                self.well_formed(),
                old(self).reliable() ==> self.reliable(),
                i == 0 ==> self.contents() == old(self).contents(),
                m0 == old(self).balances(),
                h0 == old(self).height(),
                apply_chain(m0, h0, blocks@.take(i as int))
                    == Ok::<(Map<Address, u64>, nat), (nat, LedgerError)>((self.balances(), self.height())),
            decreases blocks@.len() - i,
        {
            proof {
                assert(blocks@.take(i + 1).drop_last() =~= blocks@.take(i as int));
                assert(blocks@.take(i + 1).last() == blocks@[i as int]);
            }
            match self.extend_block(&blocks[i]) {
                Err(e) => {
                    return Err(BlockRejection { index: i, error: e });
                },
                Ok(()) => {},
            }
            i = i + 1;
        }
        assert(blocks@.take(blocks@.len() as int) =~= blocks@);
        Ok(self.height)
    }

    fn get_height(&self) -> (r: usize) {
        self.height
    }
}

} // verus!
