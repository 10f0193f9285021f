use vstd::prelude::*;
use crate::primitives::{Address, Block, Money, Transaction};

verus! {

/// Why a block or a transaction was refused.
#[derive(Clone, Copy, Debug, PartialEq, Eq, Structural)]
pub enum LedgerError {
    /// The store failed or holds a value that is not a balance.
    StoreFailure,
    /// The block does not extend the current height.
    ChainDiscontinuity,
    /// A debit would drive a balance below zero.
    InsufficientFunds,
    /// A zero amount, a transfer to oneself, or a credit beyond the largest balance.
    InvalidTransaction,
}

/// The verdict on `tx` given the sender's and the recipient's balances. A
/// faucet transaction (no sender) ignores `src_balance`.
pub open spec fn tx_verdict(tx: Transaction, src_balance: u64, dst_balance: u64) -> Result<(), LedgerError> {
    if tx.amount == 0 || tx.src == Some(tx.dst) {
        Err(LedgerError::InvalidTransaction)
    } else if tx.src is Some && src_balance < tx.amount {
        Err(LedgerError::InsufficientFunds)
    } else if dst_balance + tx.amount > u64::MAX {
        Err(LedgerError::InvalidTransaction)
    } else {
        Ok(())
    }
}

/// The sender's balance in `m`, zero for a faucet transaction.
pub open spec fn sender_balance(m: Map<Address, u64>, tx: Transaction) -> u64 {
    match tx.src {
        Some(s) => m[s],
        None => 0,
    }
}

/// Whether `tx` debits or credits `a`.
pub open spec fn touches(tx: Transaction, a: Address) -> bool {
    tx.dst == a || tx.src == Some(a)
}

/// Whether some transaction of `txs` debits or credits `a`.
pub open spec fn touched(txs: Seq<Transaction>, a: Address) -> bool {
    exists|i: int| 0 <= i < txs.len() && touches(txs[i], a)
}

/// Balances (every address has one; zero where nothing was ever credited)
/// after the valid transaction `tx`, or why it is refused.
pub open spec fn apply_tx(m: Map<Address, u64>, tx: Transaction) -> Result<Map<Address, u64>, LedgerError> {
    match tx_verdict(tx, sender_balance(m, tx), m[tx.dst]) {
        Err(e) => Err(e),
        Ok(_) => {
            let debited = match tx.src {
                Some(s) => m.insert(s, (m[s] - tx.amount) as u64),
                None => m,
            };
            Ok(debited.insert(tx.dst, (m[tx.dst] + tx.amount) as u64))
        },
    }
}

/// Balances after the transactions `txs`, in order, or the refusal of the
/// first one that fails.
pub open spec fn apply_txs(m: Map<Address, u64>, txs: Seq<Transaction>) -> Result<Map<Address, u64>, LedgerError>
    decreases txs.len(),
{
    if txs.len() == 0 {
        Ok(m)
    } else {
        match apply_txs(m, txs.drop_last()) {
            Err(e) => Err(e),
            Ok(m1) => apply_tx(m1, txs.last()),
        }
    }
}

/// Balances and height after the block `b`, or why it is refused. No block
/// can follow the largest representable height.
pub open spec fn apply_block(m: Map<Address, u64>, h: nat, b: Block) -> Result<(Map<Address, u64>, nat), LedgerError> {
    if b.prev_height != h || h >= usize::MAX {
        Err(LedgerError::ChainDiscontinuity)
    } else {
        match apply_txs(m, b.txs@) {
            Err(e) => Err(e),
            Ok(m1) => Ok((m1, h + 1)),
        }
    }
}

/// Balances and height after the blocks, in order, or the index of the first
/// block refused and why.
pub open spec fn apply_chain(m: Map<Address, u64>, h: nat, blocks: Seq<Block>) -> Result<(Map<Address, u64>, nat), (nat, LedgerError)>
    decreases blocks.len(),
{
    if blocks.len() == 0 {
        Ok((m, h))
    } else {
        match apply_chain(m, h, blocks.drop_last()) {
            Err(x) => Err(x),
            Ok((m1, h1)) => match apply_block(m1, h1, blocks.last()) {
                Err(e) => Err(((blocks.len() - 1) as nat, e)),
                Ok(s) => Ok(s),
            },
        }
    }
}

/// Decides one transaction from the two balances it reads.
pub fn check_transfer(tx: &Transaction, src_balance: Money, dst_balance: Money) -> (r: Result<(), LedgerError>)
    ensures
        r == tx_verdict(*tx, src_balance, dst_balance),
{
    if tx.amount == 0 {
        return Err(LedgerError::InvalidTransaction);
    }
    match tx.src {
        Some(s) => {
            if s == tx.dst {
                return Err(LedgerError::InvalidTransaction);
            }
            if src_balance < tx.amount {
                return Err(LedgerError::InsufficientFunds);
            }
        },
        None => {},
    }
    if dst_balance > u64::MAX - tx.amount {
        return Err(LedgerError::InvalidTransaction);
    }
    Ok(())
}

/// Whether no two entries name the same address.
pub open spec fn addresses_distinct(s: Seq<(Address, u64)>) -> bool {
    forall|i: int, j: int| 0 <= i < s.len() && 0 <= j < s.len() && i != j ==> s[i].0 != s[j].0
}

/// The balance that a list of entries gives `a`: its entry, else zero.
pub open spec fn listed_balance(s: Seq<(Address, u64)>, a: Address) -> u64 {
    if exists|i: int| 0 <= i < s.len() && s[i].0 == a {
        s[choose|i: int| 0 <= i < s.len() && s[i].0 == a].1
    } else {
        0
    }
}

proof fn lemma_listed_at(s: Seq<(Address, u64)>, i: int)
    requires
        addresses_distinct(s),
        0 <= i < s.len(),
    ensures
        listed_balance(s, s[i].0) == s[i].1,
{
    let j = choose|j: int| 0 <= j < s.len() && s[j].0 == s[i].0;
    assert(j == i);
}

/// A scratch table of balances: every address has one, zero unless set.
pub struct BalanceSheet {
    entries: Vec<(Address, Money)>,
}

impl View for BalanceSheet {
    type V = Map<Address, u64>;

    closed spec fn view(&self) -> Map<Address, u64> {
        Map::total(|a: Address| listed_balance(self.entries@, a))
    }
}

impl BalanceSheet {
    pub closed spec fn well_formed(&self) -> bool {
        addresses_distinct(self.entries@)
    }

    /// A sheet on which every balance is zero.
    pub fn new() -> (r: BalanceSheet)
        ensures
            r.well_formed(),
            r@ == Map::total(|a: Address| 0u64),
    {
        let r = BalanceSheet { entries: Vec::new() };
        assert(r@ =~= Map::total(|a: Address| 0u64));
        r
    }

    pub fn balance(&self, a: Address) -> (r: Money)
        requires
            self.well_formed(),
        ensures
            r == self@[a],
    {
        let mut i: usize = 0;
        while i < self.entries.len()
            invariant
                self.well_formed(),
                i <= self.entries@.len(),
                forall|j: int| 0 <= j < i ==> self.entries@[j].0 != a,
            decreases self.entries@.len() - i,
        {
            if self.entries[i].0 == a {
                proof { lemma_listed_at(self.entries@, i as int); }
                return self.entries[i].1;
            }
            i = i + 1;
        }
        0
    }

    pub fn set(&mut self, a: Address, v: Money)
        requires
            old(self).well_formed(),
        ensures
            final(self).well_formed(),
            final(self)@ == old(self)@.insert(a, v),
    {
        let ghost o = self.entries@;
        let mut i: usize = 0;
        while i < self.entries.len()
            invariant
                self.entries@ == o,
                old(self).entries@ == o,
                addresses_distinct(o),
                i <= o.len(),
                forall|j: int| 0 <= j < i ==> o[j].0 != a,
            decreases o.len() - i,
        {
            if self.entries[i].0 == a {
                self.entries.set(i, (a, v));
                proof {
                    let s = self.entries@;
                    assert forall|x: int, y: int| 0 <= x < s.len() && 0 <= y < s.len() && x != y
                        implies s[x].0 != s[y].0 by {
                        if x != i && y != i {
                            assert(s[x] == o[x] && s[y] == o[y]);
                        }
                    }
                    assert forall|b: Address| #[trigger] listed_balance(s, b) == (if b == a { v } else { listed_balance(o, b) }) by {
                        if b == a {
                            lemma_listed_at(s, i as int);
                        } else if exists|j: int| 0 <= j < s.len() && s[j].0 == b {
                            let j = choose|j: int| 0 <= j < s.len() && s[j].0 == b;
                            lemma_listed_at(s, j);
                            lemma_listed_at(o, j);
                        } else {
                            assert forall|j: int| 0 <= j < o.len() implies o[j].0 != b by {
                                if j != i { assert(s[j] == o[j]); }
                            }
                        }
                    }
                    assert(self@ =~= old(self)@.insert(a, v));
                }
                return;
            }
            i = i + 1;
        }
        self.entries.push((a, v));
        proof {
            let s = self.entries@;
            let n = o.len() as int;
            assert forall|x: int, y: int| 0 <= x < s.len() && 0 <= y < s.len() && x != y
                implies s[x].0 != s[y].0 by {
                if x != n { assert(s[x] == o[x]); }
                if y != n { assert(s[y] == o[y]); }
            }
            assert forall|b: Address| #[trigger] listed_balance(s, b) == (if b == a { v } else { listed_balance(o, b) }) by {
                if b == a {
                    lemma_listed_at(s, n);
                } else if exists|j: int| 0 <= j < s.len() && s[j].0 == b {
                    let j = choose|j: int| 0 <= j < s.len() && s[j].0 == b;
                    assert(j != n);
                    lemma_listed_at(s, j);
                    lemma_listed_at(o, j);
                } else {
                    assert forall|j: int| 0 <= j < o.len() implies o[j].0 != b by {
                        assert(s[j] == o[j]);
                    }
                }
            }
            assert(self@ =~= old(self)@.insert(a, v));
        }
    }
}

/// Once a prefix of the transactions is refused, so is the whole sequence,
/// for the same reason.
pub proof fn lemma_refusal_persists(m: Map<Address, u64>, txs: Seq<Transaction>, k: int)
    requires
        0 <= k <= txs.len(),
        apply_txs(m, txs.take(k)) is Err,
    ensures
        apply_txs(m, txs) == apply_txs(m, txs.take(k)),
    decreases txs.len(),
{
    if k == txs.len() {
        assert(txs.take(k) =~= txs);
    } else {
        assert(txs.drop_last().take(k) =~= txs.take(k));
        lemma_refusal_persists(m, txs.drop_last(), k);
    }
}

/// Applies the transactions, in order, to the balances of `sheet`; returns the
/// resulting sheet, or the refusal of the first transaction that fails.
pub fn apply_transactions(sheet: BalanceSheet, txs: &Vec<Transaction>) -> (r: Result<BalanceSheet, LedgerError>)
    requires
        sheet.well_formed(),
    ensures
        match r {
            Ok(s) => s.well_formed() && apply_txs(sheet@, txs@) == Ok::<Map<Address, u64>, LedgerError>(s@),
            Err(e) => apply_txs(sheet@, txs@) == Err::<Map<Address, u64>, LedgerError>(e),
        },
{
    let ghost m0 = sheet@;
    let mut work = sheet;
    let mut i: usize = 0;
    assert(txs@.take(0) =~= Seq::<Transaction>::empty());
    while i < txs.len()
        invariant
            i <= txs@.len(),
            m0 == sheet@,
            work.well_formed(),
            apply_txs(m0, txs@.take(i as int)) == Ok::<Map<Address, u64>, LedgerError>(work@),
        decreases txs@.len() - i,
    {
        let tx = txs[i];
        proof {
            assert(txs@.take(i + 1).drop_last() =~= txs@.take(i as int));
            assert(txs@.take(i + 1).last() == tx);
        }
        let src_balance = match tx.src {
            Some(s) => work.balance(s),
            None => 0,
        };
        let dst_balance = work.balance(tx.dst);
        match check_transfer(&tx, src_balance, dst_balance) {
            Err(e) => {
                proof { lemma_refusal_persists(m0, txs@, i + 1); }
                return Err(e);
            },
            Ok(()) => {},
        }
        match tx.src {
            Some(s) => work.set(s, src_balance - tx.amount),
            None => {},
        }
        work.set(tx.dst, dst_balance + tx.amount);
        i = i + 1;
    }
    assert(txs@.take(txs@.len() as int) =~= txs@);
    Ok(work)
}

/// Applying transactions reads and writes only the balances they touch: two
/// ledgers that agree on those balances get the same verdict, agree on them
/// afterwards, and keep every other balance.
pub proof fn lemma_frame(m: Map<Address, u64>, s: Map<Address, u64>, txs: Seq<Transaction>)
    requires
        forall|a: Address| touched(txs, a) ==> m[a] == s[a],
    ensures
        (apply_txs(m, txs) is Ok) == (apply_txs(s, txs) is Ok),
        apply_txs(m, txs) is Err ==> apply_txs(m, txs) == apply_txs(s, txs),
        apply_txs(m, txs) is Ok ==> forall|a: Address|
            (touched(txs, a) ==> (#[trigger] apply_txs(m, txs)->Ok_0[a]) == apply_txs(s, txs)->Ok_0[a])
            && (!touched(txs, a) ==> apply_txs(m, txs)->Ok_0[a] == m[a] && apply_txs(s, txs)->Ok_0[a] == s[a]),
    decreases txs.len(),
{
    if txs.len() > 0 {
        let rest = txs.drop_last();
        let tx = txs.last();
        assert forall|a: Address| touched(rest, a) implies m[a] == s[a] by {
            let i = choose|i: int| 0 <= i < rest.len() && touches(rest[i], a);
            assert(touches(txs[i], a));
        }
        lemma_frame(m, s, rest);
        assert(touches(txs[txs.len() - 1], tx.dst));
        if let Some(src) = tx.src {
            assert(touches(txs[txs.len() - 1], src));
        }
        if apply_txs(m, rest) is Ok {
            let m1 = apply_txs(m, rest)->Ok_0;
            let s1 = apply_txs(s, rest)->Ok_0;
            assert(m1[tx.dst] == s1[tx.dst]);
            if let Some(src) = tx.src {
                assert(m1[src] == s1[src]);
            }
            assert forall|a: Address| touched(txs, a) == (touched(rest, a) || touches(tx, a)) by {
                if touched(txs, a) {
                    let i = choose|i: int| 0 <= i < txs.len() && touches(txs[i], a);
                    if i < txs.len() - 1 {
                        assert(touches(rest[i], a));
                    }
                }
                if touched(rest, a) {
                    let i = choose|i: int| 0 <= i < rest.len() && touches(rest[i], a);
                    assert(touches(txs[i], a));
                }
            }
            assert(sender_balance(m1, tx) == sender_balance(s1, tx));
            if apply_tx(m1, tx) is Ok {
                let m2 = apply_tx(m1, tx)->Ok_0;
                let s2 = apply_tx(s1, tx)->Ok_0;
                assert(apply_txs(m, txs) == apply_tx(m1, tx));
                assert(apply_txs(s, txs) == apply_tx(s1, tx));
                assert forall|a: Address|
                    (touched(txs, a) ==> (#[trigger] m2[a]) == s2[a])
                    && (!touched(txs, a) ==> m2[a] == m[a] && s2[a] == s[a]) by {
                    if a != tx.dst && tx.src != Some(a) {
                        assert(m2[a] == m1[a] && s2[a] == s1[a]);
                    }
                }
                assert(apply_txs(m, txs)->Ok_0 == m2);
                assert(apply_txs(s, txs)->Ok_0 == s2);
            }
        }
    } else {
        assert(apply_txs(m, txs) == Ok::<Map<Address, u64>, LedgerError>(m));
        assert(apply_txs(s, txs) == Ok::<Map<Address, u64>, LedgerError>(s));
    }
}

/// Transactions are refused only for what they ask, never for the store.
pub proof fn lemma_refusal_reasons(m: Map<Address, u64>, txs: Seq<Transaction>)
    ensures
        apply_txs(m, txs) matches Err(e) ==> e == LedgerError::InsufficientFunds || e == LedgerError::InvalidTransaction,
    decreases txs.len(),
{
    if txs.len() > 0 {
        lemma_refusal_reasons(m, txs.drop_last());
    }
}

/// Applying transactions never drops an address from the ledger.
pub proof fn lemma_keeps_addresses(m: Map<Address, u64>, txs: Seq<Transaction>, a: Address)
    requires
        m.contains_key(a),
        apply_txs(m, txs) is Ok,
    ensures
        apply_txs(m, txs)->Ok_0.contains_key(a),
    decreases txs.len(),
{
    if txs.len() > 0 {
        lemma_keeps_addresses(m, txs.drop_last(), a);
    }
}

/// The distinct addresses that the transactions debit or credit.
pub fn touched_addresses(txs: &Vec<Transaction>) -> (r: Vec<Address>)
    ensures
        r@.no_duplicates(),
        forall|a: Address| r@.contains(a) <==> touched(txs@, a),
{
    let mut r: Vec<Address> = Vec::new();
    let mut i: usize = 0;
    while i < txs.len()
        invariant
            i <= txs@.len(),
            r@.no_duplicates(),
            forall|a: Address| r@.contains(a) <==> touched(txs@.take(i as int), a),
        decreases txs@.len() - i,
    {
        let tx = txs[i];
        proof {
            let p = txs@.take(i + 1);
            let q = txs@.take(i as int);
            assert forall|a: Address| touched(p, a) <==> (touched(q, a) || touches(tx, a)) by {
                if touched(p, a) {
                    let j = choose|j: int| 0 <= j < p.len() && touches(p[j], a);
                    if j < i {
                        assert(q[j] == p[j]);
                    }
                }
                if touched(q, a) {
                    let j = choose|j: int| 0 <= j < q.len() && touches(q[j], a);
                    assert(q[j] == p[j]);
                }
                if touches(tx, a) {
                    assert(p[i as int] == tx);
                }
            }
        }
        match tx.src {
            Some(s) => push_new(&mut r, s),
            None => {},
        }
        push_new(&mut r, tx.dst);
        i = i + 1;
    }
    assert(txs@.take(txs@.len() as int) =~= txs@);
    r
}

fn push_new(v: &mut Vec<Address>, a: Address)
    requires
        old(v)@.no_duplicates(),
    ensures
        final(v)@.no_duplicates(),
        forall|b: Address| final(v)@.contains(b) <==> (old(v)@.contains(b) || b == a),
{
    let mut i: usize = 0;
    while i < v.len()
        invariant
            v@ == old(v)@,
            old(v)@.no_duplicates(),
            i <= v@.len(),
            forall|j: int| 0 <= j < i ==> v@[j] != a,
        decreases v@.len() - i,
    {
        if v[i] == a {
            return;
        }
        i = i + 1;
    }
    v.push(a);
    proof {
        assert(final(v)@ == old(v)@.push(a));
        assert forall|b: Address| final(v)@.contains(b) <==> (old(v)@.contains(b) || b == a) by {
            if old(v)@.contains(b) {
                let j = choose|j: int| 0 <= j < old(v)@.len() && old(v)@[j] == b;
                assert(final(v)@[j] == b);
            }
            if b == a {
                assert(final(v)@[old(v)@.len() as int] == b);
            }
        }
    }
}

} // verus!
