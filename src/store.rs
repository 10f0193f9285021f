use vstd::prelude::*;
use crate::encoding::StringKey;

verus! {

/// Failure of the underlying store: I/O error, corruption, store closed.
#[derive(Clone, Copy, Debug, PartialEq, Eq, Structural)]
pub enum KvStoreError {
    Failure,
}

/// One mutation of a batch.
#[derive(Clone, Debug)]
pub enum WriteOp {
    Remove(StringKey),
    Put(StringKey, Vec<u8>),
}

/// What a store holds after the mutations `ops`, applied in order, so that a
/// later mutation of a key wins over an earlier one.
pub open spec fn apply_ops(m: Map<Seq<char>, Seq<u8>>, ops: Seq<WriteOp>) -> Map<Seq<char>, Seq<u8>>
    decreases ops.len(),
{
    if ops.len() == 0 {
        m
    } else {
        let rest = apply_ops(m, ops.drop_last());
        match ops.last() {
            WriteOp::Remove(k) => rest.remove(k@),
            WriteOp::Put(k, v) => rest.insert(k@, v@),
        }
    }
}

/// An ordered key-value store with point reads and writes and atomic
/// batches. Every operation may fail; a failed mutation changes nothing.
pub trait KvStore {
    /// What the store holds.
    spec fn contents(&self) -> Map<Seq<char>, Seq<u8>>;

    /// The store's own consistency condition, kept by every operation.
    spec fn well_formed(&self) -> bool;

    /// Whether no operation of this store can fail.
    spec fn infallible(&self) -> bool;

    fn get(&self, k: StringKey) -> (r: Result<Option<Vec<u8>>, KvStoreError>)
        requires
            self.well_formed(),
        ensures
            self.infallible() ==> r is Ok,
            r matches Ok(v) ==> match v {
                Some(b) => self.contents().contains_key(k@) && self.contents()[k@] == b@,
                None => !self.contents().contains_key(k@),
            },
    ;

    fn del(&mut self, k: StringKey) -> (r: Result<(), KvStoreError>)
        requires
            old(self).well_formed(),
        ensures
            final(self).well_formed(),
            final(self).infallible() == old(self).infallible(),
            old(self).infallible() ==> r is Ok,
            r is Ok ==> final(self).contents() == old(self).contents().remove(k@),
            r is Err ==> final(self).contents() == old(self).contents(),
    ;

    fn set(&mut self, k: StringKey, v: Vec<u8>) -> (r: Result<(), KvStoreError>)
        requires
            old(self).well_formed(),
        ensures
            final(self).well_formed(),
            final(self).infallible() == old(self).infallible(),
            old(self).infallible() ==> r is Ok,
            r is Ok ==> final(self).contents() == old(self).contents().insert(k@, v@),
            r is Err ==> final(self).contents() == old(self).contents(),
    ;

    /// Applies all of `ops` or none of them.
    fn batch(&mut self, ops: Vec<WriteOp>) -> (r: Result<(), KvStoreError>)
        requires
            old(self).well_formed(),
        ensures
            final(self).well_formed(),
            final(self).infallible() == old(self).infallible(),
            old(self).infallible() ==> r is Ok,
            r is Ok ==> final(self).contents() == apply_ops(old(self).contents(), ops@),
            r is Err ==> final(self).contents() == old(self).contents(),
    ;
}

/// Whether no two entries share a key.
pub open spec fn keys_distinct(s: Seq<(StringKey, Vec<u8>)>) -> bool {
    forall|i: int, j: int| 0 <= i < s.len() && 0 <= j < s.len() && i != j ==> s[i].0@ != s[j].0@
}

/// Whether some entry has key `k`.
pub open spec fn has_key(s: Seq<(StringKey, Vec<u8>)>, k: Seq<char>) -> bool {
    exists|i: int| 0 <= i < s.len() && s[i].0@ == k
}

/// The map that a sequence of entries with distinct keys stands for.
pub open spec fn entries_map(s: Seq<(StringKey, Vec<u8>)>) -> Map<Seq<char>, Seq<u8>> {
    Map::new(
        |k: Seq<char>| has_key(s, k),
        |k: Seq<char>| s[choose|i: int| 0 <= i < s.len() && s[i].0@ == k].1@,
    )
}

proof fn lemma_entries_map_at(s: Seq<(StringKey, Vec<u8>)>, i: int)
    requires
        keys_distinct(s),
        0 <= i < s.len(),
    ensures
        entries_map(s).contains_key(s[i].0@),
        entries_map(s)[s[i].0@] == s[i].1@,
{
    let k = s[i].0@;
    assert(has_key(s, k));
    let j = choose|j: int| 0 <= j < s.len() && s[j].0@ == k;
    assert(j == i);
}

/// A store held in memory, for tests and for nodes that need no durability.
pub struct MemKvStore {
    entries: Vec<(StringKey, Vec<u8>)>,
}

impl MemKvStore {
    pub closed spec fn distinct(&self) -> bool {
        keys_distinct(self.entries@)
    }

    pub closed spec fn view_map(&self) -> Map<Seq<char>, Seq<u8>> {
        entries_map(self.entries@)
    }

    /// An empty store.
    pub fn new() -> (r: MemKvStore)
        ensures
            r.well_formed(),
            r.contents() == Map::<Seq<char>, Seq<u8>>::empty(),
    {
        let r = MemKvStore { entries: Vec::new() };
        assert(r.view_map() =~= Map::<Seq<char>, Seq<u8>>::empty());
        r
    }

    fn find(&self, k: &StringKey) -> (r: Option<usize>)
        requires
            self.distinct(),
        ensures
            match r {
                Some(i) => i < self.entries@.len() && self.entries@[i as int].0@ == k@,
                None => !has_key(self.entries@, k@),
            },
    {
        let mut i: usize = 0;
        while i < self.entries.len()
            invariant
                i <= self.entries@.len(),
                forall|j: int| 0 <= j < i ==> self.entries@[j].0@ != k@,
            decreases self.entries@.len() - i,
        {
            if self.entries[i].0.same_as(k) {
                return Some(i);
            }
            i = i + 1;
        }
        None
    }

    fn put_entry(&mut self, k: StringKey, v: Vec<u8>)
        requires
            old(self).distinct(),
        ensures
            final(self).distinct(),
            final(self).view_map() == old(self).view_map().insert(k@, v@),
    {
        let old_entries = Ghost(self.entries@);
        match self.find(&k) {
            Some(i) => {
                let ghost kv = k@;
                let ghost vv = v@;
                self.entries.set(i, (k, v));
                proof {
                    let s = self.entries@;
                    assert forall|a: int, b: int| 0 <= a < s.len() && 0 <= b < s.len() && a != b
                        implies s[a].0@ != s[b].0@ by {
                        if a != i && b != i {
                            assert(s[a] == old_entries@[a] && s[b] == old_entries@[b]);
                        }
                    }
                    assert forall|kk: Seq<char>| has_key(s, kk) == (has_key(old_entries@, kk) || kk == kv) by {
                        if has_key(old_entries@, kk) {
                            let j = choose|j: int| 0 <= j < old_entries@.len() && old_entries@[j].0@ == kk;
                            assert(s[j].0@ == kk);
                        }
                        if has_key(s, kk) {
                            let j = choose|j: int| 0 <= j < s.len() && s[j].0@ == kk;
                            assert(old_entries@[j].0@ == kk);
                        }
                    }
                    assert forall|kk: Seq<char>| #[trigger] has_key(s, kk) && kk != kv implies
                        entries_map(s)[kk] == entries_map(old_entries@)[kk] by {
                        let j = choose|j: int| 0 <= j < s.len() && s[j].0@ == kk;
                        lemma_entries_map_at(s, j);
                        lemma_entries_map_at(old_entries@, j);
                    }
                    lemma_entries_map_at(s, i as int);
                    assert(self.view_map() =~= old(self).view_map().insert(kv, vv));
                }
            },
            None => {
                let ghost kv = k@;
                let ghost vv = v@;
                self.entries.push((k, v));
                proof {
                    let s = self.entries@;
                    let n = old_entries@.len() as int;
                    assert forall|a: int, b: int| 0 <= a < s.len() && 0 <= b < s.len() && a != b
                        implies s[a].0@ != s[b].0@ by {
                        if a != n && b != n {
                            assert(s[a] == old_entries@[a] && s[b] == old_entries@[b]);
                        } else if a == n {
                            assert(s[b] == old_entries@[b]);
                        } else {
                            assert(s[a] == old_entries@[a]);
                        }
                    }
                    assert forall|kk: Seq<char>| has_key(s, kk) == (has_key(old_entries@, kk) || kk == kv) by {
                        if has_key(old_entries@, kk) {
                            let j = choose|j: int| 0 <= j < old_entries@.len() && old_entries@[j].0@ == kk;
                            assert(s[j].0@ == kk);
                        }
                        if has_key(s, kk) && kk != kv {
                            let j = choose|j: int| 0 <= j < s.len() && s[j].0@ == kk;
                            assert(old_entries@[j].0@ == kk);
                        }
                        if kk == kv {
                            assert(s[n].0@ == kk);
                        }
                    }
                    assert forall|kk: Seq<char>| #[trigger] has_key(s, kk) && kk != kv implies
                        entries_map(s)[kk] == entries_map(old_entries@)[kk] by {
                        let j = choose|j: int| 0 <= j < s.len() && s[j].0@ == kk;
                        lemma_entries_map_at(s, j);
                        lemma_entries_map_at(old_entries@, j);
                    }
                    lemma_entries_map_at(s, n);
                    assert(self.view_map() =~= old(self).view_map().insert(kv, vv));
                }
            },
        }
    }

    fn remove_entry(&mut self, k: &StringKey)
        requires
            old(self).distinct(),
        ensures
            final(self).distinct(),
            final(self).view_map() == old(self).view_map().remove(k@),
    {
        let old_entries = Ghost(self.entries@);
        match self.find(k) {
            Some(i) => {
                self.entries.remove(i);
                proof {
                    let s = self.entries@;
                    let o = old_entries@;
                    assert forall|a: int| 0 <= a < s.len() implies
                        s[a] == (if a < i { o[a] } else { o[a + 1] }) by {}
                    assert forall|a: int, b: int| 0 <= a < s.len() && 0 <= b < s.len() && a != b
                        implies s[a].0@ != s[b].0@ by {
                        let a1 = if a < i { a } else { a + 1 };
                        let b1 = if b < i { b } else { b + 1 };
                        assert(s[a] == o[a1] && s[b] == o[b1]);
                    }
                    assert forall|kk: Seq<char>| has_key(s, kk) == (has_key(o, kk) && kk != k@) by {
                        if has_key(o, kk) && kk != k@ {
                            let j = choose|j: int| 0 <= j < o.len() && o[j].0@ == kk;
                            assert(j != i);
                            let j1 = if j < i { j } else { j - 1 };
                            assert(s[j1].0@ == kk);
                        }
                        if has_key(s, kk) {
                            let j = choose|j: int| 0 <= j < s.len() && s[j].0@ == kk;
                            let j1 = if j < i { j } else { j + 1 };
                            assert(o[j1].0@ == kk);
                            assert(j1 != i);
                        }
                    }
                    assert forall|kk: Seq<char>| #[trigger] has_key(s, kk) implies
                        entries_map(s)[kk] == entries_map(o)[kk] by {
                        let j = choose|j: int| 0 <= j < s.len() && s[j].0@ == kk;
                        let j1 = if j < i { j } else { j + 1 };
                        lemma_entries_map_at(s, j);
                        lemma_entries_map_at(o, j1);
                    }
                    assert(self.view_map() =~= old(self).view_map().remove(k@));
                }
            },
            None => {
                assert(self.view_map() =~= old(self).view_map().remove(k@));
            },
        }
    }
}

impl KvStore for MemKvStore {
    open spec fn contents(&self) -> Map<Seq<char>, Seq<u8>> {
        self.view_map()
    }

    open spec fn well_formed(&self) -> bool {
        self.distinct()
    }

    open spec fn infallible(&self) -> bool {
        true
    }

    fn get(&self, k: StringKey) -> (r: Result<Option<Vec<u8>>, KvStoreError>) {
        match self.find(&k) {
            Some(i) => {
                proof { lemma_entries_map_at(self.entries@, i as int); }
                Ok(Some(self.entries[i].1.clone()))
            },
            None => Ok(None),
        }
    }

    fn del(&mut self, k: StringKey) -> (r: Result<(), KvStoreError>) {
        self.remove_entry(&k);
        Ok(())
    }

    fn set(&mut self, k: StringKey, v: Vec<u8>) -> (r: Result<(), KvStoreError>) {
        self.put_entry(k, v);
        Ok(())
    }

    fn batch(&mut self, ops: Vec<WriteOp>) -> (r: Result<(), KvStoreError>) {
        let ghost start = self.view_map();
        let mut i: usize = 0;
        while i < ops.len()
            invariant
                i <= ops@.len(),
                self.distinct(),
                self.view_map() == apply_ops(start, ops@.take(i as int)),
            decreases ops@.len() - i,
        {
            proof { assert(ops@.take(i + 1).drop_last() =~= ops@.take(i as int)); }
            match &ops[i] {
                WriteOp::Remove(k) => self.remove_entry(k),
                WriteOp::Put(k, v) => self.put_entry(k.duplicate(), v.clone()),
            }
            i = i + 1;
        }
        assert(ops@.take(ops@.len() as int) =~= ops@);
        Ok(())
    }
}

} // verus!
