//! The durable store, modelled as plain tables.
//!
//! The real backend is any database that satisfies this surface; here the
//! tables are vectors with unique keys, so that every write path of the
//! committer can be stated and proved exactly: append-only tables insert a
//! row only when its key is absent, the objects table holds one row per
//! identifier and is written latest-wins, and epoch rows are upserted.

use vstd::prelude::*;

use crate::object_cache::{find_module, last_module_match, packages_modules, InMemObjectCache};
use crate::types::{
    IndexedCheckpoint, IndexedEndOfEpochInfo, IndexedEpochInfo, IndexedEvent, IndexedObject,
    IndexedPackage, IndexedTransaction, MoveModule, ObjRef, Object, TxIndex,
};

verus! {

/// Everything derived from one checkpoint, handed from the indexer to the
/// committer as one unit.
#[derive(Debug)]
pub struct TemporaryCheckpointStoreV2 {
    pub checkpoint: IndexedCheckpoint,
    pub transactions: Vec<IndexedTransaction>,
    pub events: Vec<IndexedEvent>,
    pub tx_indices: Vec<TxIndex>,
    pub object_changes: TransactionObjectChangesV2,
    pub packages: Vec<IndexedPackage>,
}

/// The retained object mutations and the deletions of one checkpoint.
#[derive(Debug)]
pub struct TransactionObjectChangesV2 {
    pub changed_objects: Vec<IndexedObject>,
    pub deleted_objects: Vec<ObjRef>,
}

/// Epoch rows derived at an epoch boundary: the row that closes the ended
/// epoch, if any, and the row that opens the new one.
#[derive(Debug)]
pub struct TemporaryEpochStoreV2 {
    pub last_epoch: Option<IndexedEndOfEpochInfo>,
    pub new_epoch: IndexedEpochInfo,
}

/// Whether a key appears in a table.
pub open spec fn contains_key<T, K>(table: Seq<T>, key: spec_fn(T) -> K, k: K) -> bool {
    exists|i: int| 0 <= i < table.len() && key(table[i]) == k
}

/// All keys of a table are distinct.
pub open spec fn unique_keys<T, K>(table: Seq<T>, key: spec_fn(T) -> K) -> bool {
    forall|i: int, j: int| 0 <= i < j < table.len() ==> key(table[i]) != key(table[j])
}

/// The table after inserting the given rows in order, keeping each row
/// only when its key is not already present.
pub open spec fn insert_rows<T, K>(table: Seq<T>, rows: Seq<T>, key: spec_fn(T) -> K) -> Seq<T>
    decreases rows.len(),
{
    if rows.len() == 0 {
        table
    } else {
        let prev = insert_rows(table, rows.drop_last(), key);
        if contains_key(prev, key, key(rows.last())) {
            prev
        } else {
            prev.push(rows.last())
        }
    }
}

/// Inserting rows never removes a key, adds only keys of the rows, and
/// keeps keys distinct.
pub proof fn lemma_insert_rows_keys<T, K>(table: Seq<T>, rows: Seq<T>, key: spec_fn(T) -> K)
    requires
        unique_keys(table, key),
    ensures
        unique_keys(insert_rows(table, rows, key), key),
        forall|k: K| contains_key(table, key, k) ==> contains_key(insert_rows(table, rows, key), key, k),
        forall|k: K|
            contains_key(insert_rows(table, rows, key), key, k) ==> contains_key(table, key, k)
                || contains_key(rows, key, k),
    decreases rows.len(),
{
    if rows.len() > 0 {
        lemma_insert_rows_keys(table, rows.drop_last(), key);
        let prev = insert_rows(table, rows.drop_last(), key);
        let out = insert_rows(table, rows, key);
        assert forall|k: K| contains_key(prev, key, k) implies contains_key(out, key, k) by {
            let i = choose|i: int| 0 <= i < prev.len() && key(prev[i]) == k;
            assert(out[i] == prev[i]);
        }
        assert forall|k: K| contains_key(out, key, k) implies contains_key(table, key, k)
            || contains_key(rows, key, k) by {
            let i = choose|i: int| 0 <= i < out.len() && key(out[i]) == k;
            if i < prev.len() {
                assert(contains_key(prev, key, k));
                if !contains_key(table, key, k) {
                    let j = choose|j: int|
                        0 <= j < rows.drop_last().len() && key(rows.drop_last()[j]) == k;
                    assert(rows[j] == rows.drop_last()[j]);
                }
            } else {
                assert(out[i] == rows.last());
                assert(key(rows[rows.len() - 1]) == k);
            }
        }
        assert forall|k: K| contains_key(rows.drop_last(), key, k) implies contains_key(
            rows,
            key,
            k,
        ) by {
            let j = choose|j: int| 0 <= j < rows.drop_last().len() && key(rows.drop_last()[j]) == k;
            assert(rows[j] == rows.drop_last()[j]);
        }
    }
}

/// Inserting the same rows a second time changes nothing: the append-only
/// tables are safe to replay.
pub proof fn lemma_insert_rows_idempotent<T, K>(table: Seq<T>, rows: Seq<T>, key: spec_fn(T) -> K)
    requires
        unique_keys(table, key),
    ensures
        insert_rows(insert_rows(table, rows, key), rows, key) == insert_rows(table, rows, key),
    decreases rows.len(),
{
    if rows.len() > 0 {
        lemma_insert_rows_keys(table, rows, key);
        lemma_insert_rows_second(table, rows, rows.len() as int, key);
        assert(rows.subrange(0, rows.len() as int) =~= rows);
    }
}

/// Helper: re-inserting any prefix of already inserted rows changes nothing.
proof fn lemma_insert_rows_second<T, K>(table: Seq<T>, rows: Seq<T>, n: int, key: spec_fn(T) -> K)
    requires
        unique_keys(table, key),
        0 <= n <= rows.len(),
    ensures
        insert_rows(insert_rows(table, rows, key), rows.subrange(0, n), key) == insert_rows(
            table,
            rows,
            key,
        ),
    decreases n,
{
    let once = insert_rows(table, rows, key);
    if n == 0 {
        assert(insert_rows(once, rows.subrange(0, 0), key) == once);
    } else {
        lemma_insert_rows_second(table, rows, n - 1, key);
        let pre = rows.subrange(0, n);
        assert(pre.drop_last() =~= rows.subrange(0, n - 1));
        assert(pre.last() == rows[n - 1]);
        lemma_insert_rows_prefix_contains(table, rows, n - 1, key);
    }
}

/// Helper: every row of `rows` has its key present after inserting `rows`.
proof fn lemma_insert_rows_prefix_contains<T, K>(
    table: Seq<T>,
    rows: Seq<T>,
    i: int,
    key: spec_fn(T) -> K,
)
    requires
        unique_keys(table, key),
        0 <= i < rows.len(),
    ensures
        contains_key(insert_rows(table, rows, key), key, key(rows[i])),
    decreases rows.len(),
{
    if i == rows.len() - 1 {
        let prev = insert_rows(table, rows.drop_last(), key);
        let out = insert_rows(table, rows, key);
        if contains_key(prev, key, key(rows.last())) {
            assert(rows[i] == rows.last());
        } else {
            assert(out[out.len() - 1] == rows.last());
        }
    } else {
        lemma_insert_rows_prefix_contains(table, rows.drop_last(), i, key);
        let prev = insert_rows(table, rows.drop_last(), key);
        let out = insert_rows(table, rows, key);
        assert(rows.drop_last()[i] == rows[i]);
        let j = choose|j: int| 0 <= j < prev.len() && key(prev[j]) == key(rows[i]);
        assert(out[j] == prev[j]);
    }
}

/// The durable tables.
pub struct StoreState {
    pub checkpoints: Vec<IndexedCheckpoint>,
    pub transactions: Vec<IndexedTransaction>,
    pub events: Vec<IndexedEvent>,
    pub tx_indices: Vec<TxIndex>,
    pub objects: Vec<Object>,
    pub packages: Vec<IndexedPackage>,
    pub epochs: Vec<IndexedEpochInfo>,
}

impl StoreState {
    /// Key of a checkpoint row.
    pub open spec fn checkpoint_key() -> spec_fn(IndexedCheckpoint) -> u64 {
        |c: IndexedCheckpoint| c.sequence_number
    }

    /// Key of a transaction row.
    pub open spec fn transaction_key() -> spec_fn(IndexedTransaction) -> u64 {
        |t: IndexedTransaction| t.tx_sequence_number
    }

    /// Key of an event row.
    pub open spec fn event_key() -> spec_fn(IndexedEvent) -> (u64, u64) {
        |e: IndexedEvent| (e.tx_sequence_number, e.event_sequence_number)
    }

    /// Key of a per-transaction index row.
    pub open spec fn tx_index_key() -> spec_fn(TxIndex) -> u64 {
        |t: TxIndex| t.tx_sequence_number
    }

    /// Key of an object row.
    pub open spec fn object_key() -> spec_fn(Object) -> u64 {
        |o: Object| o.id
    }

    /// Key of a package row.
    pub open spec fn package_key() -> spec_fn(IndexedPackage) -> u64 {
        |p: IndexedPackage| p.package_id
    }

    /// Key of an epoch row.
    pub open spec fn epoch_key() -> spec_fn(IndexedEpochInfo) -> u64 {
        |e: IndexedEpochInfo| e.epoch
    }

    /// Every table keeps its keys distinct.
    pub open spec fn wf(&self) -> bool {
        &&& unique_keys(self.checkpoints@, Self::checkpoint_key())
        &&& unique_keys(self.transactions@, Self::transaction_key())
        &&& unique_keys(self.events@, Self::event_key())
        &&& unique_keys(self.tx_indices@, Self::tx_index_key())
        &&& unique_keys(self.objects@, Self::object_key())
        &&& unique_keys(self.packages@, Self::package_key())
        &&& unique_keys(self.epochs@, Self::epoch_key())
    }

    /// An empty store.
    pub fn new() -> (r: StoreState)
        ensures
            r.wf(),
            r.checkpoints@ == Seq::<IndexedCheckpoint>::empty(),
            r.transactions@ == Seq::<IndexedTransaction>::empty(),
            r.events@ == Seq::<IndexedEvent>::empty(),
            r.tx_indices@ == Seq::<TxIndex>::empty(),
            r.objects@ == Seq::<Object>::empty(),
            r.packages@ == Seq::<IndexedPackage>::empty(),
            r.epochs@ == Seq::<IndexedEpochInfo>::empty(),
    {
        StoreState {
            checkpoints: Vec::new(),
            transactions: Vec::new(),
            events: Vec::new(),
            tx_indices: Vec::new(),
            objects: Vec::new(),
            packages: Vec::new(),
            epochs: Vec::new(),
        }
    }

    /// The checkpoint row with the given sequence number, if any.
    pub open spec fn spec_checkpoint_row(&self, seq: u64) -> Option<IndexedCheckpoint> {
        if contains_key(self.checkpoints@, Self::checkpoint_key(), seq) {
            Some(
                self.checkpoints@[choose|i: int|
                    0 <= i < self.checkpoints@.len() && self.checkpoints@[i].sequence_number
                        == seq],
            )
        } else {
            None
        }
    }

    /// Network-wide transaction total recorded for a checkpoint: the
    /// ending transaction sequence bound of that checkpoint.
    #[verifier::loop_isolation(false)]
    pub fn get_checkpoint_ending_tx_sequence_number(&self, seq: u64) -> (r: Option<u64>)
        requires
            self.wf(),
        ensures
            match r {
                Some(v) => self.spec_checkpoint_row(seq) matches Some(c)
                    && c.network_total_transactions == v,
                None => self.spec_checkpoint_row(seq) is None,
            },
    {
        let mut i: usize = 0;
        while i < self.checkpoints.len()
            invariant
                i <= self.checkpoints.len(),
                forall|j: int| 0 <= j < i ==> self.checkpoints@[j].sequence_number != seq,
            decreases self.checkpoints.len() - i,
        {
            if self.checkpoints[i].sequence_number == seq {
                return Some(self.checkpoints[i].network_total_transactions);
            }
            i = i + 1;
        }
        None
    }

    /// Greatest network transaction total among the checkpoint rows of the
    /// epoch before the given one.
    pub open spec fn spec_network_total_before(&self, epoch: u64) -> u64 {
        if epoch == 0 {
            0
        } else {
            max_network_total(self.checkpoints@, (epoch - 1) as u64)
        }
    }

    /// Network transaction total at the end of the epoch before the given
    /// one: the greatest total among that epoch's checkpoint rows, zero
    /// when there are none.
    #[verifier::loop_isolation(false)]
    pub fn get_network_total_transactions_previous_epoch(&self, epoch: u64) -> (r: u64)
        ensures
            r == self.spec_network_total_before(epoch),
    {
        if epoch == 0 {
            return 0;
        }
        let target: u64 = epoch - 1;
        let mut best: u64 = 0;
        let mut i: usize = 0;
        proof {
            assert(self.checkpoints@.subrange(0, 0) =~= Seq::<IndexedCheckpoint>::empty());
        }
        while i < self.checkpoints.len()
            invariant
                i <= self.checkpoints.len(),
                best == max_network_total(self.checkpoints@.subrange(0, i as int), target),
            decreases self.checkpoints.len() - i,
        {
            let c = &self.checkpoints[i];
            proof {
                assert(self.checkpoints@.subrange(0, i + 1).drop_last() =~= self.checkpoints@.subrange(
                    0,
                    i as int,
                ));
                assert(self.checkpoints@.subrange(0, i + 1).last() == self.checkpoints@[i as int]);
            }
            if c.epoch == target && c.network_total_transactions > best {
                best = c.network_total_transactions;
            }
            i = i + 1;
        }
        proof {
            assert(self.checkpoints@.subrange(0, self.checkpoints@.len() as int)
                =~= self.checkpoints@);
        }
        best
    }

    /// The object row with the given identifier, if any; with a version,
    /// only when the stored row is at exactly that version.
    pub open spec fn spec_object_row(&self, id: u64) -> Option<Object> {
        if contains_key(self.objects@, Self::object_key(), id) {
            Some(
                self.objects@[choose|i: int|
                    0 <= i < self.objects@.len() && self.objects@[i].id == id],
            )
        } else {
            None
        }
    }

    /// Reads the object row for an identifier; with a version given, the
    /// row is returned only when it sits at exactly that version.
    #[verifier::loop_isolation(false)]
    pub fn get_object(&self, id: u64, version: Option<u64>) -> (r: Option<&Object>)
        requires
            self.wf(),
        ensures
            match version {
                Some(v) => match r {
                    Some(o) => self.spec_object_row(id) == Some(*o) && o.id == id && o.version
                        == v,
                    None => !(self.spec_object_row(id) matches Some(row) && row.version == v),
                },
                None => match r {
                    Some(o) => self.spec_object_row(id) == Some(*o) && o.id == id,
                    None => self.spec_object_row(id) is None,
                },
            },
    {
        let mut i: usize = 0;
        while i < self.objects.len()
            invariant
                i <= self.objects.len(),
                forall|j: int| 0 <= j < i ==> self.objects@[j].id != id,
            decreases self.objects.len() - i,
        {
            if self.objects[i].id == id {
                let o = &self.objects[i];
                match version {
                    Some(v) => {
                        if o.version == v {
                            return Some(o);
                        } else {
                            return None;
                        }
                    },
                    None => {
                        return Some(o);
                    },
                }
            }
            i = i + 1;
        }
        None
    }

    /// Greatest checkpoint sequence number with a row, if any: how far the
    /// committed prefix reaches after a restart.
    #[verifier::loop_isolation(false)]
    pub fn get_latest_tx_checkpoint_sequence_number(&self) -> (r: Option<u64>)
        ensures
            match r {
                Some(v) => contains_key(self.checkpoints@, Self::checkpoint_key(), v) && forall|
                    i: int,
                |
                    0 <= i < self.checkpoints@.len()
                        ==> self.checkpoints@[i].sequence_number <= v,
                None => self.checkpoints@.len() == 0,
            },
    {
        if self.checkpoints.len() == 0 {
            return None;
        }
        let mut best: u64 = self.checkpoints[0].sequence_number;
        let ghost mut witness: int = 0;
        let mut i: usize = 1;
        while i < self.checkpoints.len()
            invariant
                1 <= i <= self.checkpoints.len(),
                0 <= witness < self.checkpoints@.len(),
                self.checkpoints@[witness].sequence_number == best,
                forall|j: int| 0 <= j < i ==> self.checkpoints@[j].sequence_number <= best,
            decreases self.checkpoints.len() - i,
        {
            if self.checkpoints[i].sequence_number > best {
                best = self.checkpoints[i].sequence_number;
                proof {
                    witness = i as int;
                }
            }
            i = i + 1;
        }
        Some(best)
    }
}

/// Whether a plain value appears in a vector.
#[verifier::loop_isolation(false)]
pub fn contains_u64(v: &Vec<u64>, x: u64) -> (r: bool)
    ensures
        r == v@.contains(x),
{
    let mut i: usize = 0;
    while i < v.len()
        invariant
            i <= v.len(),
            forall|j: int| 0 <= j < i ==> v@[j] != x,
        decreases v.len() - i,
    {
        if v[i] == x {
            return true;
        }
        i = i + 1;
    }
    false
}

impl StoreState {
    /// Appends the checkpoint rows whose sequence number has no row yet.
    /// This write is the commit marker: it must run only after every other
    /// table of the batch is durable.
    #[verifier::loop_isolation(false)]
    pub fn persist_checkpoints(&mut self, mut rows: Vec<IndexedCheckpoint>)
        requires
            old(self).wf(),
        ensures
            final(self).wf(),
            final(self).checkpoints@ == insert_rows(
                old(self).checkpoints@,
                rows@,
                Self::checkpoint_key(),
            ),
            final(self).transactions@ == old(self).transactions@,
            final(self).events@ == old(self).events@,
            final(self).tx_indices@ == old(self).tx_indices@,
            final(self).objects@ == old(self).objects@,
            final(self).packages@ == old(self).packages@,
            final(self).epochs@ == old(self).epochs@,
    {
        let n: usize = rows.len();
        let ghost all = rows@;
        proof {
            assert(all.len() == n);
        }
        let ghost orig = self.checkpoints@;
        let ghost k = Self::checkpoint_key();
        let mut i: usize = 0;
        proof {
            assert(insert_rows(orig, all.subrange(0, 0), k) == orig);
        }
        while rows.len() > 0
            invariant
                i <= all.len(),
                all.len() <= usize::MAX,
                rows@ == all.subrange(i as int, all.len() as int),
                self.checkpoints@ == insert_rows(orig, all.subrange(0, i as int), k),
                self.transactions@ == old(self).transactions@,
                self.events@ == old(self).events@,
                self.tx_indices@ == old(self).tx_indices@,
                self.objects@ == old(self).objects@,
                self.packages@ == old(self).packages@,
                self.epochs@ == old(self).epochs@,
            decreases rows.len(),
        {
            let row = rows.remove(0);
            proof {
                assert(row == all[i as int]);
                assert(all.subrange(0, i + 1).drop_last() =~= all.subrange(0, i as int));
                assert(all.subrange(0, i + 1).last() == all[i as int]);
            }
            let mut present: bool = false;
            let mut j: usize = 0;
            while j < self.checkpoints.len()
                invariant
                    j <= self.checkpoints.len(),
                    present == exists|m: int|
                        0 <= m < j && self.checkpoints@[m].sequence_number
                            == row.sequence_number,
                decreases self.checkpoints.len() - j,
            {
                if self.checkpoints[j].sequence_number == row.sequence_number {
                    present = true;
                }
                j = j + 1;
            }
            proof {
                assert(present == contains_key(self.checkpoints@, k, row.sequence_number));
            }
            if !present {
                self.checkpoints.push(row);
            }
            i = i + 1;
            proof {
                assert(rows@ =~= all.subrange(i as int, all.len() as int));
            }
        }
        proof {
            assert(all.subrange(0, i as int) =~= all);
            lemma_insert_rows_keys(orig, all, k);
        }
    }
}


impl StoreState {
    /// Appends the transaction rows whose sequence number has no row yet.
    #[verifier::loop_isolation(false)]
    pub fn persist_transactions(&mut self, mut rows: Vec<IndexedTransaction>)
        requires
            old(self).wf(),
        ensures
            final(self).wf(),
            final(self).transactions@ == insert_rows(old(self).transactions@, rows@, Self::transaction_key()),
            final(self).checkpoints@ == old(self).checkpoints@,
            final(self).events@ == old(self).events@,
            final(self).tx_indices@ == old(self).tx_indices@,
            final(self).objects@ == old(self).objects@,
            final(self).packages@ == old(self).packages@,
            final(self).epochs@ == old(self).epochs@,
    {
        let n: usize = rows.len();
        let ghost all = rows@;
        proof {
            assert(all.len() == n);
        }
        let ghost orig = self.transactions@;
        let ghost k = Self::transaction_key();
        let mut i: usize = 0;
        proof {
            assert(insert_rows(orig, all.subrange(0, 0), k) == orig);
        }
        while rows.len() > 0
            invariant
                i <= all.len(),
                all.len() <= usize::MAX,
                rows@ == all.subrange(i as int, all.len() as int),
                self.transactions@ == insert_rows(orig, all.subrange(0, i as int), k),
                self.checkpoints@ == old(self).checkpoints@,
                self.events@ == old(self).events@,
                self.tx_indices@ == old(self).tx_indices@,
                self.objects@ == old(self).objects@,
                self.packages@ == old(self).packages@,
                self.epochs@ == old(self).epochs@,
            decreases rows.len(),
        {
            let row = rows.remove(0);
            proof {
                assert(row == all[i as int]);
                assert(all.subrange(0, i + 1).drop_last() =~= all.subrange(0, i as int));
                assert(all.subrange(0, i + 1).last() == all[i as int]);
            }
            let mut present: bool = false;
            let mut j: usize = 0;
            while j < self.transactions.len()
                invariant
                    j <= self.transactions.len(),
                    present == exists|m: int| 0 <= m < j && k(self.transactions@[m]) == k(row),
                decreases self.transactions.len() - j,
            {
                if self.transactions[j].tx_sequence_number == row.tx_sequence_number {
                    present = true;
                }
                j = j + 1;
            }
            proof {
                assert(present == contains_key(self.transactions@, k, k(row)));
            }
            if !present {
                self.transactions.push(row);
            }
            i = i + 1;
            proof {
                assert(rows@ =~= all.subrange(i as int, all.len() as int));
            }
        }
        proof {
            assert(all.subrange(0, i as int) =~= all);
            lemma_insert_rows_keys(orig, all, k);
        }
    }
}

impl StoreState {
    /// Appends the event rows whose key has no row yet.
    #[verifier::loop_isolation(false)]
    pub fn persist_events(&mut self, mut rows: Vec<IndexedEvent>)
        requires
            old(self).wf(),
        ensures
            final(self).wf(),
            final(self).events@ == insert_rows(old(self).events@, rows@, Self::event_key()),
            final(self).checkpoints@ == old(self).checkpoints@,
            final(self).transactions@ == old(self).transactions@,
            final(self).tx_indices@ == old(self).tx_indices@,
            final(self).objects@ == old(self).objects@,
            final(self).packages@ == old(self).packages@,
            final(self).epochs@ == old(self).epochs@,
    {
        let n: usize = rows.len();
        let ghost all = rows@;
        proof {
            assert(all.len() == n);
        }
        let ghost orig = self.events@;
        let ghost k = Self::event_key();
        let mut i: usize = 0;
        proof {
            assert(insert_rows(orig, all.subrange(0, 0), k) == orig);
        }
        while rows.len() > 0
            invariant
                i <= all.len(),
                all.len() <= usize::MAX,
                rows@ == all.subrange(i as int, all.len() as int),
                self.events@ == insert_rows(orig, all.subrange(0, i as int), k),
                self.checkpoints@ == old(self).checkpoints@,
                self.transactions@ == old(self).transactions@,
                self.tx_indices@ == old(self).tx_indices@,
                self.objects@ == old(self).objects@,
                self.packages@ == old(self).packages@,
                self.epochs@ == old(self).epochs@,
            decreases rows.len(),
        {
            let row = rows.remove(0);
            proof {
                assert(row == all[i as int]);
                assert(all.subrange(0, i + 1).drop_last() =~= all.subrange(0, i as int));
                assert(all.subrange(0, i + 1).last() == all[i as int]);
            }
            let mut present: bool = false;
            let mut j: usize = 0;
            while j < self.events.len()
                invariant
                    j <= self.events.len(),
                    present == exists|m: int| 0 <= m < j && k(self.events@[m]) == k(row),
                decreases self.events.len() - j,
            {
                if self.events[j].tx_sequence_number == row.tx_sequence_number && self.events[j].event_sequence_number == row.event_sequence_number {
                    present = true;
                }
                j = j + 1;
            }
            proof {
                assert(present == contains_key(self.events@, k, k(row)));
            }
            if !present {
                self.events.push(row);
            }
            i = i + 1;
            proof {
                assert(rows@ =~= all.subrange(i as int, all.len() as int));
            }
        }
        proof {
            assert(all.subrange(0, i as int) =~= all);
            lemma_insert_rows_keys(orig, all, k);
        }
    }
}

impl StoreState {
    /// Appends the per-transaction index rows whose key has no row yet.
    #[verifier::loop_isolation(false)]
    pub fn persist_tx_indices(&mut self, mut rows: Vec<TxIndex>)
        requires
            old(self).wf(),
        ensures
            final(self).wf(),
            final(self).tx_indices@ == insert_rows(old(self).tx_indices@, rows@, Self::tx_index_key()),
            final(self).checkpoints@ == old(self).checkpoints@,
            final(self).transactions@ == old(self).transactions@,
            final(self).events@ == old(self).events@,
            final(self).objects@ == old(self).objects@,
            final(self).packages@ == old(self).packages@,
            final(self).epochs@ == old(self).epochs@,
    {
        let n: usize = rows.len();
        let ghost all = rows@;
        proof {
            assert(all.len() == n);
        }
        let ghost orig = self.tx_indices@;
        let ghost k = Self::tx_index_key();
        let mut i: usize = 0;
        proof {
            assert(insert_rows(orig, all.subrange(0, 0), k) == orig);
        }
        while rows.len() > 0
            invariant
                i <= all.len(),
                all.len() <= usize::MAX,
                rows@ == all.subrange(i as int, all.len() as int),
                self.tx_indices@ == insert_rows(orig, all.subrange(0, i as int), k),
                self.checkpoints@ == old(self).checkpoints@,
                self.transactions@ == old(self).transactions@,
                self.events@ == old(self).events@,
                self.objects@ == old(self).objects@,
                self.packages@ == old(self).packages@,
                self.epochs@ == old(self).epochs@,
            decreases rows.len(),
        {
            let row = rows.remove(0);
            proof {
                assert(row == all[i as int]);
                assert(all.subrange(0, i + 1).drop_last() =~= all.subrange(0, i as int));
                assert(all.subrange(0, i + 1).last() == all[i as int]);
            }
            let mut present: bool = false;
            let mut j: usize = 0;
            while j < self.tx_indices.len()
                invariant
                    j <= self.tx_indices.len(),
                    present == exists|m: int| 0 <= m < j && k(self.tx_indices@[m]) == k(row),
                decreases self.tx_indices.len() - j,
            {
                if self.tx_indices[j].tx_sequence_number == row.tx_sequence_number {
                    present = true;
                }
                j = j + 1;
            }
            proof {
                assert(present == contains_key(self.tx_indices@, k, k(row)));
            }
            if !present {
                self.tx_indices.push(row);
            }
            i = i + 1;
            proof {
                assert(rows@ =~= all.subrange(i as int, all.len() as int));
            }
        }
        proof {
            assert(all.subrange(0, i as int) =~= all);
            lemma_insert_rows_keys(orig, all, k);
        }
    }
}

impl StoreState {
    /// Appends the package rows whose identifier has no row yet.
    #[verifier::loop_isolation(false)]
    pub fn persist_packages(&mut self, mut rows: Vec<IndexedPackage>)
        requires
            old(self).wf(),
        ensures
            final(self).wf(),
            final(self).packages@ == insert_rows(old(self).packages@, rows@, Self::package_key()),
            final(self).checkpoints@ == old(self).checkpoints@,
            final(self).transactions@ == old(self).transactions@,
            final(self).events@ == old(self).events@,
            final(self).tx_indices@ == old(self).tx_indices@,
            final(self).objects@ == old(self).objects@,
            final(self).epochs@ == old(self).epochs@,
    {
        let n: usize = rows.len();
        let ghost all = rows@;
        proof {
            assert(all.len() == n);
        }
        let ghost orig = self.packages@;
        let ghost k = Self::package_key();
        let mut i: usize = 0;
        proof {
            assert(insert_rows(orig, all.subrange(0, 0), k) == orig);
        }
        while rows.len() > 0
            invariant
                i <= all.len(),
                all.len() <= usize::MAX,
                rows@ == all.subrange(i as int, all.len() as int),
                self.packages@ == insert_rows(orig, all.subrange(0, i as int), k),
                self.checkpoints@ == old(self).checkpoints@,
                self.transactions@ == old(self).transactions@,
                self.events@ == old(self).events@,
                self.tx_indices@ == old(self).tx_indices@,
                self.objects@ == old(self).objects@,
                self.epochs@ == old(self).epochs@,
            decreases rows.len(),
        {
            let row = rows.remove(0);
            proof {
                assert(row == all[i as int]);
                assert(all.subrange(0, i + 1).drop_last() =~= all.subrange(0, i as int));
                assert(all.subrange(0, i + 1).last() == all[i as int]);
            }
            let mut present: bool = false;
            let mut j: usize = 0;
            while j < self.packages.len()
                invariant
                    j <= self.packages.len(),
                    present == exists|m: int| 0 <= m < j && k(self.packages@[m]) == k(row),
                decreases self.packages.len() - j,
            {
                if self.packages[j].package_id == row.package_id {
                    present = true;
                }
                j = j + 1;
            }
            proof {
                assert(present == contains_key(self.packages@, k, k(row)));
            }
            if !present {
                self.packages.push(row);
            }
            i = i + 1;
            proof {
                assert(rows@ =~= all.subrange(i as int, all.len() as int));
            }
        }
        proof {
            assert(all.subrange(0, i as int) =~= all);
            lemma_insert_rows_keys(orig, all, k);
        }
    }
}

/// All retained mutation rows of a list of checkpoint change sets, in order.
pub open spec fn flat_changed(changes: Seq<TransactionObjectChangesV2>) -> Seq<IndexedObject>
    decreases changes.len(),
{
    if changes.len() == 0 {
        Seq::empty()
    } else {
        flat_changed(changes.drop_last()) + changes.last().changed_objects@
    }
}

/// All deletion references of a list of checkpoint change sets, in order.
pub open spec fn flat_deleted(changes: Seq<TransactionObjectChangesV2>) -> Seq<ObjRef>
    decreases changes.len(),
{
    if changes.len() == 0 {
        Seq::empty()
    } else {
        flat_deleted(changes.drop_last()) + changes.last().deleted_objects@
    }
}

/// Key of a mutation row: the object's identifier.
pub open spec fn mutation_key() -> spec_fn(IndexedObject) -> u64 {
    |r: IndexedObject| r.object.id
}

/// The identifiers of a list of object references.
pub open spec fn ref_ids(s: Seq<ObjRef>) -> Seq<u64> {
    s.map(|i: int, r: ObjRef| r.id)
}

/// One retained row per object identifier: a later row replaces the kept
/// one only when its version is strictly greater; identifiers keep their
/// first-seen order.
pub open spec fn latest_wins(s: Seq<IndexedObject>) -> Seq<IndexedObject>
    decreases s.len(),
{
    if s.len() == 0 {
        Seq::empty()
    } else {
        let acc = latest_wins(s.drop_last());
        let x = s.last();
        if contains_key(acc, mutation_key(), x.object.id) {
            let j = choose|j: int| 0 <= j < acc.len() && acc[j].object.id == x.object.id;
            if x.object.version > acc[j].object.version {
                acc.update(j, x)
            } else {
                acc
            }
        } else {
            acc.push(x)
        }
    }
}

/// The retained rows hold one entry per identifier.
pub proof fn lemma_latest_wins_unique(s: Seq<IndexedObject>)
    ensures
        unique_keys(latest_wins(s), mutation_key()),
        forall|k: u64|
            contains_key(latest_wins(s), mutation_key(), k) <==> contains_key(
                s,
                mutation_key(),
                k,
            ),
    decreases s.len(),
{
    if s.len() > 0 {
        lemma_latest_wins_unique(s.drop_last());
        let acc = latest_wins(s.drop_last());
        let out = latest_wins(s);
        let x = s.last();
        assert forall|k: u64| contains_key(out, mutation_key(), k) implies contains_key(
            s,
            mutation_key(),
            k,
        ) by {
            let i = choose|i: int| 0 <= i < out.len() && mutation_key()(out[i]) == k;
            let from_acc: bool = if contains_key(acc, mutation_key(), x.object.id) {
                let j = choose|j: int| 0 <= j < acc.len() && acc[j].object.id == x.object.id;
                !(x.object.version > acc[j].object.version && i == j)
            } else {
                i != acc.len()
            };
            if from_acc {
                assert(out[i] == acc[i]);
            } else {
                assert(out[i] == x);
            }
            if from_acc {
                assert(contains_key(acc, mutation_key(), k));
                assert(contains_key(s.drop_last(), mutation_key(), k));
                let m = choose|m: int|
                    0 <= m < s.drop_last().len() && mutation_key()(s.drop_last()[m]) == k;
                assert(s.drop_last()[m] == s[m]);
                assert(mutation_key()(s[m]) == k);
            } else {
                assert(mutation_key()(s[s.len() - 1]) == k);
            }
        }
        assert forall|k: u64| contains_key(s, mutation_key(), k) implies contains_key(
            out,
            mutation_key(),
            k,
        ) by {
            let i = choose|i: int| 0 <= i < s.len() && mutation_key()(s[i]) == k;
            if i < s.len() - 1 {
                assert(mutation_key()(s.drop_last()[i]) == k);
                assert(contains_key(s.drop_last(), mutation_key(), k));
                let m = choose|m: int| 0 <= m < acc.len() && mutation_key()(acc[m]) == k;
                assert(mutation_key()(out[m]) == k);
            } else {
                if contains_key(acc, mutation_key(), x.object.id) {
                    let j = choose|j: int|
                        0 <= j < acc.len() && acc[j].object.id == x.object.id;
                    assert(mutation_key()(out[j]) == k);
                } else {
                    assert(mutation_key()(out[out.len() - 1]) == k);
                }
            }
        }
    }
}

/// Splits a list of checkpoint change sets into the mutation rows to
/// upsert (one per identifier, greatest version kept) and the object
/// identifiers to delete (first occurrences, in order).
#[verifier::loop_isolation(false)]
pub fn get_objects_to_commit(mut tx_object_changes: Vec<TransactionObjectChangesV2>) -> (r: (
    Vec<IndexedObject>,
    Vec<u64>,
))
    ensures
        r.0@ == latest_wins(flat_changed(tx_object_changes@)),
        r.1@ == crate::types::dedup_first(ref_ids(flat_deleted(tx_object_changes@))),
        unique_keys(r.0@, mutation_key()),
{
    let n: usize = tx_object_changes.len();
    let ghost all = tx_object_changes@;
    proof {
        assert(all.len() == n);
    }
    let mut muts: Vec<IndexedObject> = Vec::new();
    let mut dels: Vec<u64> = Vec::new();
    let mut i: usize = 0;
    proof {
        assert(flat_changed(all.subrange(0, 0)) =~= Seq::<IndexedObject>::empty());
        assert(flat_deleted(all.subrange(0, 0)) =~= Seq::<ObjRef>::empty());
        assert(ref_ids(Seq::<ObjRef>::empty()) =~= Seq::<u64>::empty());
    }
    while tx_object_changes.len() > 0
        invariant
            i <= all.len(),
            all.len() <= usize::MAX,
            tx_object_changes@ == all.subrange(i as int, all.len() as int),
            muts@ == latest_wins(flat_changed(all.subrange(0, i as int))),
            dels@ == crate::types::dedup_first(ref_ids(flat_deleted(all.subrange(0, i as int)))),
            unique_keys(muts@, mutation_key()),
        decreases tx_object_changes.len(),
    {
        let chunk = tx_object_changes.remove(0);
        proof {
            assert(chunk == all[i as int]);
            assert(all.subrange(0, i + 1).drop_last() =~= all.subrange(0, i as int));
            assert(all.subrange(0, i + 1).last() == all[i as int]);
        }
        let ghost flat_c_before = flat_changed(all.subrange(0, i as int));
        let ghost flat_d_before = flat_deleted(all.subrange(0, i as int));
        let ghost flat_c_after = flat_changed(all.subrange(0, i + 1));
        let ghost flat_d_after = flat_deleted(all.subrange(0, i + 1));

        // deletions: record each identifier's first occurrence
        let mut j: usize = 0;
        proof {
            assert(ref_ids(flat_d_before + chunk.deleted_objects@.subrange(0, 0)) =~= ref_ids(
                flat_d_before,
            ));
        }
        while j < chunk.deleted_objects.len()
            invariant
                j <= chunk.deleted_objects@.len(),
                dels@ == crate::types::dedup_first(
                    ref_ids(flat_d_before + chunk.deleted_objects@.subrange(0, j as int)),
                ),
            decreases chunk.deleted_objects@.len() - j,
        {
            let d: ObjRef = chunk.deleted_objects[j];
            let ghost pre = flat_d_before + chunk.deleted_objects@.subrange(0, j as int);
            proof {
                assert((flat_d_before + chunk.deleted_objects@.subrange(0, j + 1)) =~= pre.push(
                    d,
                ));
                assert(ref_ids(pre.push(d)) =~= ref_ids(pre).push(d.id));
                assert(ref_ids(pre.push(d)).drop_last() =~= ref_ids(pre));
            }
            let present = contains_u64(&dels, d.id);
            if !present {
                dels.push(d.id);
            }
            j = j + 1;
        }
        proof {
            assert(chunk.deleted_objects@.subrange(0, chunk.deleted_objects@.len() as int)
                =~= chunk.deleted_objects@);
            assert(flat_d_after =~= flat_d_before + chunk.deleted_objects@);
        }

        // mutations: latest version wins per identifier
        let mut rows = chunk.changed_objects;
        let cn: usize = rows.len();
        let ghost chunk_rows = rows@;
        proof {
            assert(chunk_rows.len() == cn);
        }
        let mut j2: usize = 0;
        proof {
            assert(flat_c_before + chunk_rows.subrange(0, 0) =~= flat_c_before);
        }
        while rows.len() > 0
            invariant
                j2 <= chunk_rows.len(),
                chunk_rows.len() <= usize::MAX,
                rows@ == chunk_rows.subrange(j2 as int, chunk_rows.len() as int),
                muts@ == latest_wins(flat_c_before + chunk_rows.subrange(0, j2 as int)),
                unique_keys(muts@, mutation_key()),
            decreases rows.len(),
        {
            let row = rows.remove(0);
            let ghost pre = flat_c_before + chunk_rows.subrange(0, j2 as int);
            proof {
                assert(row == chunk_rows[j2 as int]);
                assert((flat_c_before + chunk_rows.subrange(0, j2 + 1)) =~= pre.push(row));
                assert(pre.push(row).drop_last() =~= pre);
            }
            let mut found: bool = false;
            let mut at: usize = 0;
            let mut m: usize = 0;
            while m < muts.len()
                invariant
                    m <= muts.len(),
                    !found ==> forall|t: int| 0 <= t < m ==> muts@[t].object.id != row.object.id,
                    found ==> at < m <= muts.len() && muts@[at as int].object.id == row.object.id,
                decreases muts.len() - m,
            {
                if !found && muts[m].object.id == row.object.id {
                    found = true;
                    at = m;
                }
                m = m + 1;
            }
            proof {
                assert(found == contains_key(muts@, mutation_key(), row.object.id));
                if found {
                    let j3 = choose|j3: int|
                        0 <= j3 < muts@.len() && muts@[j3].object.id == row.object.id;
                    assert(j3 == at as int);
                }
            }
            if found {
                if row.object.version > muts[at].object.version {
                    muts[at] = row;
                }
            } else {
                muts.push(row);
            }
            j2 = j2 + 1;
            proof {
                assert(rows@ =~= chunk_rows.subrange(j2 as int, chunk_rows.len() as int));
                assert(muts@ == latest_wins(flat_c_before + chunk_rows.subrange(0, j2 as int)));
                lemma_latest_wins_unique(flat_c_before + chunk_rows.subrange(0, j2 as int));
            }
        }
        proof {
            assert(chunk_rows.subrange(0, chunk_rows.len() as int) =~= chunk_rows);
            assert(flat_c_after =~= flat_c_before + chunk_rows);
        }
        i = i + 1;
        proof {
            assert(tx_object_changes@ =~= all.subrange(i as int, all.len() as int));
        }
    }
    proof {
        assert(all.subrange(0, i as int) =~= all);
    }
    (muts, dels)
}

/// The objects table after writing one row: an existing row with the same
/// identifier is overwritten, otherwise the row is appended.
pub open spec fn upsert_one(table: Seq<Object>, o: Object) -> Seq<Object> {
    if contains_key(table, StoreState::object_key(), o.id) {
        let j = choose|j: int| 0 <= j < table.len() && table[j].id == o.id;
        table.update(j, o)
    } else {
        table.push(o)
    }
}

/// The objects table after writing the given mutation rows in order.
pub open spec fn upsert_objects(table: Seq<Object>, rows: Seq<IndexedObject>) -> Seq<Object>
    decreases rows.len(),
{
    if rows.len() == 0 {
        table
    } else {
        upsert_one(upsert_objects(table, rows.drop_last()), rows.last().object)
    }
}

/// The objects table after deleting every row whose identifier is listed.
pub open spec fn delete_ids(table: Seq<Object>, ids: Seq<u64>) -> Seq<Object>
    decreases table.len(),
{
    if table.len() == 0 {
        Seq::empty()
    } else {
        let rest = delete_ids(table.drop_last(), ids);
        if ids.contains(table.last().id) {
            rest
        } else {
            rest.push(table.last())
        }
    }
}

/// Writing one row keeps identifiers distinct and adds at most its own.
pub proof fn lemma_upsert_one(table: Seq<Object>, o: Object)
    requires
        unique_keys(table, StoreState::object_key()),
    ensures
        unique_keys(upsert_one(table, o), StoreState::object_key()),
        forall|k: u64|
            contains_key(upsert_one(table, o), StoreState::object_key(), k) <==> (contains_key(
                table,
                StoreState::object_key(),
                k,
            ) || k == o.id),
{
    let key = StoreState::object_key();
    let out = upsert_one(table, o);
    if contains_key(table, key, o.id) {
        let j = choose|j: int| 0 <= j < table.len() && table[j].id == o.id;
        assert forall|k: u64| contains_key(out, key, k) implies contains_key(table, key, k) || k
            == o.id by {
            let i = choose|i: int| 0 <= i < out.len() && key(out[i]) == k;
            if i != j {
                assert(out[i] == table[i]);
            }
        }
        assert forall|k: u64| contains_key(table, key, k) implies contains_key(out, key, k) by {
            let i = choose|i: int| 0 <= i < table.len() && key(table[i]) == k;
            if i == j {
                assert(key(out[j]) == o.id);
                assert(table[j].id == k);
            } else {
                assert(out[i] == table[i]);
            }
        }
        assert(contains_key(out, key, o.id)) by {
            assert(key(out[j]) == o.id);
        }
    } else {
        assert forall|k: u64| contains_key(out, key, k) implies contains_key(table, key, k) || k
            == o.id by {
            let i = choose|i: int| 0 <= i < out.len() && key(out[i]) == k;
            if i < table.len() {
                assert(out[i] == table[i]);
            } else {
                assert(out[i] == o);
            }
        }
        assert forall|k: u64| contains_key(table, key, k) implies contains_key(out, key, k) by {
            let i = choose|i: int| 0 <= i < table.len() && key(table[i]) == k;
            assert(out[i] == table[i]);
        }
        assert(contains_key(out, key, o.id)) by {
            assert(key(out[table.len() as int]) == o.id);
        }
    }
}

/// Writing mutation rows keeps identifiers distinct.
pub proof fn lemma_upsert_objects(table: Seq<Object>, rows: Seq<IndexedObject>)
    requires
        unique_keys(table, StoreState::object_key()),
    ensures
        unique_keys(upsert_objects(table, rows), StoreState::object_key()),
        forall|k: u64|
            contains_key(upsert_objects(table, rows), StoreState::object_key(), k) <==> (
            contains_key(table, StoreState::object_key(), k) || contains_key(
                rows,
                mutation_key(),
                k,
            )),
    decreases rows.len(),
{
    let key = StoreState::object_key();
    if rows.len() == 0 {
        assert forall|k: u64| contains_key(rows, mutation_key(), k) implies false by {}
    } else {
        lemma_upsert_objects(table, rows.drop_last());
        let prev = upsert_objects(table, rows.drop_last());
        lemma_upsert_one(prev, rows.last().object);
        assert forall|k: u64| contains_key(rows.drop_last(), mutation_key(), k) implies
            contains_key(rows, mutation_key(), k) by {
            let i = choose|i: int|
                0 <= i < rows.drop_last().len() && mutation_key()(rows.drop_last()[i]) == k;
            assert(mutation_key()(rows[i]) == k);
        }
        assert forall|k: u64| contains_key(rows, mutation_key(), k) implies contains_key(
            upsert_objects(table, rows),
            key,
            k,
        ) by {
            let i = choose|i: int| 0 <= i < rows.len() && mutation_key()(rows[i]) == k;
            if i < rows.len() - 1 {
                assert(mutation_key()(rows.drop_last()[i]) == k);
                assert(contains_key(rows.drop_last(), mutation_key(), k));
            } else {
                assert(k == rows.last().object.id);
            }
        }
    }
}

/// Membership in the objects table after deletions: a row survives
/// exactly when its identifier is not listed.
pub proof fn lemma_delete_ids_key(table: Seq<Object>, ids: Seq<u64>, k: u64)
    ensures
        contains_key(delete_ids(table, ids), StoreState::object_key(), k) <==> (contains_key(
            table,
            StoreState::object_key(),
            k,
        ) && !ids.contains(k)),
    decreases table.len(),
{
    let key = StoreState::object_key();
    if table.len() > 0 {
        lemma_delete_ids_key(table.drop_last(), ids, k);
        let rest = delete_ids(table.drop_last(), ids);
        let out = delete_ids(table, ids);
        if contains_key(out, key, k) {
            let i = choose|i: int| 0 <= i < out.len() && key(out[i]) == k;
            if i < rest.len() {
                assert(out[i] == rest[i]);
                assert(contains_key(rest, key, k));
                let m = choose|m: int|
                    0 <= m < table.drop_last().len() && key(table.drop_last()[m]) == k;
                assert(key(table[m]) == k);
            } else {
                assert(out[i] == table.last());
                assert(key(table[table.len() - 1]) == k);
                assert(!ids.contains(table.last().id));
            }
        }
        if contains_key(table, key, k) && !ids.contains(k) {
            let i = choose|i: int| 0 <= i < table.len() && key(table[i]) == k;
            if i < table.len() - 1 {
                assert(key(table.drop_last()[i]) == k);
                assert(contains_key(table.drop_last(), key, k));
                assert(contains_key(rest, key, k));
                let m = choose|m: int| 0 <= m < rest.len() && key(rest[m]) == k;
                if ids.contains(table.last().id) {
                    assert(out == rest);
                } else {
                    assert(out[m] == rest[m]);
                }
            } else {
                assert(k == table.last().id);
                assert(!ids.contains(table.last().id));
                assert(key(out[out.len() - 1]) == k);
            }
        }
    }
}

/// Deleting identifiers keeps the remaining identifiers distinct.
pub proof fn lemma_delete_ids(table: Seq<Object>, ids: Seq<u64>)
    requires
        unique_keys(table, StoreState::object_key()),
    ensures
        unique_keys(delete_ids(table, ids), StoreState::object_key()),
    decreases table.len(),
{
    let key = StoreState::object_key();
    if table.len() > 0 {
        lemma_delete_ids(table.drop_last(), ids);
        let rest = delete_ids(table.drop_last(), ids);
        let out = delete_ids(table, ids);
        if !ids.contains(table.last().id) {
            assert(out == rest.push(table.last()));
            lemma_delete_ids_key(table.drop_last(), ids, table.last().id);
            assert(!contains_key(table.drop_last(), key, table.last().id)) by {
                if contains_key(table.drop_last(), key, table.last().id) {
                    let m = choose|m: int|
                        0 <= m < table.drop_last().len() && key(table.drop_last()[m])
                            == table.last().id;
                    assert(key(table[m]) == table.last().id);
                    assert(key(table[table.len() - 1]) == table.last().id);
                }
            }
            assert(!contains_key(rest, key, table.last().id));
            assert forall|i: int, j: int| 0 <= i < j < out.len() implies key(out[i]) != key(
                out[j],
            ) by {
                if j == out.len() - 1 {
                    assert(out[i] == rest[i]);
                    assert(contains_key(rest, key, key(out[i])));
                }
            }
        }
    }
}

impl StoreState {
    /// Writes one checkpoint's worth of object changes: the retained
    /// mutations overwrite the per-identifier rows, then the deleted
    /// identifiers' rows are removed.
    #[verifier::loop_isolation(false)]
    pub fn persist_object_changes(&mut self, tx_object_changes: Vec<TransactionObjectChangesV2>)
        requires
            old(self).wf(),
        ensures
            final(self).wf(),
            final(self).objects@ == delete_ids(
                upsert_objects(
                    old(self).objects@,
                    latest_wins(flat_changed(tx_object_changes@)),
                ),
                crate::types::dedup_first(ref_ids(flat_deleted(tx_object_changes@))),
            ),
            final(self).checkpoints@ == old(self).checkpoints@,
            final(self).transactions@ == old(self).transactions@,
            final(self).events@ == old(self).events@,
            final(self).tx_indices@ == old(self).tx_indices@,
            final(self).packages@ == old(self).packages@,
            final(self).epochs@ == old(self).epochs@,
    {
        let ghost changes0 = tx_object_changes@;
        let (mut muts, dels) = get_objects_to_commit(tx_object_changes);
        let mn: usize = muts.len();
        let ghost mall = muts@;
        proof {
            assert(mall.len() == mn);
        }
        let ghost orig = self.objects@;
        let mut i: usize = 0;
        while muts.len() > 0
            invariant
                i <= mall.len(),
                mall.len() <= usize::MAX,
                muts@ == mall.subrange(i as int, mall.len() as int),
                self.objects@ == upsert_objects(orig, mall.subrange(0, i as int)),
                unique_keys(self.objects@, Self::object_key()),
                self.checkpoints@ == old(self).checkpoints@,
                self.transactions@ == old(self).transactions@,
                self.events@ == old(self).events@,
                self.tx_indices@ == old(self).tx_indices@,
                self.packages@ == old(self).packages@,
                self.epochs@ == old(self).epochs@,
            decreases muts.len(),
        {
            let row = muts.remove(0);
            proof {
                assert(row == mall[i as int]);
                assert(mall.subrange(0, i + 1).drop_last() =~= mall.subrange(0, i as int));
                assert(mall.subrange(0, i + 1).last() == mall[i as int]);
            }
            let mut found: bool = false;
            let mut at: usize = 0;
            let mut m: usize = 0;
            while m < self.objects.len()
                invariant
                    m <= self.objects.len(),
                    !found ==> forall|t: int| 0 <= t < m ==> self.objects@[t].id != row.object.id,
                    found ==> at < m <= self.objects.len() && self.objects@[at as int].id
                        == row.object.id,
                decreases self.objects.len() - m,
            {
                if !found && self.objects[m].id == row.object.id {
                    found = true;
                    at = m;
                }
                m = m + 1;
            }
            proof {
                assert(found == contains_key(self.objects@, Self::object_key(), row.object.id));
                if found {
                    let j3 = choose|j3: int|
                        0 <= j3 < self.objects@.len() && self.objects@[j3].id == row.object.id;
                    assert(j3 == at as int);
                }
                lemma_upsert_one(self.objects@, row.object);
            }
            if found {
                self.objects[at] = row.object;
            } else {
                self.objects.push(row.object);
            }
            i = i + 1;
            proof {
                assert(muts@ =~= mall.subrange(i as int, mall.len() as int));
            }
        }
        proof {
            assert(mall.subrange(0, i as int) =~= mall);
        }

        // deletions: rebuild the table without the listed identifiers
        let ghost after_up = self.objects@;
        let mut kept: Vec<Object> = Vec::new();
        let mut g: usize = 0;
        proof {
            assert(after_up.subrange(0, 0) =~= Seq::<Object>::empty());
            assert(after_up.len() == self.objects.len());
        }
        while self.objects.len() > 0
            invariant
                g <= after_up.len(),
                after_up.len() <= usize::MAX,
                self.objects@ == after_up.subrange(g as int, after_up.len() as int),
                kept@ == delete_ids(after_up.subrange(0, g as int), dels@),
                self.checkpoints@ == old(self).checkpoints@,
                self.transactions@ == old(self).transactions@,
                self.events@ == old(self).events@,
                self.tx_indices@ == old(self).tx_indices@,
                self.packages@ == old(self).packages@,
                self.epochs@ == old(self).epochs@,
            decreases self.objects.len(),
        {
            let o = self.objects.remove(0);
            proof {
                assert(o == after_up[g as int]);
                assert(after_up.subrange(0, g + 1).drop_last() =~= after_up.subrange(0, g as int));
                assert(after_up.subrange(0, g + 1).last() == after_up[g as int]);
            }
            let present = contains_u64(&dels, o.id);
            if !present {
                kept.push(o);
            }
            g = g + 1;
            proof {
                assert(self.objects@ =~= after_up.subrange(g as int, after_up.len() as int));
            }
        }
        proof {
            assert(after_up.subrange(0, g as int) =~= after_up);
        }
        self.objects = kept;
        proof {
            lemma_upsert_objects(orig, mall);
            lemma_delete_ids(after_up, dels@);
        }
    }

    /// Writes epoch rows: the row that closes the ended epoch is upserted
    /// (only its closing fields change on conflict), then the row that
    /// opens the new epoch is inserted when absent.
    #[verifier::loop_isolation(false)]
    pub fn persist_epoch(&mut self, data: TemporaryEpochStoreV2)
        requires
            old(self).wf(),
        ensures
            final(self).wf(),
            final(self).epochs@ == apply_new_epoch(
                apply_last_epoch(old(self).epochs@, data.last_epoch),
                data.new_epoch,
            ),
            final(self).checkpoints@ == old(self).checkpoints@,
            final(self).transactions@ == old(self).transactions@,
            final(self).events@ == old(self).events@,
            final(self).tx_indices@ == old(self).tx_indices@,
            final(self).objects@ == old(self).objects@,
            final(self).packages@ == old(self).packages@,
    {
        match &data.last_epoch {
            Some(last) => {
                let mut found: bool = false;
                let mut at: usize = 0;
                let mut m: usize = 0;
                while m < self.epochs.len()
                    invariant
                        m <= self.epochs.len(),
                        !found ==> forall|t: int| 0 <= t < m ==> self.epochs@[t].epoch
                            != last.epoch,
                        found ==> at < m <= self.epochs.len() && self.epochs@[at as int].epoch
                            == last.epoch,
                    decreases self.epochs.len() - m,
                {
                    if !found && self.epochs[m].epoch == last.epoch {
                        found = true;
                        at = m;
                    }
                    m = m + 1;
                }
                proof {
                    assert(found == contains_key(self.epochs@, Self::epoch_key(), last.epoch));
                    if found {
                        let j3 = choose|j3: int|
                            0 <= j3 < self.epochs@.len() && self.epochs@[j3].epoch == last.epoch;
                        assert(j3 == at as int);
                    }
                }
                if found {
                    let merged = close_epoch_row(self.epochs[at], *last);
                    self.epochs[at] = merged;
                    proof {
                        assert forall|i: int, j: int| 0 <= i < j < self.epochs@.len() implies
                            self.epochs@[i].epoch != self.epochs@[j].epoch by {}
                    }
                } else {
                    self.epochs.push(end_only_epoch_row(*last));
                }
            },
            None => {},
        }
        let mut present: bool = false;
        let mut m: usize = 0;
        while m < self.epochs.len()
            invariant
                m <= self.epochs.len(),
                present == exists|t: int| 0 <= t < m && self.epochs@[t].epoch
                    == data.new_epoch.epoch,
            decreases self.epochs.len() - m,
        {
            if self.epochs[m].epoch == data.new_epoch.epoch {
                present = true;
            }
            m = m + 1;
        }
        proof {
            assert(present == contains_key(self.epochs@, Self::epoch_key(), data.new_epoch.epoch));
        }
        if !present {
            self.epochs.push(data.new_epoch);
        }
    }
}

/// The fields of an epoch row that its closing update overwrites, applied
/// to an existing row.
pub open spec fn spec_close_epoch_row(e: IndexedEpochInfo, last: IndexedEndOfEpochInfo) -> IndexedEpochInfo {
    IndexedEpochInfo {
        epoch: e.epoch,
        first_checkpoint_id: e.first_checkpoint_id,
        epoch_start_timestamp: e.epoch_start_timestamp,
        validator_count: e.validator_count,
        reference_gas_price: e.reference_gas_price,
        protocol_version: e.protocol_version,
        epoch_total_transactions: last.epoch_total_transactions,
        end_of_epoch_info: Some(last.end_of_epoch_info),
        end_of_epoch_data: last.end_of_epoch_data,
    }
}

/// An existing epoch row after its closing update.
pub fn close_epoch_row(e: IndexedEpochInfo, last: IndexedEndOfEpochInfo) -> (r: IndexedEpochInfo)
    ensures
        r == spec_close_epoch_row(e, last),
{
    IndexedEpochInfo {
        epoch: e.epoch,
        first_checkpoint_id: e.first_checkpoint_id,
        epoch_start_timestamp: e.epoch_start_timestamp,
        validator_count: e.validator_count,
        reference_gas_price: e.reference_gas_price,
        protocol_version: e.protocol_version,
        epoch_total_transactions: last.epoch_total_transactions,
        end_of_epoch_info: Some(last.end_of_epoch_info),
        end_of_epoch_data: last.end_of_epoch_data,
    }
}

/// The epoch row written when an ended epoch has no row yet: only the
/// closing fields are known.
pub open spec fn spec_end_only_epoch_row(last: IndexedEndOfEpochInfo) -> IndexedEpochInfo {
    IndexedEpochInfo {
        epoch: last.epoch,
        first_checkpoint_id: 0,
        epoch_start_timestamp: 0,
        validator_count: 0,
        reference_gas_price: 0,
        protocol_version: 0,
        epoch_total_transactions: last.epoch_total_transactions,
        end_of_epoch_info: Some(last.end_of_epoch_info),
        end_of_epoch_data: last.end_of_epoch_data,
    }
}

/// Builds the epoch row for an ended epoch that has no row yet.
pub fn end_only_epoch_row(last: IndexedEndOfEpochInfo) -> (r: IndexedEpochInfo)
    ensures
        r == spec_end_only_epoch_row(last),
{
    IndexedEpochInfo {
        epoch: last.epoch,
        first_checkpoint_id: 0,
        epoch_start_timestamp: 0,
        validator_count: 0,
        reference_gas_price: 0,
        protocol_version: 0,
        epoch_total_transactions: last.epoch_total_transactions,
        end_of_epoch_info: Some(last.end_of_epoch_info),
        end_of_epoch_data: last.end_of_epoch_data,
    }
}

/// The epochs table after the closing update of an ended epoch.
pub open spec fn apply_last_epoch(
    table: Seq<IndexedEpochInfo>,
    last: Option<IndexedEndOfEpochInfo>,
) -> Seq<IndexedEpochInfo> {
    match last {
        None => table,
        Some(l) => if contains_key(table, StoreState::epoch_key(), l.epoch) {
            let j = choose|j: int| 0 <= j < table.len() && table[j].epoch == l.epoch;
            table.update(j, spec_close_epoch_row(table[j], l))
        } else {
            table.push(spec_end_only_epoch_row(l))
        },
    }
}

/// The epochs table after inserting the row that opens a new epoch.
pub open spec fn apply_new_epoch(
    table: Seq<IndexedEpochInfo>,
    row: IndexedEpochInfo,
) -> Seq<IndexedEpochInfo> {
    if contains_key(table, StoreState::epoch_key(), row.epoch) {
        table
    } else {
        table.push(row)
    }
}

/// Greatest network transaction total among checkpoint rows of an epoch;
/// zero when the epoch has no rows.
pub open spec fn max_network_total(rows: Seq<IndexedCheckpoint>, epoch: u64) -> u64
    decreases rows.len(),
{
    if rows.len() == 0 {
        0u64
    } else {
        let rest = max_network_total(rows.drop_last(), epoch);
        if rows.last().epoch == epoch && rows.last().network_total_transactions > rest {
            rows.last().network_total_transactions
        } else {
            rest
        }
    }
}

/// Two-tier module resolver for one checkpoint: the shared cache first
/// (which has the packages published in the checkpoint inserted), then the
/// durable packages.
pub struct InterimModuleResolver<'a> {
    pub object_cache: &'a InMemObjectCache,
    pub backup: &'a Vec<IndexedPackage>,
}

impl<'a> InterimModuleResolver<'a> {
    /// What resolution returns: the cache entry when one exists, else the
    /// most recently stored durable module.
    pub open spec fn spec_resolve(&self, package: u64, name: u64) -> Option<MoveModule> {
        match last_module_match(self.object_cache.modules_view(), package, name) {
            Some(m) => Some(m),
            None => last_module_match(packages_modules(self.backup@), package, name),
        }
    }

    /// Builds the resolver over the shared cache and the durable packages.
    /// The caller owes the cache its first tier: the packages published
    /// in the current checkpoint must already have been inserted into it,
    /// so that a transaction can resolve a module published earlier in
    /// the same checkpoint before it is durable. The checkpoint
    /// orchestrator performs that insertion, verified, immediately before
    /// constructing this value; the resolution contract reads the cache
    /// as given.
    pub fn new(backup: &'a Vec<IndexedPackage>, object_cache: &'a InMemObjectCache) -> (r:
        InterimModuleResolver<'a>)
        ensures
            r.object_cache == object_cache,
            r.backup == backup,
    {
        InterimModuleResolver { object_cache, backup }
    }

    /// Resolves a module: the cache first, the durable tier on a miss.
    pub fn get_module_by_id(&self, package: u64, name: u64) -> (r: Option<MoveModule>)
        ensures
            r == self.spec_resolve(package, name),
    {
        match self.object_cache.get_module_by_id(package, name) {
            Some(m) => Some(m),
            None => {
                let flat = flatten_packages(self.backup);
                find_module(&flat, package, name)
            },
        }
    }
}

/// Lists the modules of the given packages, each tagged with its package
/// identifier, in order.
#[verifier::loop_isolation(false)]
pub fn flatten_packages(ps: &Vec<IndexedPackage>) -> (r: Vec<(u64, MoveModule)>)
    ensures
        r@ == packages_modules(ps@),
{
    let mut r: Vec<(u64, MoveModule)> = Vec::new();
    let mut i: usize = 0;
    proof {
        assert(r@ =~= packages_modules(ps@.subrange(0, 0)));
    }
    while i < ps.len()
        invariant
            i <= ps.len(),
            r@ == packages_modules(ps@.subrange(0, i as int)),
        decreases ps.len() - i,
    {
        let ghost before = r@;
        let pid: u64 = ps[i].package_id;
        let mut j: usize = 0;
        proof {
            assert(r@ =~= before + crate::object_cache::package_modules(ps@[i as int]).subrange(
                0,
                0,
            ));
        }
        while j < ps[i].move_package.modules.len()
            invariant
                i < ps.len(),
                j <= ps@[i as int].move_package.modules.len(),
                pid == ps@[i as int].package_id,
                r@ == before + crate::object_cache::package_modules(ps@[i as int]).subrange(
                    0,
                    j as int,
                ),
            decreases ps@[i as int].move_package.modules.len() - j,
        {
            let m: MoveModule = ps[i].move_package.modules[j];
            r.push((pid, m));
            j = j + 1;
            proof {
                assert(crate::object_cache::package_modules(ps@[i as int]).subrange(0, j as int)
                    =~= crate::object_cache::package_modules(ps@[i as int]).subrange(
                    0,
                    j - 1,
                ).push((pid, m)));
                assert(r@ =~= before + crate::object_cache::package_modules(
                    ps@[i as int],
                ).subrange(0, j as int));
            }
        }
        i = i + 1;
        proof {
            assert(crate::object_cache::package_modules(ps@[i - 1]).subrange(
                0,
                crate::object_cache::package_modules(ps@[i - 1]).len() as int,
            ) =~= crate::object_cache::package_modules(ps@[i - 1]));
            assert(ps@.subrange(0, i as int).drop_last() =~= ps@.subrange(0, i as int - 1));
            assert(ps@.subrange(0, i as int).last() == ps@[i - 1]);
            assert(r@ =~= packages_modules(ps@.subrange(0, i as int)));
        }
    }
    proof {
        assert(ps@.subrange(0, ps@.len() as int) =~= ps@);
    }
    r
}

} // verus!
