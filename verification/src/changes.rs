//! Per-transaction change derivation.
//!
//! For one committed transaction this module derives the typed object
//! change records and the net balance changes from the raw effects. Object
//! versions are resolved through three tiers: the in-memory cache, the
//! durable store, and the objects the full node handed back for a replay
//! after a crash (the remote tier).

use vstd::prelude::*;

use crate::object_cache::{
    last_match_exact, last_match_id, lemma_last_match_exact_fields, lemma_last_match_id_fields,
    InMemObjectCache,
};
use crate::store::StoreState;
use crate::types::{
    BalanceChange, ChangedObject, CoinInfo, IndexerError, ObjRef, Object, ObjectChange, ObjectData,
    Owner, TransactionEffects, WriteKind,
};

verus! {

/// Resolves object versions for one transaction across the cache, the
/// durable store and the remote replay objects.
pub struct TxChangesProcessor<'a> {
    pub object_cache: &'a InMemObjectCache,
    pub store: &'a StoreState,
    pub remote: &'a Vec<Object>,
}

impl<'a> TxChangesProcessor<'a> {
    /// The three tiers are consulted in order for an exact version: the
    /// cache, then the store row (which matches only at its stored
    /// version), then the remote objects.
    pub open spec fn spec_get_object(&self, id: u64, version: u64) -> Option<Object> {
        if last_match_exact(self.object_cache.objects(), id, version) is Some {
            last_match_exact(self.object_cache.objects(), id, version)
        } else if self.store.spec_object_row(id) matches Some(row) && row.version == version {
            self.store.spec_object_row(id)
        } else {
            last_match_exact(self.remote@, id, version)
        }
    }

    /// What the version-bounded lookup returns: the cache at the exact
    /// version, else the cache's latest entry when it is not newer than
    /// the bound, else the store row, which must exist and not be newer.
    pub open spec fn spec_find_le(&self, id: u64, version: u64) -> Result<Object, IndexerError> {
        if last_match_exact(self.object_cache.objects(), id, version) is Some {
            Ok(last_match_exact(self.object_cache.objects(), id, version).unwrap())
        } else if last_match_id(self.object_cache.objects(), id) matches Some(o) && o.version
            <= version {
            Ok(last_match_id(self.object_cache.objects(), id).unwrap())
        } else {
            match self.store.spec_object_row(id) {
                None => Err(IndexerError::StoreRead),
                Some(row) => if row.version <= version {
                    Ok(row)
                } else {
                    Err(IndexerError::InvariantViolation)
                },
            }
        }
    }

    /// Builds the processor over the three tiers. The caller owes the
    /// pipeline's first step: every object snapshot of the checkpoint
    /// must already have been inserted into the shared cache before any
    /// transaction is processed, so that the lookups below can resolve
    /// in-flight versions. The checkpoint orchestrator performs that
    /// insertion, verified, immediately before constructing this value;
    /// the contracts here read the cache as given.
    pub fn new(
        object_cache: &'a InMemObjectCache,
        store: &'a StoreState,
        remote: &'a Vec<Object>,
    ) -> (r: TxChangesProcessor<'a>)
        ensures
            r.object_cache == object_cache,
            r.store == store,
            r.remote == remote,
    {
        TxChangesProcessor { object_cache, store, remote }
    }

    /// Fetches the object at exactly the given version, falling through
    /// the cache, the store, and the remote objects. A miss everywhere is
    /// a full-node reading failure: the replay cannot proceed.
    #[verifier::loop_isolation(false)]
    pub fn get_object(&self, id: u64, version: u64) -> (r: Result<&Object, IndexerError>)
        requires
            self.store.wf(),
        ensures
            match r {
                Ok(o) => self.spec_get_object(id, version) == Some(*o) && o.id == id && o.version
                    == version,
                Err(e) => self.spec_get_object(id, version) is None && e
                    == IndexerError::FullNodeReading,
            },
    {
        proof {
            lemma_last_match_exact_fields(self.object_cache.objects(), id, version);
            lemma_last_match_exact_fields(self.remote@, id, version);
        }
        match self.object_cache.get(id, Some(version)) {
            Some(o) => Ok(o),
            None => {
                match self.store.get_object(id, Some(version)) {
                    Some(o) => Ok(o),
                    None => {
                        let mut i: usize = self.remote.len();
                        proof {
                            assert(self.remote@.subrange(0, self.remote@.len() as int)
                                =~= self.remote@);
                        }
                        while i > 0
                            invariant
                                i <= self.remote.len(),
                                last_match_exact(self.remote@.subrange(0, i as int), id, version)
                                    == last_match_exact(self.remote@, id, version),
                            decreases i,
                        {
                            i = i - 1;
                            let o = &self.remote[i];
                            proof {
                                assert(self.remote@.subrange(0, i + 1).drop_last()
                                    =~= self.remote@.subrange(0, i as int));
                                assert(self.remote@.subrange(0, i + 1).last()
                                    == self.remote@[i as int]);
                            }
                            if o.id == id && o.version == version {
                                return Ok(o);
                            }
                        }
                        proof {
                            assert(self.remote@.subrange(0, 0) =~= Seq::<Object>::empty());
                        }
                        Err(IndexerError::FullNodeReading)
                    },
                }
            },
        }
    }

    /// Fetches an object at a version no greater than the bound: the
    /// cache at the exact version, else the cache's latest entry when old
    /// enough, else the store's row. A store miss is an error rather than
    /// a crash; a store row newer than the bound breaks the stream's
    /// ordering and is fatal.
    pub fn find_object_lt_or_eq_version(&self, id: u64, version: u64) -> (r: Result<
        &Object,
        IndexerError,
    >)
        requires
            self.store.wf(),
        ensures
            match r {
                Ok(o) => self.spec_find_le(id, version) == Ok::<Object, IndexerError>(*o) && o.id
                    == id,
                Err(e) => self.spec_find_le(id, version) == Err::<Object, IndexerError>(e),
            },
    {
        proof {
            lemma_last_match_exact_fields(self.object_cache.objects(), id, version);
            lemma_last_match_id_fields(self.object_cache.objects(), id);
        }
        match self.object_cache.get(id, Some(version)) {
            Some(o) => Ok(o),
            None => {
                match self.object_cache.get(id, None) {
                    Some(o) if o.version <= version => Ok(o),
                    _ => {
                        match self.store.get_object(id, None) {
                            None => Err(IndexerError::StoreRead),
                            Some(o) => {
                                if o.version <= version {
                                    Ok(o)
                                } else {
                                    Err(IndexerError::InvariantViolation)
                                }
                            },
                        }
                    },
                }
            },
        }
    }
}

/// The prior version an effect recorded for an object, if any: the first
/// entry for the identifier.
pub open spec fn first_modified(modified: Seq<(u64, u64)>, id: u64) -> Option<u64>
    decreases modified.len(),
{
    if modified.len() == 0 {
        None
    } else if modified[0].0 == id {
        Some(modified[0].1)
    } else {
        first_modified(modified.subrange(1, modified.len() as int), id)
    }
}

/// Deletion records for a list of removed references.
pub open spec fn deleted_records(sender: u64, refs: Seq<ObjRef>) -> Seq<ObjectChange>
    decreases refs.len(),
{
    if refs.len() == 0 {
        Seq::empty()
    } else {
        deleted_records(sender, refs.drop_last()).push(
            ObjectChange::Deleted {
                sender,
                object_id: refs.last().id,
                version: refs.last().version,
            },
        )
    }
}

/// Wrap records for a list of wrapped references.
pub open spec fn wrapped_records(sender: u64, refs: Seq<ObjRef>) -> Seq<ObjectChange>
    decreases refs.len(),
{
    if refs.len() == 0 {
        Seq::empty()
    } else {
        wrapped_records(sender, refs.drop_last()).push(
            ObjectChange::Wrapped {
                sender,
                object_id: refs.last().id,
                version: refs.last().version,
            },
        )
    }
}

impl<'a> TxChangesProcessor<'a> {
    /// The record derived for one written object: a package write is a
    /// publication; a creation or an unwrap surfaces as created; a
    /// mutation whose prior owner differs is a transfer, else a mutation
    /// carrying its prior version. A mutation without a recorded prior
    /// version breaks the effects' own shape and is fatal.
    pub open spec fn spec_change_record(
        &self,
        sender: u64,
        c: ChangedObject,
        modified: Seq<(u64, u64)>,
    ) -> Result<ObjectChange, IndexerError> {
        match self.spec_get_object(c.oref.id, c.oref.version) {
            None => Err(IndexerError::FullNodeReading),
            Some(o) => if o.spec_is_package() {
                Ok(
                    ObjectChange::Published {
                        package_id: c.oref.id,
                        version: c.oref.version,
                        digest: c.oref.digest,
                    },
                )
            } else {
                let t = o.spec_type_tag().unwrap();
                match c.write_kind {
                    WriteKind::Create => Ok(
                        ObjectChange::Created {
                            sender,
                            owner: c.owner,
                            object_type: t,
                            object_id: c.oref.id,
                            version: c.oref.version,
                            digest: c.oref.digest,
                        },
                    ),
                    WriteKind::Unwrap => Ok(
                        ObjectChange::Created {
                            sender,
                            owner: c.owner,
                            object_type: t,
                            object_id: c.oref.id,
                            version: c.oref.version,
                            digest: c.oref.digest,
                        },
                    ),
                    WriteKind::Mutate => match first_modified(modified, c.oref.id) {
                        None => Err(IndexerError::InvariantViolation),
                        Some(pv) => match self.spec_get_object(c.oref.id, pv) {
                            None => Err(IndexerError::FullNodeReading),
                            Some(old) => if old.owner != c.owner {
                                Ok(
                                    ObjectChange::Transferred {
                                        sender,
                                        recipient: c.owner,
                                        object_type: t,
                                        object_id: c.oref.id,
                                        version: c.oref.version,
                                        digest: c.oref.digest,
                                    },
                                )
                            } else {
                                Ok(
                                    ObjectChange::Mutated {
                                        sender,
                                        owner: c.owner,
                                        object_type: t,
                                        object_id: c.oref.id,
                                        version: c.oref.version,
                                        previous_version: pv,
                                        digest: c.oref.digest,
                                    },
                                )
                            },
                        },
                    },
                }
            },
        }
    }

    /// The records of a list of written objects, or the first failure.
    pub open spec fn spec_changed_records(
        &self,
        sender: u64,
        changed: Seq<ChangedObject>,
        modified: Seq<(u64, u64)>,
    ) -> Result<Seq<ObjectChange>, IndexerError>
        decreases changed.len(),
    {
        if changed.len() == 0 {
            Ok(Seq::empty())
        } else {
            match self.spec_changed_records(sender, changed.drop_last(), modified) {
                Err(e) => Err(e),
                Ok(pre) => match self.spec_change_record(sender, changed.last(), modified) {
                    Err(e) => Err(e),
                    Ok(rec) => Ok(pre.push(rec)),
                },
            }
        }
    }

    /// Derives the typed object-change records of one transaction: one
    /// record per written object, then deletions, wraps, and
    /// unwrapped-then-deleted removals, in effect order.
    #[verifier::loop_isolation(false)]
    pub fn object_changes(&self, sender: u64, effects: &TransactionEffects) -> (r: Result<
        Vec<ObjectChange>,
        IndexerError,
    >)
        requires
            self.store.wf(),
        ensures
            match r {
                Ok(v) => self.spec_changed_records(
                    sender,
                    effects.changed_objects@,
                    effects.modified_at_versions@,
                ) matches Ok(pre) && v@ == pre + deleted_records(sender, effects.deleted@)
                    + wrapped_records(sender, effects.wrapped@) + deleted_records(
                    sender,
                    effects.unwrapped_then_deleted@,
                ),
                Err(e) => self.spec_changed_records(
                    sender,
                    effects.changed_objects@,
                    effects.modified_at_versions@,
                ) == Err::<Seq<ObjectChange>, IndexerError>(e),
            },
    {
        let changed = &effects.changed_objects;
        let modified = &effects.modified_at_versions;
        let mut out: Vec<ObjectChange> = Vec::new();
        let mut i: usize = 0;
        proof {
            assert(changed@.subrange(0, 0) =~= Seq::<ChangedObject>::empty());
        }
        while i < changed.len()
            invariant
                i <= changed.len(),
                self.spec_changed_records(sender, changed@.subrange(0, i as int), modified@)
                    == Ok::<Seq<ObjectChange>, IndexerError>(out@),
            decreases changed.len() - i,
        {
            let c: ChangedObject = changed[i];
            proof {
                assert(changed@.subrange(0, i + 1).drop_last() =~= changed@.subrange(0, i as int));
                assert(changed@.subrange(0, i + 1).last() == changed@[i as int]);
            }
            let rec: ObjectChange = match self.get_object(c.oref.id, c.oref.version) {
                Err(e) => {
                    proof {
                        self.lemma_changed_records_error(
                            sender,
                            changed@,
                            modified@,
                            i as int + 1,
                        );
                    }
                    return Err(e);
                },
                Ok(o) => {
                    if o.is_package() {
                        ObjectChange::Published {
                            package_id: c.oref.id,
                            version: c.oref.version,
                            digest: c.oref.digest,
                        }
                    } else {
                        let t = o.type_tag().unwrap();
                        match c.write_kind {
                            WriteKind::Create | WriteKind::Unwrap => ObjectChange::Created {
                                sender,
                                owner: c.owner,
                                object_type: t,
                                object_id: c.oref.id,
                                version: c.oref.version,
                                digest: c.oref.digest,
                            },
                            WriteKind::Mutate => {
                                let pv = match find_first_modified(modified, c.oref.id) {
                                    None => {
                                        proof {
                                            self.lemma_changed_records_error(
                                                sender,
                                                changed@,
                                                modified@,
                                                i as int + 1,
                                            );
                                        }
                                        return Err(IndexerError::InvariantViolation);
                                    },
                                    Some(pv) => pv,
                                };
                                match self.get_object(c.oref.id, pv) {
                                    Err(e) => {
                                        proof {
                                            self.lemma_changed_records_error(
                                                sender,
                                                changed@,
                                                modified@,
                                                i as int + 1,
                                            );
                                        }
                                        return Err(e);
                                    },
                                    Ok(old) => {
                                        if !owner_eq(&old.owner, &c.owner) {
                                            ObjectChange::Transferred {
                                                sender,
                                                recipient: c.owner,
                                                object_type: t,
                                                object_id: c.oref.id,
                                                version: c.oref.version,
                                                digest: c.oref.digest,
                                            }
                                        } else {
                                            ObjectChange::Mutated {
                                                sender,
                                                owner: c.owner,
                                                object_type: t,
                                                object_id: c.oref.id,
                                                version: c.oref.version,
                                                previous_version: pv,
                                                digest: c.oref.digest,
                                            }
                                        }
                                    },
                                }
                            },
                        }
                    }
                },
            };
            out.push(rec);
            i = i + 1;
        }
        proof {
            assert(changed@.subrange(0, changed@.len() as int) =~= changed@);
        }
        let ghost pre = out@;
        append_deleted(&mut out, sender, &effects.deleted);
        append_wrapped(&mut out, sender, &effects.wrapped);
        append_deleted(&mut out, sender, &effects.unwrapped_then_deleted);
        Ok(out)
    }

    /// A failing prefix fails the whole list with the same error.
    pub proof fn lemma_changed_records_error(
        &self,
        sender: u64,
        changed: Seq<ChangedObject>,
        modified: Seq<(u64, u64)>,
        n: int,
    )
        requires
            0 <= n <= changed.len(),
            self.spec_changed_records(sender, changed.subrange(0, n), modified) is Err,
        ensures
            self.spec_changed_records(sender, changed, modified) == self.spec_changed_records(
                sender,
                changed.subrange(0, n),
                modified,
            ),
        decreases changed.len() - n,
    {
        if n == changed.len() {
            assert(changed.subrange(0, n) =~= changed);
        } else {
            assert(changed.subrange(0, n + 1).drop_last() =~= changed.subrange(0, n));
            self.lemma_changed_records_error(sender, changed, modified, n + 1);
        }
    }
}

/// The coin payload of an object, if it is a coin.
pub open spec fn coin_of(o: Object) -> Option<CoinInfo> {
    match o.data {
        ObjectData::MoveData(m) => m.coin,
        ObjectData::PackageData(_) => None,
    }
}

/// One balance item: an owner, a coin type, and a signed delta.
pub type BalanceItem = (Owner, u64, int);

/// The keys of a list of balance items.
pub open spec fn items_keys(items: Seq<BalanceItem>) -> Seq<(Owner, u64)> {
    items.map(|i: int, t: BalanceItem| (t.0, t.1))
}

/// Net delta of one key over a list of balance items.
pub open spec fn net_items(items: Seq<BalanceItem>, owner: Owner, coin_type: u64) -> int
    decreases items.len(),
{
    if items.len() == 0 {
        0
    } else {
        net_items(items.drop_last(), owner, coin_type) + if items.last().0 == owner
            && items.last().1 == coin_type {
            items.last().2
        } else {
            0
        }
    }
}

/// A key that never occurs nets to zero.
pub proof fn lemma_net_absent(items: Seq<BalanceItem>, owner: Owner, coin_type: u64)
    requires
        !items_keys(items).contains((owner, coin_type)),
    ensures
        net_items(items, owner, coin_type) == 0,
    decreases items.len(),
{
    if items.len() > 0 {
        assert forall|i: int| 0 <= i < items.drop_last().len() implies items_keys(
            items.drop_last(),
        )[i] != (owner, coin_type) by {
            assert(items_keys(items)[i] == (items[i].0, items[i].1));
        }
        lemma_net_absent(items.drop_last(), owner, coin_type);
        assert(items_keys(items)[items.len() - 1] == (items.last().0, items.last().1));
    }
}

/// The sequence with later repetitions of a key removed.
pub open spec fn dedup_keys(s: Seq<(Owner, u64)>) -> Seq<(Owner, u64)>
    decreases s.len(),
{
    if s.len() == 0 {
        Seq::empty()
    } else {
        let d = dedup_keys(s.drop_last());
        if d.contains(s.last()) {
            d
        } else {
            d.push(s.last())
        }
    }
}

/// Deduplicated keys are distinct and cover exactly the input's keys.
pub proof fn lemma_dedup_keys(s: Seq<(Owner, u64)>)
    ensures
        forall|x: (Owner, u64)| dedup_keys(s).contains(x) <==> s.contains(x),
        forall|i: int, j: int|
            0 <= i < j < dedup_keys(s).len() ==> dedup_keys(s)[i] != dedup_keys(s)[j],
    decreases s.len(),
{
    if s.len() > 0 {
        lemma_dedup_keys(s.drop_last());
        let d = dedup_keys(s.drop_last());
        let out = dedup_keys(s);
        assert forall|x: (Owner, u64)| out.contains(x) implies s.contains(x) by {
            let i = choose|i: int| 0 <= i < out.len() && out[i] == x;
            if i < d.len() {
                assert(d[i] == x);
                assert(d.contains(x));
                assert(s.drop_last().contains(x));
                let m = choose|m: int| 0 <= m < s.drop_last().len() && s.drop_last()[m] == x;
                assert(s[m] == x);
            } else {
                assert(out[i] == s.last());
                assert(s[s.len() - 1] == x);
            }
        }
        assert forall|x: (Owner, u64)| s.contains(x) implies out.contains(x) by {
            let i = choose|i: int| 0 <= i < s.len() && s[i] == x;
            if i < s.len() - 1 {
                assert(s.drop_last()[i] == x);
                assert(s.drop_last().contains(x));
                assert(d.contains(x));
                if !d.contains(s.last()) {
                    let j = choose|j: int| 0 <= j < d.len() && d[j] == x;
                    assert(out[j] == x);
                }
            } else {
                assert(x == s.last());
                if d.contains(x) {
                } else {
                    assert(out[out.len() - 1] == x);
                }
            }
        }
    }
}

/// Whether a list of balance rows is exactly the aggregation of a list of
/// balance items: one row per key in first-seen order, carrying the net.
pub open spec fn models_items(bcs: Seq<BalanceChange>, items: Seq<BalanceItem>) -> bool {
    let ks = dedup_keys(items_keys(items));
    &&& bcs.len() == ks.len()
    &&& forall|m: int|
        0 <= m < bcs.len() ==> (bcs[m].owner, bcs[m].coin_type) == ks[m] && bcs[m].amount as int
            == net_items(items, ks[m].0, ks[m].1)
}

/// One sequence is an initial segment of another.
pub open spec fn seq_prefix_of(a: Seq<BalanceItem>, b: Seq<BalanceItem>) -> bool {
    a.len() <= b.len() && b.subrange(0, a.len() as int) == a
}

/// Every prefix net of a list of balance items stays within machine range.
pub open spec fn items_in_range(items: Seq<BalanceItem>) -> bool {
    forall|n: int, owner: Owner, coin_type: u64|
        0 <= n <= items.len() ==> i128::MIN <= #[trigger] net_items(
            items.subrange(0, n),
            owner,
            coin_type,
        ) <= i128::MAX
}

/// One sequence is an initial segment of a longer one via an intermediate.
pub proof fn lemma_prefix_trans(a: Seq<BalanceItem>, b: Seq<BalanceItem>, c: Seq<BalanceItem>)
    requires
        seq_prefix_of(a, b),
        seq_prefix_of(b, c),
    ensures
        seq_prefix_of(a, c),
{
    assert(c.subrange(0, a.len() as int) =~= c.subrange(0, b.len() as int).subrange(
        0,
        a.len() as int,
    ));
}

impl<'a> TxChangesProcessor<'a> {
    /// The object the version-bounded lookup yields, when it succeeds.
    pub open spec fn spec_le_ok(&self, id: u64, version: u64) -> Option<Object> {
        match self.spec_find_le(id, version) {
            Ok(o) => Some(o),
            Err(_) => None,
        }
    }

    /// Balance items charged for the pre-images named by the effects:
    /// each prior version that resolves to a coin charges its owner the
    /// full prior balance.
    pub open spec fn spec_minus_items(&self, modified: Seq<(u64, u64)>) -> Seq<BalanceItem>
        decreases modified.len(),
    {
        if modified.len() == 0 {
            Seq::empty()
        } else {
            let rest = self.spec_minus_items(modified.drop_last());
            match self.spec_le_ok(modified.last().0, modified.last().1) {
                None => rest,
                Some(o) => match coin_of(o) {
                    None => rest,
                    Some(ci) => rest.push((o.owner, ci.coin_type, -(ci.balance as int))),
                },
            }
        }
    }

    /// Balance items credited for the written objects: each written coin
    /// credits its new owner the full new balance.
    pub open spec fn spec_plus_items(&self, changed: Seq<ChangedObject>) -> Seq<BalanceItem>
        decreases changed.len(),
    {
        if changed.len() == 0 {
            Seq::empty()
        } else {
            let rest = self.spec_plus_items(changed.drop_last());
            match self.spec_get_object(changed.last().oref.id, changed.last().oref.version) {
                None => rest,
                Some(o) => match coin_of(o) {
                    None => rest,
                    Some(ci) => rest.push((changed.last().owner, ci.coin_type, ci.balance as int)),
                },
            }
        }
    }

    /// All balance items of one transaction: charges, then credits.
    pub open spec fn spec_balance_items(&self, effects: TransactionEffects) -> Seq<BalanceItem> {
        self.spec_minus_items(effects.modified_at_versions@) + self.spec_plus_items(
            effects.changed_objects@,
        )
    }

    /// Every object version the balance derivation reads resolves.
    pub open spec fn balances_resolvable(&self, effects: TransactionEffects) -> bool {
        &&& forall|i: int|
            0 <= i < effects.modified_at_versions@.len() ==> #[trigger] self.spec_find_le(
                effects.modified_at_versions@[i].0,
                effects.modified_at_versions@[i].1,
            ) is Ok
        &&& forall|i: int|
            0 <= i < effects.changed_objects@.len() ==> #[trigger] self.spec_get_object(
                effects.changed_objects@[i].oref.id,
                effects.changed_objects@[i].oref.version,
            ) is Some
    }

    /// The charge items of a prefix form an initial segment of the whole.
    pub proof fn lemma_minus_items_prefix(&self, modified: Seq<(u64, u64)>, i: int)
        requires
            0 <= i <= modified.len(),
        ensures
            seq_prefix_of(self.spec_minus_items(modified.subrange(0, i)), self.spec_minus_items(modified)),
        decreases modified.len() - i,
    {
        if i == modified.len() {
            assert(modified.subrange(0, i) =~= modified);
            assert(self.spec_minus_items(modified).subrange(
                0,
                self.spec_minus_items(modified).len() as int,
            ) =~= self.spec_minus_items(modified));
        } else {
            self.lemma_minus_items_prefix(modified, i + 1);
            let a = self.spec_minus_items(modified.subrange(0, i));
            let b = self.spec_minus_items(modified.subrange(0, i + 1));
            assert(modified.subrange(0, i + 1).drop_last() =~= modified.subrange(0, i));
            assert(seq_prefix_of(a, b)) by {
                if a.len() < b.len() {
                    assert(b == a.push(b.last()));
                    assert(b.subrange(0, a.len() as int) =~= a);
                } else {
                    assert(b.subrange(0, a.len() as int) =~= a);
                }
            }
            lemma_prefix_trans(a, b, self.spec_minus_items(modified));
        }
    }

    /// The credit items of a prefix form an initial segment of the whole.
    pub proof fn lemma_plus_items_prefix(&self, changed: Seq<ChangedObject>, i: int)
        requires
            0 <= i <= changed.len(),
        ensures
            seq_prefix_of(self.spec_plus_items(changed.subrange(0, i)), self.spec_plus_items(changed)),
        decreases changed.len() - i,
    {
        if i == changed.len() {
            assert(changed.subrange(0, i) =~= changed);
            assert(self.spec_plus_items(changed).subrange(
                0,
                self.spec_plus_items(changed).len() as int,
            ) =~= self.spec_plus_items(changed));
        } else {
            self.lemma_plus_items_prefix(changed, i + 1);
            let a = self.spec_plus_items(changed.subrange(0, i));
            let b = self.spec_plus_items(changed.subrange(0, i + 1));
            assert(changed.subrange(0, i + 1).drop_last() =~= changed.subrange(0, i));
            assert(seq_prefix_of(a, b)) by {
                if a.len() < b.len() {
                    assert(b == a.push(b.last()));
                    assert(b.subrange(0, a.len() as int) =~= a);
                } else {
                    assert(b.subrange(0, a.len() as int) =~= a);
                }
            }
            lemma_prefix_trans(a, b, self.spec_plus_items(changed));
        }
    }

    /// A prefix of the item list whose net leaves machine range refutes
    /// range safety of the whole.
    pub proof fn lemma_range_violation(
        &self,
        items: Seq<BalanceItem>,
        prefix: Seq<BalanceItem>,
        owner: Owner,
        coin_type: u64,
    )
        requires
            seq_prefix_of(prefix, items),
            !(i128::MIN <= net_items(prefix, owner, coin_type) <= i128::MAX),
        ensures
            !items_in_range(items),
    {
        assert(items.subrange(0, prefix.len() as int) == prefix);
    }

    /// Derives the net balance changes of one transaction: the pre-image
    /// of each modified object charges its prior owner, each written coin
    /// credits its new owner, and the rows carry one net amount per owner
    /// and coin type in first-seen order. A version that does not resolve
    /// fails with that tier's error; a net that leaves machine range is a
    /// data-transformation failure.
    #[verifier::loop_isolation(false)]
    pub fn balance_changes(&self, effects: &TransactionEffects) -> (r: Result<
        Vec<BalanceChange>,
        IndexerError,
    >)
        requires
            self.store.wf(),
        ensures
            match r {
                Ok(v) => self.balances_resolvable(*effects) && models_items(
                    v@,
                    self.spec_balance_items(*effects),
                ),
                Err(e) => !(self.balances_resolvable(*effects) && items_in_range(
                    self.spec_balance_items(*effects),
                )) && (self.balances_resolvable(*effects)
                    ==> e == IndexerError::DataTransformation),
            },
    {
        let modified = &effects.modified_at_versions;
        let changed = &effects.changed_objects;
        let mut acc: Vec<BalanceChange> = Vec::new();
        let mut i: usize = 0;
        proof {
            assert(modified@.subrange(0, 0) =~= Seq::<(u64, u64)>::empty());
            assert(items_keys(Seq::<BalanceItem>::empty()) =~= Seq::<(Owner, u64)>::empty());
        }
        while i < modified.len()
            invariant
                i <= modified.len(),
                models_items(acc@, self.spec_minus_items(modified@.subrange(0, i as int))),
                forall|j: int|
                    0 <= j < i ==> #[trigger] self.spec_find_le(
                        modified@[j].0,
                        modified@[j].1,
                    ) is Ok,
            decreases modified.len() - i,
        {
            let entry: (u64, u64) = modified[i];
            let ghost pre_items = self.spec_minus_items(modified@.subrange(0, i as int));
            proof {
                assert(modified@.subrange(0, i + 1).drop_last() =~= modified@.subrange(0, i as int));
                assert(modified@.subrange(0, i + 1).last() == modified@[i as int]);
            }
            match self.find_object_lt_or_eq_version(entry.0, entry.1) {
                Err(e) => {
                    return Err(e);
                },
                Ok(o) => {
                    let coin: Option<CoinInfo> = match &o.data {
                        ObjectData::MoveData(m) => m.coin,
                        ObjectData::PackageData(_) => None,
                    };
                    match coin {
                        None => {},
                        Some(ci) => {
                            let delta: i128 = -(ci.balance as i128);
                            let ok = merge_delta(
                                &mut acc,
                                o.owner,
                                ci.coin_type,
                                delta,
                                Ghost(pre_items),
                            );
                            if !ok {
                                proof {
                                    let item = (o.owner, ci.coin_type, delta as int);
                                    assert(self.spec_minus_items(modified@.subrange(0, i + 1))
                                        == pre_items.push(item));
                                    self.lemma_minus_items_prefix(modified@, i + 1);
                                    let full = self.spec_balance_items(*effects);
                                    assert(seq_prefix_of(
                                        self.spec_minus_items(modified@),
                                        full,
                                    )) by {
                                        assert(full.subrange(
                                            0,
                                            self.spec_minus_items(modified@).len() as int,
                                        ) =~= self.spec_minus_items(modified@));
                                    }
                                    lemma_prefix_trans(
                                        pre_items.push(item),
                                        self.spec_minus_items(modified@),
                                        full,
                                    );
                                    assert(pre_items.push(item).drop_last() =~= pre_items);
                                    assert(pre_items.push(item).last() == item);
                                    assert(net_items(pre_items.push(item), o.owner, ci.coin_type)
                                        == net_items(pre_items, o.owner, ci.coin_type)
                                        + delta as int);
                                    self.lemma_range_violation(
                                        full,
                                        pre_items.push(item),
                                        o.owner,
                                        ci.coin_type,
                                    );
                                }
                                return Err(IndexerError::DataTransformation);
                            }
                        },
                    }
                },
            }
            i = i + 1;
        }
        proof {
            assert(modified@.subrange(0, modified@.len() as int) =~= modified@);
        }
        let ghost minus_full = self.spec_minus_items(modified@);
        let mut j: usize = 0;
        proof {
            assert(changed@.subrange(0, 0) =~= Seq::<ChangedObject>::empty());
            assert(minus_full + self.spec_plus_items(changed@.subrange(0, 0)) =~= minus_full);
        }
        while j < changed.len()
            invariant
                j <= changed.len(),
                models_items(
                    acc@,
                    minus_full + self.spec_plus_items(changed@.subrange(0, j as int)),
                ),
                forall|m: int|
                    0 <= m < modified@.len() ==> #[trigger] self.spec_find_le(
                        modified@[m].0,
                        modified@[m].1,
                    ) is Ok,
                forall|m: int|
                    0 <= m < j ==> #[trigger] self.spec_get_object(
                        changed@[m].oref.id,
                        changed@[m].oref.version,
                    ) is Some,
            decreases changed.len() - j,
        {
            let c: ChangedObject = changed[j];
            let ghost pre_items = minus_full + self.spec_plus_items(changed@.subrange(0, j as int));
            proof {
                assert(changed@.subrange(0, j + 1).drop_last() =~= changed@.subrange(0, j as int));
                assert(changed@.subrange(0, j + 1).last() == changed@[j as int]);
            }
            match self.get_object(c.oref.id, c.oref.version) {
                Err(e) => {
                    return Err(e);
                },
                Ok(o) => {
                    let coin: Option<CoinInfo> = match &o.data {
                        ObjectData::MoveData(m) => m.coin,
                        ObjectData::PackageData(_) => None,
                    };
                    match coin {
                        None => {
                            proof {
                                assert(minus_full + self.spec_plus_items(
                                    changed@.subrange(0, j + 1),
                                ) =~= pre_items);
                            }
                        },
                        Some(ci) => {
                            let delta: i128 = ci.balance as i128;
                            let ok = merge_delta(
                                &mut acc,
                                c.owner,
                                ci.coin_type,
                                delta,
                                Ghost(pre_items),
                            );
                            proof {
                                let item = (c.owner, ci.coin_type, delta as int);
                                assert(minus_full + self.spec_plus_items(
                                    changed@.subrange(0, j + 1),
                                ) =~= pre_items.push(item));
                            }
                            if !ok {
                                proof {
                                    let item = (c.owner, ci.coin_type, delta as int);
                                    self.lemma_plus_items_prefix(changed@, j + 1);
                                    let full = self.spec_balance_items(*effects);
                                    assert(seq_prefix_of(pre_items.push(item), full)) by {
                                        let pp = self.spec_plus_items(
                                            changed@.subrange(0, j + 1),
                                        );
                                        assert(seq_prefix_of(pp, self.spec_plus_items(changed@)));
                                        assert(full.subrange(
                                            0,
                                            minus_full.len() + pp.len() as int,
                                        ) =~= minus_full + pp);
                                    }
                                    assert(pre_items.push(item).drop_last() =~= pre_items);
                                    assert(pre_items.push(item).last() == item);
                                    assert(net_items(pre_items.push(item), c.owner, ci.coin_type)
                                        == net_items(pre_items, c.owner, ci.coin_type)
                                        + delta as int);
                                    self.lemma_range_violation(
                                        full,
                                        pre_items.push(item),
                                        c.owner,
                                        ci.coin_type,
                                    );
                                }
                                return Err(IndexerError::DataTransformation);
                            }
                        },
                    }
                },
            }
            j = j + 1;
        }
        proof {
            assert(changed@.subrange(0, changed@.len() as int) =~= changed@);
        }
        Ok(acc)
    }
}

impl<'a> TxChangesProcessor<'a> {
    /// Derives both change lists of one transaction: the typed object
    /// changes and the net balance changes. The object changes are
    /// derived first; the first failing lookup of either derivation
    /// fails the transaction.
    pub fn get_changes(
        &self,
        tx: &crate::types::TransactionData,
        effects: &TransactionEffects,
    ) -> (r: Result<(Vec<BalanceChange>, Vec<ObjectChange>), IndexerError>)
        requires
            self.store.wf(),
        ensures
            match r {
                Ok(p) => {
                    &&& self.spec_changed_records(
                        tx.sender,
                        effects.changed_objects@,
                        effects.modified_at_versions@,
                    ) matches Ok(pre) && p.1@ == pre + deleted_records(tx.sender, effects.deleted@)
                        + wrapped_records(tx.sender, effects.wrapped@) + deleted_records(
                        tx.sender,
                        effects.unwrapped_then_deleted@,
                    )
                    &&& self.balances_resolvable(*effects)
                    &&& models_items(p.0@, self.spec_balance_items(*effects))
                },
                Err(e) => self.spec_changed_records(
                    tx.sender,
                    effects.changed_objects@,
                    effects.modified_at_versions@,
                ) == Err::<Seq<ObjectChange>, IndexerError>(e) || (self.spec_changed_records(
                    tx.sender,
                    effects.changed_objects@,
                    effects.modified_at_versions@,
                ) is Ok && !(self.balances_resolvable(*effects) && items_in_range(
                    self.spec_balance_items(*effects),
                ))),
            },
    {
        let object_changes = match self.object_changes(tx.sender, effects) {
            Ok(v) => v,
            Err(e) => {
                return Err(e);
            },
        };
        let balance_changes = match self.balance_changes(effects) {
            Ok(v) => v,
            Err(e) => {
                return Err(e);
            },
        };
        Ok((balance_changes, object_changes))
    }
}

/// Folds one balance item into the accumulated rows: the row for its key
/// gains the delta, a first-seen key opens a new row. A sum that would
/// leave machine range is refused and nothing changes.
#[verifier::loop_isolation(false)]
fn merge_delta(
    acc: &mut Vec<BalanceChange>,
    owner: Owner,
    coin_type: u64,
    delta: i128,
    Ghost(items): Ghost<Seq<BalanceItem>>,
) -> (ok: bool)
    requires
        models_items(old(acc)@, items),
        -(u64::MAX as int) <= delta as int <= u64::MAX as int,
    ensures
        ok ==> models_items(final(acc)@, items.push((owner, coin_type, delta as int))),
        !ok ==> !(i128::MIN <= net_items(items, owner, coin_type) + delta as int <= i128::MAX)
            && final(acc)@ == old(acc)@,
{
    let ghost ks = dedup_keys(items_keys(items));
    let ghost new_items = items.push((owner, coin_type, delta as int));
    proof {
        lemma_dedup_keys(items_keys(items));
        assert(items_keys(new_items) =~= items_keys(items).push((owner, coin_type)));
        assert(items_keys(items).push((owner, coin_type)).drop_last() =~= items_keys(items));
        assert(new_items.drop_last() =~= items);
        assert(new_items.last() == (owner, coin_type, delta as int));
    }
    let mut found: bool = false;
    let mut at: usize = 0;
    let mut m: usize = 0;
    while m < acc.len()
        invariant
            m <= acc.len(),
            !found ==> forall|t: int|
                0 <= t < m ==> !(acc@[t].owner == owner && acc@[t].coin_type == coin_type),
            found ==> at < m <= acc.len() && acc@[at as int].owner == owner
                && acc@[at as int].coin_type == coin_type,
        decreases acc.len() - m,
    {
        if !found && owner_eq(&acc[m].owner, &owner) && acc[m].coin_type == coin_type {
            found = true;
            at = m;
        }
        m = m + 1;
    }
    if found {
        let current: i128 = acc[at].amount;
        proof {
            assert(ks[at as int] == (owner, coin_type));
            assert(current as int == net_items(items, owner, coin_type));
            assert(dedup_keys(items_keys(new_items)) == ks) by {
                assert(ks[at as int] == (owner, coin_type));
                assert(ks.contains((owner, coin_type)));
            }
        }
        if (delta >= 0 && current > i128::MAX - delta) || (delta < 0 && current < i128::MIN
            - delta) {
            return false;
        }
        acc[at] = BalanceChange { owner, coin_type, amount: current + delta };
        proof {
            assert forall|m2: int| 0 <= m2 < acc@.len() implies (acc@[m2].owner,
            acc@[m2].coin_type) == ks[m2] && acc@[m2].amount as int == net_items(
                new_items,
                ks[m2].0,
                ks[m2].1,
            ) by {
                if m2 == at as int {
                    assert(net_items(new_items, owner, coin_type) == net_items(
                        items,
                        owner,
                        coin_type,
                    ) + delta as int);
                } else {
                    assert(ks[m2] != ks[at as int]);
                    assert(net_items(new_items, ks[m2].0, ks[m2].1) == net_items(
                        items,
                        ks[m2].0,
                        ks[m2].1,
                    ));
                }
            }
        }
        true
    } else {
        proof {
            assert(!ks.contains((owner, coin_type))) by {
                if ks.contains((owner, coin_type)) {
                    let w = choose|w: int| 0 <= w < ks.len() && ks[w] == (owner, coin_type);
                    assert(acc@[w].owner == owner && acc@[w].coin_type == coin_type);
                }
            }
            assert(!items_keys(items).contains((owner, coin_type)));
            lemma_net_absent(items, owner, coin_type);
            assert(dedup_keys(items_keys(new_items)) == ks.push((owner, coin_type)));
        }
        acc.push(BalanceChange { owner, coin_type, amount: delta });
        proof {
            let ks2 = ks.push((owner, coin_type));
            assert forall|m2: int| 0 <= m2 < acc@.len() implies (acc@[m2].owner,
            acc@[m2].coin_type) == ks2[m2] && acc@[m2].amount as int == net_items(
                new_items,
                ks2[m2].0,
                ks2[m2].1,
            ) by {
                if m2 == acc@.len() - 1 {
                    assert(net_items(new_items, owner, coin_type) == 0 + delta as int);
                } else {
                    assert(ks2[m2] == ks[m2]);
                    assert(ks[m2] != (owner, coin_type)) by {
                        assert(ks.contains(ks[m2])) by {
                            assert(0 <= m2 < ks.len());
                        }
                    }
                    assert(net_items(new_items, ks[m2].0, ks[m2].1) == net_items(
                        items,
                        ks[m2].0,
                        ks[m2].1,
                    ));
                }
            }
        }
        true
    }
}

/// Whether two owners are the same.
pub fn owner_eq(a: &crate::types::Owner, b: &crate::types::Owner) -> (r: bool)
    ensures
        r == (a == b),
{
    match (a, b) {
        (crate::types::Owner::AddressOwner(x), crate::types::Owner::AddressOwner(y)) => x == y,
        (crate::types::Owner::ObjectOwner(x), crate::types::Owner::ObjectOwner(y)) => x == y,
        (crate::types::Owner::Shared, crate::types::Owner::Shared) => true,
        (crate::types::Owner::Immutable, crate::types::Owner::Immutable) => true,
        _ => false,
    }
}

/// First recorded prior version for an identifier.
#[verifier::loop_isolation(false)]
pub fn find_first_modified(modified: &Vec<(u64, u64)>, id: u64) -> (r: Option<u64>)
    ensures
        r == first_modified(modified@, id),
{
    let mut i: usize = 0;
    proof {
        assert(modified@.subrange(0, modified@.len() as int) =~= modified@);
    }
    while i < modified.len()
        invariant
            i <= modified.len(),
            first_modified(modified@, id) == first_modified(
                modified@.subrange(i as int, modified@.len() as int),
                id,
            ),
            forall|j: int| 0 <= j < i ==> modified@[j].0 != id,
        decreases modified.len() - i,
    {
        proof {
            assert(modified@.subrange(i as int, modified@.len() as int)[0] == modified@[i as int]);
            assert(modified@.subrange(i as int, modified@.len() as int).subrange(
                1,
                modified@.subrange(i as int, modified@.len() as int).len() as int,
            ) =~= modified@.subrange(i + 1, modified@.len() as int));
        }
        if modified[i].0 == id {
            return Some(modified[i].1);
        }
        i = i + 1;
    }
    proof {
        assert(modified@.subrange(i as int, modified@.len() as int).len() == 0);
    }
    None
}

/// Appends one deletion record per reference, in order.
#[verifier::loop_isolation(false)]
pub fn append_deleted(out: &mut Vec<ObjectChange>, sender: u64, refs: &Vec<ObjRef>)
    ensures
        final(out)@ == old(out)@ + deleted_records(sender, refs@),
{
    let mut i: usize = 0;
    proof {
        assert(old(out)@ + deleted_records(sender, refs@.subrange(0, 0)) =~= old(out)@);
    }
    while i < refs.len()
        invariant
            i <= refs.len(),
            out@ == old(out)@ + deleted_records(sender, refs@.subrange(0, i as int)),
        decreases refs.len() - i,
    {
        let rf: ObjRef = refs[i];
        out.push(ObjectChange::Deleted { sender, object_id: rf.id, version: rf.version });
        i = i + 1;
        proof {
            assert(refs@.subrange(0, i as int).drop_last() =~= refs@.subrange(0, i - 1));
            assert(refs@.subrange(0, i as int).last() == refs@[i - 1]);
            assert(out@ =~= old(out)@ + deleted_records(sender, refs@.subrange(0, i as int)));
        }
    }
    proof {
        assert(refs@.subrange(0, refs@.len() as int) =~= refs@);
    }
}

/// Appends one wrap record per reference, in order.
#[verifier::loop_isolation(false)]
pub fn append_wrapped(out: &mut Vec<ObjectChange>, sender: u64, refs: &Vec<ObjRef>)
    ensures
        final(out)@ == old(out)@ + wrapped_records(sender, refs@),
{
    let mut i: usize = 0;
    proof {
        assert(old(out)@ + wrapped_records(sender, refs@.subrange(0, 0)) =~= old(out)@);
    }
    while i < refs.len()
        invariant
            i <= refs.len(),
            out@ == old(out)@ + wrapped_records(sender, refs@.subrange(0, i as int)),
        decreases refs.len() - i,
    {
        let rf: ObjRef = refs[i];
        out.push(ObjectChange::Wrapped { sender, object_id: rf.id, version: rf.version });
        i = i + 1;
        proof {
            assert(refs@.subrange(0, i as int).drop_last() =~= refs@.subrange(0, i - 1));
            assert(refs@.subrange(0, i as int).last() == refs@[i - 1]);
            assert(out@ =~= old(out)@ + wrapped_records(sender, refs@.subrange(0, i as int)));
        }
    }
    proof {
        assert(refs@.subrange(0, refs@.len() as int) =~= refs@);
    }
}

/// Two processors over the same cache contents, store and remote objects
/// resolve and derive identically: the derivations read nothing else.
pub proof fn lemma_processor_agreement(p1: TxChangesProcessor, p2: TxChangesProcessor)
    requires
        p1.object_cache.objects() == p2.object_cache.objects(),
        *p1.store == *p2.store,
        p1.remote@ == p2.remote@,
    ensures
        forall|id: u64, version: u64|
            #[trigger] p1.spec_get_object(id, version) == p2.spec_get_object(id, version),
        forall|id: u64, version: u64|
            #[trigger] p1.spec_find_le(id, version) == p2.spec_find_le(id, version),
        forall|sender: u64, cs: Seq<ChangedObject>, ms: Seq<(u64, u64)>|
            #[trigger] p1.spec_changed_records(sender, cs, ms) == p2.spec_changed_records(
                sender,
                cs,
                ms,
            ),
        forall|fx: TransactionEffects|
            #[trigger] p1.spec_balance_items(fx) == p2.spec_balance_items(fx),
        forall|fx: TransactionEffects|
            #[trigger] p1.balances_resolvable(fx) == p2.balances_resolvable(fx),
{
    assert forall|sender: u64, cs: Seq<ChangedObject>, ms: Seq<(u64, u64)>|
        #[trigger] p1.spec_changed_records(sender, cs, ms) == p2.spec_changed_records(
        sender,
        cs,
        ms,
    ) by {
        lemma_changed_records_agree(p1, p2, sender, cs, ms);
    }
    assert forall|fx: TransactionEffects|
        #[trigger] p1.spec_balance_items(fx) == p2.spec_balance_items(fx) by {
        lemma_minus_items_agree(p1, p2, fx.modified_at_versions@);
        lemma_plus_items_agree(p1, p2, fx.changed_objects@);
    }
    assert forall|fx: TransactionEffects|
        #[trigger] p1.balances_resolvable(fx) == p2.balances_resolvable(fx) by {
        let ms = fx.modified_at_versions@;
        let cs = fx.changed_objects@;
        if p1.balances_resolvable(fx) {
            assert forall|i: int| 0 <= i < ms.len() implies #[trigger] p2.spec_find_le(
                ms[i].0,
                ms[i].1,
            ) is Ok by {
                assert(p1.spec_find_le(ms[i].0, ms[i].1) is Ok);
            }
            assert forall|i: int| 0 <= i < cs.len() implies #[trigger] p2.spec_get_object(
                cs[i].oref.id,
                cs[i].oref.version,
            ) is Some by {
                assert(p1.spec_get_object(cs[i].oref.id, cs[i].oref.version) is Some);
            }
        }
        if p2.balances_resolvable(fx) {
            assert forall|i: int| 0 <= i < ms.len() implies #[trigger] p1.spec_find_le(
                ms[i].0,
                ms[i].1,
            ) is Ok by {
                assert(p2.spec_find_le(ms[i].0, ms[i].1) is Ok);
            }
            assert forall|i: int| 0 <= i < cs.len() implies #[trigger] p1.spec_get_object(
                cs[i].oref.id,
                cs[i].oref.version,
            ) is Some by {
                assert(p2.spec_get_object(cs[i].oref.id, cs[i].oref.version) is Some);
            }
        }
    }
}

/// Helper: the typed records agree item by item.
proof fn lemma_changed_records_agree(
    p1: TxChangesProcessor,
    p2: TxChangesProcessor,
    sender: u64,
    cs: Seq<ChangedObject>,
    ms: Seq<(u64, u64)>,
)
    requires
        p1.object_cache.objects() == p2.object_cache.objects(),
        *p1.store == *p2.store,
        p1.remote@ == p2.remote@,
    ensures
        p1.spec_changed_records(sender, cs, ms) == p2.spec_changed_records(sender, cs, ms),
    decreases cs.len(),
{
    if cs.len() > 0 {
        lemma_changed_records_agree(p1, p2, sender, cs.drop_last(), ms);
    }
}

/// Helper: the charge items agree entry by entry.
proof fn lemma_minus_items_agree(
    p1: TxChangesProcessor,
    p2: TxChangesProcessor,
    ms: Seq<(u64, u64)>,
)
    requires
        p1.object_cache.objects() == p2.object_cache.objects(),
        *p1.store == *p2.store,
        p1.remote@ == p2.remote@,
    ensures
        p1.spec_minus_items(ms) == p2.spec_minus_items(ms),
    decreases ms.len(),
{
    if ms.len() > 0 {
        lemma_minus_items_agree(p1, p2, ms.drop_last());
    }
}

/// Helper: the credit items agree entry by entry.
proof fn lemma_plus_items_agree(
    p1: TxChangesProcessor,
    p2: TxChangesProcessor,
    cs: Seq<ChangedObject>,
)
    requires
        p1.object_cache.objects() == p2.object_cache.objects(),
        *p1.store == *p2.store,
        p1.remote@ == p2.remote@,
    ensures
        p1.spec_plus_items(cs) == p2.spec_plus_items(cs),
    decreases cs.len(),
{
    if cs.len() > 0 {
        lemma_plus_items_agree(p1, p2, cs.drop_last());
    }
}

} // verus!
