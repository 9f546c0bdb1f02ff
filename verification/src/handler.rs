//! Checkpoint indexing: the per-checkpoint orchestrator.
//!
//! For each checkpoint this module assigns globally monotone transaction
//! sequence numbers, derives the row sets of every table, reduces the
//! checkpoint's object snapshots to one latest version per identifier,
//! lets deletions supersede mutations, derives dynamic-field metadata, and
//! computes epoch boundary records.

use vstd::prelude::*;

use crate::changes::TxChangesProcessor;
use crate::store::{
    InterimModuleResolver, TemporaryCheckpointStoreV2, TemporaryEpochStoreV2,
    TransactionObjectChangesV2,
};
use crate::types::{
    copy_effects, copy_object, copy_transaction_data, copy_vec, effects_eq, obj_eq, tx_data_eq,
    ChangedObject, CheckpointData, CheckpointTransaction, DynamicFieldInfo, DynamicFieldType,
    EndOfEpochInfo, EpochEventPayload, Event, IndexedCheckpoint, IndexedEndOfEpochInfo,
    IndexedEpochInfo, IndexedEvent, IndexedPackage, IndexedTransaction, IndexerError, MoveModule,
    ObjRef, Object, ObjectData, Owner, SystemStateSummary, TransactionEffects, TransactionKind,
    TxIndex, SUI_SYSTEM_STATE_OBJECT_ID,
};

verus! {

/// All references a transaction's effects removed: deletions, wraps, and
/// unwrapped-then-deleted removals, in that order.
pub open spec fn spec_deleted_objects(fx: TransactionEffects) -> Seq<ObjRef> {
    fx.deleted@ + fx.wrapped@ + fx.unwrapped_then_deleted@
}

/// Collects the references a transaction's effects removed.
#[verifier::loop_isolation(false)]
pub fn get_deleted_objects(effects: &TransactionEffects) -> (r: Vec<ObjRef>)
    ensures
        r@ == spec_deleted_objects(*effects),
{
    let mut r = copy_vec(&effects.deleted);
    let mut i: usize = 0;
    while i < effects.wrapped.len()
        invariant
            i <= effects.wrapped.len(),
            r@ == effects.deleted@ + effects.wrapped@.subrange(0, i as int),
        decreases effects.wrapped.len() - i,
    {
        r.push(effects.wrapped[i]);
        i = i + 1;
        proof {
            assert(r@ =~= effects.deleted@ + effects.wrapped@.subrange(0, i as int));
        }
    }
    proof {
        assert(effects.wrapped@.subrange(0, effects.wrapped@.len() as int) =~= effects.wrapped@);
        assert(r@ =~= effects.deleted@ + effects.wrapped@);
    }
    let mut j: usize = 0;
    while j < effects.unwrapped_then_deleted.len()
        invariant
            j <= effects.unwrapped_then_deleted.len(),
            r@ == effects.deleted@ + effects.wrapped@ + effects.unwrapped_then_deleted@.subrange(
                0,
                j as int,
            ),
        decreases effects.unwrapped_then_deleted.len() - j,
    {
        r.push(effects.unwrapped_then_deleted[j]);
        j = j + 1;
        proof {
            assert(r@ =~= effects.deleted@ + effects.wrapped@
                + effects.unwrapped_then_deleted@.subrange(0, j as int));
        }
    }
    proof {
        assert(effects.unwrapped_then_deleted@.subrange(
            0,
            effects.unwrapped_then_deleted@.len() as int,
        ) =~= effects.unwrapped_then_deleted@);
        assert(r@ =~= effects.deleted@ + effects.wrapped@ + Seq::<ObjRef>::empty()
            + effects.unwrapped_then_deleted@);
        assert(effects.deleted@ + effects.wrapped@ + Seq::<ObjRef>::empty()
            =~= effects.deleted@ + effects.wrapped@);
    }
    r
}

/// The identifiers of a list of snapshots, in order.
pub open spec fn ids_of(s: Seq<Object>) -> Seq<u64> {
    s.map(|i: int, o: Object| o.id)
}

/// Greatest version among an identifier's snapshots; zero when there is
/// none.
pub open spec fn max_version_of(s: Seq<Object>, id: u64) -> u64
    decreases s.len(),
{
    if s.len() == 0 {
        0u64
    } else {
        let rest = max_version_of(s.drop_last(), id);
        if s.last().id == id && s.last().version > rest {
            s.last().version
        } else {
            rest
        }
    }
}

/// First snapshot with the given identifier and version.
pub open spec fn first_at(s: Seq<Object>, id: u64, version: u64) -> Option<Object>
    decreases s.len(),
{
    if s.len() == 0 {
        None
    } else if s[0].id == id && s[0].version == version {
        Some(s[0])
    } else {
        first_at(s.subrange(1, s.len() as int), id, version)
    }
}

/// The superseded identifier-and-version pairs of a list of snapshots:
/// every snapshot below its identifier's greatest version, in order.
pub open spec fn spec_discarded(full: Seq<Object>, s: Seq<Object>) -> Seq<(u64, u64)>
    decreases s.len(),
{
    if s.len() == 0 {
        Seq::empty()
    } else {
        let rest = spec_discarded(full, s.drop_last());
        if s.last().version < max_version_of(full, s.last().id) {
            rest.push((s.last().id, s.last().version))
        } else {
            rest
        }
    }
}

/// Greatest version among an identifier's snapshots, computed.
#[verifier::loop_isolation(false)]
pub fn max_version_in(objects: &Vec<Object>, id: u64) -> (r: u64)
    ensures
        r == max_version_of(objects@, id),
{
    let mut best: u64 = 0;
    let mut i: usize = 0;
    proof {
        assert(objects@.subrange(0, 0) =~= Seq::<Object>::empty());
    }
    while i < objects.len()
        invariant
            i <= objects.len(),
            best == max_version_of(objects@.subrange(0, i as int), id),
        decreases objects.len() - i,
    {
        proof {
            assert(objects@.subrange(0, i + 1).drop_last() =~= objects@.subrange(0, i as int));
            assert(objects@.subrange(0, i + 1).last() == objects@[i as int]);
        }
        if objects[i].id == id && objects[i].version > best {
            best = objects[i].version;
        }
        i = i + 1;
    }
    proof {
        assert(objects@.subrange(0, objects@.len() as int) =~= objects@);
    }
    best
}

/// First snapshot with the given identifier and version, borrowed.
#[verifier::loop_isolation(false)]
pub fn find_first_at(objects: &Vec<Object>, id: u64, version: u64) -> (r: Option<&Object>)
    ensures
        match r {
            Some(o) => first_at(objects@, id, version) == Some(*o),
            None => first_at(objects@, id, version) is None,
        },
{
    let mut i: usize = 0;
    proof {
        assert(objects@.subrange(0, objects@.len() as int) =~= objects@);
    }
    while i < objects.len()
        invariant
            i <= objects.len(),
            first_at(objects@, id, version) == first_at(
                objects@.subrange(i as int, objects@.len() as int),
                id,
                version,
            ),
        decreases objects.len() - i,
    {
        proof {
            assert(objects@.subrange(i as int, objects@.len() as int)[0] == objects@[i as int]);
            assert(objects@.subrange(i as int, objects@.len() as int).subrange(
                1,
                objects@.subrange(i as int, objects@.len() as int).len() as int,
            ) =~= objects@.subrange(i + 1, objects@.len() as int));
        }
        if objects[i].id == id && objects[i].version == version {
            return Some(&objects[i]);
        }
        i = i + 1;
    }
    proof {
        assert(objects@.subrange(i as int, objects@.len() as int).len() == 0);
    }
    None
}

/// Reduces a checkpoint's snapshots to one snapshot per identifier — the
/// first snapshot at the identifier's greatest version, identifiers in
/// first-seen order — and collects the superseded pairs, in order.
#[verifier::loop_isolation(false)]
pub fn get_latest_objects(objects: &Vec<Object>) -> (r: (Vec<Object>, Vec<(u64, u64)>))
    ensures
        ids_of(r.0@) == crate::types::dedup_first(ids_of(objects@)),
        forall|i: int|
            0 <= i < r.0@.len() ==> r.0@[i].version == max_version_of(objects@, r.0@[i].id)
                && (first_at(objects@, r.0@[i].id, r.0@[i].version) matches Some(src)
                && obj_eq(r.0@[i], src)),
        r.1@ == spec_discarded(objects@, objects@),
{
    let mut latest: Vec<Object> = Vec::new();
    let mut discarded: Vec<(u64, u64)> = Vec::new();
    let mut i: usize = 0;
    proof {
        assert(ids_of(objects@.subrange(0, 0)) =~= Seq::<u64>::empty());
        assert(ids_of(latest@) =~= Seq::<u64>::empty());
        assert(objects@.subrange(0, 0) =~= Seq::<Object>::empty());
    }
    while i < objects.len()
        invariant
            i <= objects.len(),
            ids_of(latest@) == crate::types::dedup_first(ids_of(objects@.subrange(0, i as int))),
            forall|m: int|
                0 <= m < latest@.len() ==> latest@[m].version == max_version_of(
                    objects@,
                    latest@[m].id,
                ) && (first_at(objects@, latest@[m].id, latest@[m].version) matches Some(src)
                    && obj_eq(latest@[m], src)),
            discarded@ == spec_discarded(objects@, objects@.subrange(0, i as int)),
        decreases objects.len() - i,
    {
        let id: u64 = objects[i].id;
        proof {
            assert(objects@.subrange(0, i + 1).drop_last() =~= objects@.subrange(0, i as int));
            assert(objects@.subrange(0, i + 1).last() == objects@[i as int]);
            assert(ids_of(objects@.subrange(0, i + 1)) =~= ids_of(
                objects@.subrange(0, i as int),
            ).push(id));
            assert(ids_of(objects@.subrange(0, i as int)).push(id).drop_last() =~= ids_of(
                objects@.subrange(0, i as int),
            ));
        }
        let max_v = max_version_in(objects, id);
        if objects[i].version < max_v {
            discarded.push((id, objects[i].version));
        }
        let mut seen: bool = false;
        let mut m: usize = 0;
        while m < latest.len()
            invariant
                m <= latest.len(),
                seen == exists|t: int| 0 <= t < m && latest@[t].id == id,
            decreases latest.len() - m,
        {
            if latest[m].id == id {
                seen = true;
            }
            m = m + 1;
        }
        proof {
            assert(seen == ids_of(latest@).contains(id)) by {
                if seen {
                    let t = choose|t: int| 0 <= t < latest@.len() && latest@[t].id == id;
                    assert(ids_of(latest@)[t] == id);
                }
                if ids_of(latest@).contains(id) {
                    let t = choose|t: int| 0 <= t < ids_of(latest@).len() && ids_of(latest@)[t]
                        == id;
                    assert(latest@[t].id == id);
                }
            }
        }
        if !seen {
            match find_first_at(objects, id, max_v) {
                Some(src) => {
                    let ghost pre = latest@;
                    let cp = copy_object(src);
                    proof {
                        lemma_first_at_fields(objects@, id, max_v);
                        assert(cp.id == id && cp.version == max_v);
                    }
                    latest.push(cp);
                    proof {
                        assert(ids_of(latest@) =~= ids_of(pre).push(id));
                    }
                },
                None => {
                    proof {
                        lemma_max_version_present(objects@, id, i as int);
                        assert(false);
                    }
                },
            }
        }
        i = i + 1;
    }
    proof {
        assert(objects@.subrange(0, objects@.len() as int) =~= objects@);
    }
    (latest, discarded)
}

/// An identifier that occurs has a snapshot at its greatest version.
pub proof fn lemma_max_version_present(s: Seq<Object>, id: u64, witness: int)
    requires
        0 <= witness < s.len(),
        s[witness].id == id,
    ensures
        first_at(s, id, max_version_of(s, id)) is Some,
{
    lemma_max_version_has_snapshot(s, id, witness);
    let v = max_version_of(s, id);
    let w = choose|w: int| 0 <= w < s.len() && s[w].id == id && s[w].version == v;
    lemma_first_at_exists(s, id, v, w);
}

/// Some snapshot attains the greatest version.
proof fn lemma_max_version_has_snapshot(s: Seq<Object>, id: u64, witness: int)
    requires
        0 <= witness < s.len(),
        s[witness].id == id,
    ensures
        exists|w: int|
            0 <= w < s.len() && s[w].id == id && s[w].version == max_version_of(s, id),
    decreases s.len(),
{
    if s.len() > 0 {
        let rest = max_version_of(s.drop_last(), id);
        if s.last().id == id && s.last().version > rest {
            assert(s[s.len() - 1].version == max_version_of(s, id));
        } else {
            if witness < s.len() - 1 {
                lemma_max_version_has_snapshot(s.drop_last(), id, witness);
                let w = choose|w: int|
                    0 <= w < s.drop_last().len() && s.drop_last()[w].id == id
                        && s.drop_last()[w].version == rest;
                assert(s[w].id == id && s[w].version == max_version_of(s, id));
            } else {
                // the last element is this id but not above the rest's greatest,
                // so the rest also holds the id
                assert(s.last().id == id);
                assert(s.last().version <= rest);
                lemma_max_lower_bound(s.drop_last(), id);
                if rest == 0 && s.last().version == 0 {
                    assert(s[s.len() - 1].version == max_version_of(s, id));
                } else {
                    assert(exists|w0: int|
                        0 <= w0 < s.drop_last().len() && s.drop_last()[w0].id == id
                            && s.drop_last()[w0].version == rest) by {
                        lemma_max_attained(s.drop_last(), id);
                    }
                    let w = choose|w: int|
                        0 <= w < s.drop_last().len() && s.drop_last()[w].id == id
                            && s.drop_last()[w].version == rest;
                    assert(s[w].id == id && s[w].version == max_version_of(s, id));
                }
            }
        }
    }
}

/// A positive greatest version is attained by a snapshot.
proof fn lemma_max_attained(s: Seq<Object>, id: u64)
    requires
        max_version_of(s, id) > 0,
    ensures
        exists|w: int|
            0 <= w < s.len() && s[w].id == id && s[w].version == max_version_of(s, id),
    decreases s.len(),
{
    let rest = max_version_of(s.drop_last(), id);
    if s.last().id == id && s.last().version > rest {
        assert(s[s.len() - 1].version == max_version_of(s, id));
    } else {
        lemma_max_attained(s.drop_last(), id);
        let w = choose|w: int|
            0 <= w < s.drop_last().len() && s.drop_last()[w].id == id && s.drop_last()[w].version
                == rest;
        assert(s[w].id == id && s[w].version == max_version_of(s, id));
    }
}

/// Every snapshot of an identifier sits at or below the greatest version.
proof fn lemma_max_lower_bound(s: Seq<Object>, id: u64)
    ensures
        forall|i: int| 0 <= i < s.len() && s[i].id == id ==> s[i].version <= max_version_of(s, id),
    decreases s.len(),
{
    if s.len() > 0 {
        lemma_max_lower_bound(s.drop_last(), id);
        assert forall|i: int| 0 <= i < s.len() && s[i].id == id implies s[i].version
            <= max_version_of(s, id) by {
            if i < s.len() - 1 {
                assert(s.drop_last()[i] == s[i]);
            }
        }
    }
}

/// A found first snapshot carries the identifier and version it was
/// sought by.
pub proof fn lemma_first_at_fields(s: Seq<Object>, id: u64, version: u64)
    ensures
        first_at(s, id, version) matches Some(o) ==> o.id == id && o.version == version,
    decreases s.len(),
{
    if s.len() > 0 {
        if !(s[0].id == id && s[0].version == version) {
            lemma_first_at_fields(s.subrange(1, s.len() as int), id, version);
        }
    }
}

/// A matching snapshot at some index means the first-match search finds
/// one.
proof fn lemma_first_at_exists(s: Seq<Object>, id: u64, version: u64, witness: int)
    requires
        0 <= witness < s.len(),
        s[witness].id == id,
        s[witness].version == version,
    ensures
        first_at(s, id, version) is Some,
    decreases s.len(),
{
    if s[0].id == id && s[0].version == version {
    } else {
        assert(witness > 0);
        assert(s.subrange(1, s.len() as int)[witness - 1] == s[witness]);
        lemma_first_at_exists(s.subrange(1, s.len() as int), id, version, witness - 1);
    }
}

/// The modules of the snapshots whose payload is package bytecode, each
/// with its package identifier, in order.
pub open spec fn spec_packages(s: Seq<Object>) -> Seq<(u64, Seq<MoveModule>)>
    decreases s.len(),
{
    if s.len() == 0 {
        Seq::empty()
    } else {
        let rest = spec_packages(s.drop_last());
        match s.last().data {
            ObjectData::PackageData(p) => rest.push((s.last().id, p.modules@)),
            ObjectData::MoveData(_) => rest,
        }
    }
}

/// Extracts one package row per package snapshot of the checkpoint.
#[verifier::loop_isolation(false)]
pub fn index_packages(checkpoint_data: &CheckpointData) -> (r: Vec<IndexedPackage>)
    ensures
        r@.len() == spec_packages(checkpoint_data.objects@).len(),
        forall|i: int|
            0 <= i < r@.len() ==> r@[i].package_id == spec_packages(
                checkpoint_data.objects@,
            )[i].0 && r@[i].move_package.modules@ == spec_packages(
                checkpoint_data.objects@,
            )[i].1,
{
    let objects = &checkpoint_data.objects;
    let mut r: Vec<IndexedPackage> = Vec::new();
    let mut i: usize = 0;
    proof {
        assert(objects@.subrange(0, 0) =~= Seq::<Object>::empty());
    }
    while i < objects.len()
        invariant
            i <= objects.len(),
            r@.len() == spec_packages(objects@.subrange(0, i as int)).len(),
            forall|m: int|
                0 <= m < r@.len() ==> r@[m].package_id == spec_packages(
                    objects@.subrange(0, i as int),
                )[m].0 && r@[m].move_package.modules@ == spec_packages(
                    objects@.subrange(0, i as int),
                )[m].1,
        decreases objects.len() - i,
    {
        let ghost pre = objects@.subrange(0, i as int);
        proof {
            assert(objects@.subrange(0, i + 1).drop_last() =~= pre);
            assert(objects@.subrange(0, i + 1).last() == objects@[i as int]);
        }
        match &objects[i].data {
            ObjectData::PackageData(p) => {
                let modules = copy_vec(&p.modules);
                r.push(
                    IndexedPackage {
                        package_id: objects[i].id,
                        move_package: crate::types::MovePackage { modules },
                    },
                );
            },
            ObjectData::MoveData(_) => {},
        }
        i = i + 1;
    }
    proof {
        assert(objects@.subrange(0, objects@.len() as int) =~= objects@);
    }
    r
}

/// What the dynamic-field derivation yields for one retained object: no
/// metadata for a package or an ordinary Move object; for a wrapper, the
/// parsed field content, with the pointed-at object's coordinates for a
/// dynamic object (its absence from the written set is fatal) and the
/// wrapper's own coordinates for an inline field. A wrapper whose content
/// did not parse, or whose pointed-at object is a package, is malformed;
/// a wrapper whose name type's module cannot be resolved fails
/// resolution.
pub open spec fn spec_df_info(
    o: Object,
    written: Seq<Object>,
    cache_mods: Seq<(u64, MoveModule)>,
    backup: Seq<IndexedPackage>,
) -> Result<Option<DynamicFieldInfo>, IndexerError> {
    match o.data {
        ObjectData::PackageData(_) => Ok(None),
        ObjectData::MoveData(m) => {
            if !m.type_.spec_is_dynamic_field() {
                Ok(None)
            } else {
                match m.field {
                    None => Err(IndexerError::DataTransformation),
                    Some(f) => {
                        if resolve_two_tier(
                            cache_mods,
                            backup,
                            f.name_type.package,
                            f.name_type.module,
                        ) is None {
                            Err(IndexerError::ModuleResolution)
                        } else {
                            match f.kind {
                                DynamicFieldType::DynamicField => Ok(
                                    Some(
                                        DynamicFieldInfo {
                                            kind: f.kind,
                                            name_type: f.name_type,
                                            bcs_name: f.bcs_name,
                                            object_type: f.value_type,
                                            object_id: o.id,
                                            version: o.version,
                                            digest: o.digest,
                                        },
                                    ),
                                ),
                                DynamicFieldType::DynamicObject => {
                                    match first_by_id(written, f.child_id) {
                                        None => Err(IndexerError::InvariantViolation),
                                        Some(child) => match child.spec_type_tag() {
                                            None => Err(IndexerError::DataTransformation),
                                            Some(t) => Ok(
                                                Some(
                                                    DynamicFieldInfo {
                                                        kind: f.kind,
                                                        name_type: f.name_type,
                                                        bcs_name: f.bcs_name,
                                                        object_type: t,
                                                        object_id: f.child_id,
                                                        version: child.version,
                                                        digest: child.digest,
                                                    },
                                                ),
                                            ),
                                        },
                                    }
                                },
                            }
                        }
                    },
                }
            }
        },
    }
}

/// Two-tier module resolution over the cache's modules and the durable
/// packages: the cache entry when one exists, else the most recently
/// stored durable module.
pub open spec fn resolve_two_tier(
    cache_mods: Seq<(u64, MoveModule)>,
    backup: Seq<IndexedPackage>,
    package: u64,
    name: u64,
) -> Option<MoveModule> {
    match crate::object_cache::last_module_match(cache_mods, package, name) {
        Some(m) => Some(m),
        None => crate::object_cache::last_module_match(
            crate::object_cache::packages_modules(backup),
            package,
            name,
        ),
    }
}

/// First snapshot with the given identifier.
pub open spec fn first_by_id(s: Seq<Object>, id: u64) -> Option<Object>
    decreases s.len(),
{
    if s.len() == 0 {
        None
    } else if s[0].id == id {
        Some(s[0])
    } else {
        first_by_id(s.subrange(1, s.len() as int), id)
    }
}

/// First snapshot with the given identifier, borrowed.
#[verifier::loop_isolation(false)]
pub fn find_first_by_id(objects: &Vec<Object>, id: u64) -> (r: Option<&Object>)
    ensures
        match r {
            Some(o) => first_by_id(objects@, id) == Some(*o),
            None => first_by_id(objects@, id) is None,
        },
{
    let mut i: usize = 0;
    proof {
        assert(objects@.subrange(0, objects@.len() as int) =~= objects@);
    }
    while i < objects.len()
        invariant
            i <= objects.len(),
            first_by_id(objects@, id) == first_by_id(
                objects@.subrange(i as int, objects@.len() as int),
                id,
            ),
        decreases objects.len() - i,
    {
        proof {
            assert(objects@.subrange(i as int, objects@.len() as int)[0] == objects@[i as int]);
            assert(objects@.subrange(i as int, objects@.len() as int).subrange(
                1,
                objects@.subrange(i as int, objects@.len() as int).len() as int,
            ) =~= objects@.subrange(i + 1, objects@.len() as int));
        }
        if objects[i].id == id {
            return Some(&objects[i]);
        }
        i = i + 1;
    }
    proof {
        assert(objects@.subrange(i as int, objects@.len() as int).len() == 0);
    }
    None
}

/// Derives the dynamic-field metadata of one retained object against the
/// checkpoint's written objects and the two-tier module resolver.
pub fn try_create_dynamic_field_info(
    o: &Object,
    written: &Vec<Object>,
    resolver: &InterimModuleResolver,
) -> (r: Result<Option<DynamicFieldInfo>, IndexerError>)
    ensures
        r == spec_df_info(
            *o,
            written@,
            resolver.object_cache.modules_view(),
            resolver.backup@,
        ),
{
    let m = match &o.data {
        ObjectData::PackageData(_) => {
            return Ok(None);
        },
        ObjectData::MoveData(m) => m,
    };
    if !m.type_.is_dynamic_field() {
        return Ok(None);
    }
    let f = match &m.field {
        None => {
            return Err(IndexerError::DataTransformation);
        },
        Some(f) => *f,
    };
    if resolver.get_module_by_id(f.name_type.package, f.name_type.module).is_none() {
        return Err(IndexerError::ModuleResolution);
    }
    match f.kind {
        DynamicFieldType::DynamicField => Ok(
            Some(
                DynamicFieldInfo {
                    kind: f.kind,
                    name_type: f.name_type,
                    bcs_name: f.bcs_name,
                    object_type: f.value_type,
                    object_id: o.id,
                    version: o.version,
                    digest: o.digest,
                },
            ),
        ),
        DynamicFieldType::DynamicObject => {
            match find_first_by_id(written, f.child_id) {
                None => Err(IndexerError::InvariantViolation),
                Some(child) => match child.type_tag() {
                    None => Err(IndexerError::DataTransformation),
                    Some(t) => Ok(
                        Some(
                            DynamicFieldInfo {
                                kind: f.kind,
                                name_type: f.name_type,
                                bcs_name: f.bcs_name,
                                object_type: t,
                                object_id: f.child_id,
                                version: child.version,
                                digest: child.digest,
                            },
                        ),
                    ),
                },
            }
        },
    }
}

/// The system-state summary read from the checkpoint's own object list:
/// the payload of the singleton system-state object, when present and
/// parsed.
pub open spec fn spec_system_state(objects: Seq<Object>) -> Option<SystemStateSummary> {
    match first_by_id(objects, SUI_SYSTEM_STATE_OBJECT_ID) {
        None => None,
        Some(o) => match o.data {
            ObjectData::MoveData(m) => m.system_state,
            ObjectData::PackageData(_) => None,
        },
    }
}

/// The events of one checkpoint transaction; none when the transaction
/// emitted none.
pub open spec fn events_of(t: CheckpointTransaction) -> Seq<Event> {
    match t.events {
        Some(v) => v@,
        None => Seq::empty(),
    }
}

/// First end-of-epoch payload among a list of events.
pub open spec fn first_payload_in(es: Seq<Event>) -> Option<EpochEventPayload>
    decreases es.len(),
{
    if es.len() == 0 {
        None
    } else if es[0].epoch_payload is Some {
        es[0].epoch_payload
    } else {
        first_payload_in(es.subrange(1, es.len() as int))
    }
}

/// First end-of-epoch payload among the checkpoint's transactions.
pub open spec fn first_epoch_payload(txs: Seq<CheckpointTransaction>) -> Option<EpochEventPayload>
    decreases txs.len(),
{
    if txs.len() == 0 {
        None
    } else if first_payload_in(events_of(txs[0])) is Some {
        first_payload_in(events_of(txs[0]))
    } else {
        first_epoch_payload(txs.subrange(1, txs.len() as int))
    }
}

/// The epoch row opened at genesis.
pub open spec fn spec_genesis_epoch_row(s: SystemStateSummary) -> IndexedEpochInfo {
    IndexedEpochInfo {
        epoch: 0,
        first_checkpoint_id: 0,
        epoch_start_timestamp: s.epoch_start_timestamp_ms,
        validator_count: s.validator_count,
        reference_gas_price: s.reference_gas_price,
        protocol_version: s.protocol_version,
        epoch_total_transactions: 0,
        end_of_epoch_info: None,
        end_of_epoch_data: None,
    }
}

/// The epoch records derived from one checkpoint. Checkpoint zero opens
/// epoch zero from the system state (its absence is malformed data). A
/// checkpoint without an end-of-epoch marker yields nothing. An
/// end-of-epoch checkpoint must carry the system event and a consistent
/// system state; it closes the ended epoch — its transaction total is the
/// network total minus the previous epoch's — and opens the next.
pub open spec fn spec_index_epoch(
    data: CheckpointData,
    store: crate::store::StoreState,
) -> Result<Option<TemporaryEpochStoreV2>, IndexerError> {
    let summary = data.checkpoint_summary;
    match spec_system_state(data.objects@) {
        None => if summary.sequence_number == 0 || summary.end_of_epoch_data is Some {
            Err(IndexerError::DataTransformation)
        } else {
            Ok(None)
        },
        Some(s) => {
            if summary.sequence_number == 0 {
                Ok(
                    Some(
                        TemporaryEpochStoreV2 {
                            last_epoch: None,
                            new_epoch: spec_genesis_epoch_row(s),
                        },
                    ),
                )
            } else if summary.end_of_epoch_data is None {
                Ok(None)
            } else {
                match first_epoch_payload(data.transactions@) {
                    None => Err(IndexerError::InvariantViolation),
                    Some(ev) => {
                        let prev_total = store.spec_network_total_before((s.epoch - 1) as u64);
                        if s.epoch == 0 || summary.sequence_number == u64::MAX || prev_total
                            > summary.network_total_transactions {
                            Err(IndexerError::InvariantViolation)
                        } else {
                            Ok(
                                Some(
                                    TemporaryEpochStoreV2 {
                                        last_epoch: Some(
                                            IndexedEndOfEpochInfo {
                                                epoch: (s.epoch - 1) as u64,
                                                end_of_epoch_info: EndOfEpochInfo {
                                                    last_checkpoint_id: summary.sequence_number,
                                                    epoch_end_timestamp: summary.timestamp_ms,
                                                    protocol_version: ev.protocol_version,
                                                    reference_gas_price: ev.reference_gas_price,
                                                    total_stake: ev.total_stake,
                                                    storage_fund_reinvestment:
                                                        ev.storage_fund_reinvestment,
                                                    storage_charge: ev.storage_charge,
                                                    storage_rebate: ev.storage_rebate,
                                                    leftover_storage_fund_inflow:
                                                        ev.leftover_storage_fund_inflow,
                                                    stake_subsidy_amount: ev.stake_subsidy_amount,
                                                    storage_fund_balance: ev.storage_fund_balance,
                                                    total_gas_fees: ev.total_gas_fees,
                                                    total_stake_rewards_distributed:
                                                        ev.total_stake_rewards_distributed,
                                                },
                                                end_of_epoch_data: summary.end_of_epoch_data,
                                                epoch_total_transactions: (
                                                summary.network_total_transactions
                                                    - prev_total) as u64,
                                            },
                                        ),
                                        new_epoch: IndexedEpochInfo {
                                            epoch: s.epoch,
                                            first_checkpoint_id: (summary.sequence_number
                                                + 1) as u64,
                                            epoch_start_timestamp: s.epoch_start_timestamp_ms,
                                            validator_count: s.validator_count,
                                            reference_gas_price: s.reference_gas_price,
                                            protocol_version: s.protocol_version,
                                            epoch_total_transactions: 0,
                                            end_of_epoch_info: None,
                                            end_of_epoch_data: None,
                                        },
                                    },
                                ),
                            )
                        }
                    },
                }
            }
        },
    }
}

/// First end-of-epoch payload among a list of events, computed.
#[verifier::loop_isolation(false)]
pub fn find_payload_in(events: &Vec<Event>) -> (r: Option<EpochEventPayload>)
    ensures
        r == first_payload_in(events@),
{
    let mut i: usize = 0;
    proof {
        assert(events@.subrange(0, events@.len() as int) =~= events@);
    }
    while i < events.len()
        invariant
            i <= events.len(),
            first_payload_in(events@) == first_payload_in(
                events@.subrange(i as int, events@.len() as int),
            ),
        decreases events.len() - i,
    {
        proof {
            assert(events@.subrange(i as int, events@.len() as int)[0] == events@[i as int]);
            assert(events@.subrange(i as int, events@.len() as int).subrange(
                1,
                events@.subrange(i as int, events@.len() as int).len() as int,
            ) =~= events@.subrange(i + 1, events@.len() as int));
        }
        if events[i].is_system_epoch_info_event() {
            return events[i].epoch_payload;
        }
        i = i + 1;
    }
    proof {
        assert(events@.subrange(i as int, events@.len() as int).len() == 0);
    }
    None
}

/// First end-of-epoch payload among the checkpoint's transactions,
/// computed.
#[verifier::loop_isolation(false)]
pub fn find_epoch_payload(txs: &Vec<CheckpointTransaction>) -> (r: Option<EpochEventPayload>)
    ensures
        r == first_epoch_payload(txs@),
{
    let mut i: usize = 0;
    proof {
        assert(txs@.subrange(0, txs@.len() as int) =~= txs@);
    }
    while i < txs.len()
        invariant
            i <= txs.len(),
            first_epoch_payload(txs@) == first_epoch_payload(
                txs@.subrange(i as int, txs@.len() as int),
            ),
        decreases txs.len() - i,
    {
        proof {
            assert(txs@.subrange(i as int, txs@.len() as int)[0] == txs@[i as int]);
            assert(txs@.subrange(i as int, txs@.len() as int).subrange(
                1,
                txs@.subrange(i as int, txs@.len() as int).len() as int,
            ) =~= txs@.subrange(i + 1, txs@.len() as int));
        }
        let found: Option<EpochEventPayload> = match &txs[i].events {
            Some(v) => find_payload_in(v),
            None => None,
        };
        match found {
            Some(p) => {
                return Some(p);
            },
            None => {},
        }
        i = i + 1;
    }
    proof {
        assert(txs@.subrange(i as int, txs@.len() as int).len() == 0);
    }
    None
}

/// Derives the epoch records of one checkpoint against the durable store.
pub fn index_epoch(data: &CheckpointData, store: &crate::store::StoreState) -> (r: Result<
    Option<TemporaryEpochStoreV2>,
    IndexerError,
>)
    ensures
        r == spec_index_epoch(*data, *store),
{
    let summary = data.checkpoint_summary;
    let ss: Option<SystemStateSummary> = match find_first_by_id(
        &data.objects,
        SUI_SYSTEM_STATE_OBJECT_ID,
    ) {
        None => None,
        Some(o) => match &o.data {
            ObjectData::MoveData(m) => m.system_state,
            ObjectData::PackageData(_) => None,
        },
    };
    let s = match ss {
        None => {
            if summary.sequence_number == 0 || summary.end_of_epoch_data.is_some() {
                return Err(IndexerError::DataTransformation);
            } else {
                return Ok(None);
            }
        },
        Some(s) => s,
    };
    if summary.sequence_number == 0 {
        return Ok(
            Some(
                TemporaryEpochStoreV2 {
                    last_epoch: None,
                    new_epoch: IndexedEpochInfo {
                        epoch: 0,
                        first_checkpoint_id: 0,
                        epoch_start_timestamp: s.epoch_start_timestamp_ms,
                        validator_count: s.validator_count,
                        reference_gas_price: s.reference_gas_price,
                        protocol_version: s.protocol_version,
                        epoch_total_transactions: 0,
                        end_of_epoch_info: None,
                        end_of_epoch_data: None,
                    },
                },
            ),
        );
    }
    if summary.end_of_epoch_data.is_none() {
        return Ok(None);
    }
    let ev = match find_epoch_payload(&data.transactions) {
        None => {
            return Err(IndexerError::InvariantViolation);
        },
        Some(ev) => ev,
    };
    if s.epoch == 0 || summary.sequence_number == u64::MAX {
        return Err(IndexerError::InvariantViolation);
    }
    let prev_total = store.get_network_total_transactions_previous_epoch(s.epoch - 1);
    if prev_total > summary.network_total_transactions {
        return Err(IndexerError::InvariantViolation);
    }
    Ok(
        Some(
            TemporaryEpochStoreV2 {
                last_epoch: Some(
                    IndexedEndOfEpochInfo {
                        epoch: s.epoch - 1,
                        end_of_epoch_info: EndOfEpochInfo {
                            last_checkpoint_id: summary.sequence_number,
                            epoch_end_timestamp: summary.timestamp_ms,
                            protocol_version: ev.protocol_version,
                            reference_gas_price: ev.reference_gas_price,
                            total_stake: ev.total_stake,
                            storage_fund_reinvestment: ev.storage_fund_reinvestment,
                            storage_charge: ev.storage_charge,
                            storage_rebate: ev.storage_rebate,
                            leftover_storage_fund_inflow: ev.leftover_storage_fund_inflow,
                            stake_subsidy_amount: ev.stake_subsidy_amount,
                            storage_fund_balance: ev.storage_fund_balance,
                            total_gas_fees: ev.total_gas_fees,
                            total_stake_rewards_distributed: ev.total_stake_rewards_distributed,
                        },
                        end_of_epoch_data: summary.end_of_epoch_data,
                        epoch_total_transactions: summary.network_total_transactions - prev_total,
                    },
                ),
                new_epoch: IndexedEpochInfo {
                    epoch: s.epoch,
                    first_checkpoint_id: summary.sequence_number + 1,
                    epoch_start_timestamp: s.epoch_start_timestamp_ms,
                    validator_count: s.validator_count,
                    reference_gas_price: s.reference_gas_price,
                    protocol_version: s.protocol_version,
                    epoch_total_transactions: 0,
                    end_of_epoch_info: None,
                    end_of_epoch_data: None,
                },
            },
        ),
    )
}

/// The canonical reduced snapshot list: one entry per identifier in
/// first-seen order, each the first snapshot at the identifier's greatest
/// version.
pub open spec fn latest_of(objects: Seq<Object>) -> Seq<Object> {
    crate::types::dedup_first(ids_of(objects)).map(
        |i: int, id: u64| first_at(objects, id, max_version_of(objects, id)).unwrap(),
    )
}

/// Elementwise value equality of two snapshot lists.
pub open spec fn objs_eq_seq(a: Seq<Object>, b: Seq<Object>) -> bool {
    a.len() == b.len() && forall|i: int| 0 <= i < a.len() ==> obj_eq(a[i], b[i])
}

/// Value equality of objects carries across a chain.
pub proof fn lemma_obj_eq_trans(a: Object, b: Object, c: Object)
    requires
        obj_eq(a, b),
        obj_eq(b, c),
    ensures
        obj_eq(a, c),
{
}

/// The search by identifier agrees on lists of equal values.
pub proof fn lemma_first_by_id_transfer(a: Seq<Object>, b: Seq<Object>, id: u64)
    requires
        objs_eq_seq(a, b),
    ensures
        first_by_id(a, id) is Some <==> first_by_id(b, id) is Some,
        first_by_id(a, id) matches Some(x) ==> (first_by_id(b, id) matches Some(y) && obj_eq(
            x,
            y,
        )),
    decreases a.len(),
{
    if a.len() > 0 {
        assert(obj_eq(a[0], b[0]));
        if a[0].id == id {
        } else {
            assert(objs_eq_seq(
                a.subrange(1, a.len() as int),
                b.subrange(1, b.len() as int),
            )) by {
                assert forall|i: int| 0 <= i < a.len() - 1 implies obj_eq(
                    a.subrange(1, a.len() as int)[i],
                    b.subrange(1, b.len() as int)[i],
                ) by {
                    assert(a.subrange(1, a.len() as int)[i] == a[i + 1]);
                    assert(b.subrange(1, b.len() as int)[i] == b[i + 1]);
                }
            }
            lemma_first_by_id_transfer(
                a.subrange(1, a.len() as int),
                b.subrange(1, b.len() as int),
                id,
            );
        }
    }
}

/// The dynamic-field derivation agrees on equal values: it reads only
/// what value equality preserves.
pub proof fn lemma_df_transfer(
    o1: Object,
    o2: Object,
    w1: Seq<Object>,
    w2: Seq<Object>,
    cache_mods: Seq<(u64, MoveModule)>,
    backup: Seq<IndexedPackage>,
)
    requires
        obj_eq(o1, o2),
        objs_eq_seq(w1, w2),
    ensures
        spec_df_info(o1, w1, cache_mods, backup) == spec_df_info(o2, w2, cache_mods, backup),
{
    match o1.data {
        ObjectData::PackageData(_) => {},
        ObjectData::MoveData(m) => {
            if m.type_.spec_is_dynamic_field() {
                match m.field {
                    None => {},
                    Some(f) => {
                        if resolve_two_tier(
                            cache_mods,
                            backup,
                            f.name_type.package,
                            f.name_type.module,
                        ) is Some {
                            match f.kind {
                                DynamicFieldType::DynamicField => {},
                                DynamicFieldType::DynamicObject => {
                                    lemma_first_by_id_transfer(w1, w2, f.child_id);
                                },
                            }
                        }
                    },
                }
            }
        },
    }
}

/// All written-object entries of the checkpoint's transactions, in order.
pub open spec fn all_changed(txs: Seq<CheckpointTransaction>) -> Seq<crate::types::ChangedObject>
    decreases txs.len(),
{
    if txs.len() == 0 {
        Seq::empty()
    } else {
        all_changed(txs.drop_last()) + txs.last().effects.changed_objects@
    }
}

/// All removed references of the checkpoint's transactions, in order.
pub open spec fn all_deleted_refs(txs: Seq<CheckpointTransaction>) -> Seq<ObjRef>
    decreases txs.len(),
{
    if txs.len() == 0 {
        Seq::empty()
    } else {
        all_deleted_refs(txs.drop_last()) + spec_deleted_objects(txs.last().effects)
    }
}

/// Whether a removed reference names the identifier, at any version.
pub open spec fn ref_contains_id(refs: Seq<ObjRef>, id: u64) -> bool {
    exists|i: int| 0 <= i < refs.len() && refs[i].id == id
}

/// The written-object entries a checkpoint retains as mutations, or the
/// first failure. An entry is dropped when its pair is superseded within
/// the checkpoint or when its identifier is named by any deletion of the
/// checkpoint — an object that ends deleted leaves no mutation, whatever
/// version the write carried; a kept entry must have its object in the
/// reduced snapshot list at exactly the effect's version, with derivable
/// dynamic-field metadata.
pub open spec fn spec_kept(
    cs: Seq<crate::types::ChangedObject>,
    objects: Seq<Object>,
    deleted_refs: Seq<ObjRef>,
    cache_mods: Seq<(u64, MoveModule)>,
    backup: Seq<IndexedPackage>,
) -> Result<Seq<crate::types::ChangedObject>, IndexerError>
    decreases cs.len(),
{
    if cs.len() == 0 {
        Ok(Seq::empty())
    } else {
        match spec_kept(cs.drop_last(), objects, deleted_refs, cache_mods, backup) {
            Err(e) => Err(e),
            Ok(pre) => {
                let c = cs.last();
                if spec_discarded(objects, objects).contains((c.oref.id, c.oref.version))
                    || ref_contains_id(deleted_refs, c.oref.id) {
                    Ok(pre)
                } else {
                    match first_by_id(latest_of(objects), c.oref.id) {
                        None => Err(IndexerError::InvariantViolation),
                        Some(obj) => if obj.version != c.oref.version {
                            Err(IndexerError::InvariantViolation)
                        } else {
                            match spec_df_info(obj, latest_of(objects), cache_mods, backup) {
                                Err(e) => Err(e),
                                Ok(_) => Ok(pre.push(c)),
                            }
                        },
                    }
                }
            },
        }
    }
}

/// A failing prefix fails the whole retained set with the same error.
pub proof fn lemma_kept_error(
    cs: Seq<crate::types::ChangedObject>,
    objects: Seq<Object>,
    deleted_refs: Seq<ObjRef>,
    cache_mods: Seq<(u64, MoveModule)>,
    backup: Seq<IndexedPackage>,
    n: int,
)
    requires
        0 <= n <= cs.len(),
        spec_kept(cs.subrange(0, n), objects, deleted_refs, cache_mods, backup) is Err,
    ensures
        spec_kept(cs, objects, deleted_refs, cache_mods, backup) == spec_kept(
            cs.subrange(0, n),
            objects,
            deleted_refs,
            cache_mods,
            backup,
        ),
    decreases cs.len() - n,
{
    if n == cs.len() {
        assert(cs.subrange(0, n) =~= cs);
    } else {
        assert(cs.subrange(0, n + 1).drop_last() =~= cs.subrange(0, n));
        lemma_kept_error(cs, objects, deleted_refs, cache_mods, backup, n + 1);
    }
}

/// One retained mutation row corresponds to one kept written-object
/// entry: the reduced snapshot at the entry's identifier, the checkpoint
/// sequence, and that snapshot's dynamic-field metadata.
pub open spec fn row_matches(
    row: crate::types::IndexedObject,
    c: crate::types::ChangedObject,
    objects: Seq<Object>,
    cache_mods: Seq<(u64, MoveModule)>,
    backup: Seq<IndexedPackage>,
    seq: u64,
) -> bool {
    &&& row.checkpoint_sequence_number == seq
    &&& (first_by_id(latest_of(objects), c.oref.id) matches Some(canon) && obj_eq(
        row.object,
        canon,
    ))
    &&& spec_df_info(
        first_by_id(latest_of(objects), c.oref.id).unwrap(),
        latest_of(objects),
        cache_mods,
        backup,
    ) == Ok::<Option<DynamicFieldInfo>, IndexerError>(row.df_info)
}

/// Whether a pair list holds the pair.
#[verifier::loop_isolation(false)]
pub fn contains_pair_vec(v: &Vec<(u64, u64)>, id: u64, version: u64) -> (r: bool)
    ensures
        r == v@.contains((id, version)),
{
    let mut i: usize = 0;
    while i < v.len()
        invariant
            i <= v.len(),
            forall|j: int| 0 <= j < i ==> v@[j] != (id, version),
        decreases v.len() - i,
    {
        if v[i].0 == id && v[i].1 == version {
            proof {
                assert(v@[i as int] == (id, version));
            }
            return true;
        }
        i = i + 1;
    }
    false
}

/// Whether a reference list names the identifier, at any version.
#[verifier::loop_isolation(false)]
pub fn contains_ref_id_vec(v: &Vec<ObjRef>, id: u64) -> (r: bool)
    ensures
        r == ref_contains_id(v@, id),
{
    let mut i: usize = 0;
    while i < v.len()
        invariant
            i <= v.len(),
            forall|j: int| 0 <= j < i ==> v@[j].id != id,
        decreases v.len() - i,
    {
        if v[i].id == id {
            return true;
        }
        i = i + 1;
    }
    false
}

/// Derives a checkpoint's object-change set and package list. The
/// packages published in the checkpoint go into the shared cache so that
/// dynamic-field parsing can see them; each retained mutation carries the
/// checkpoint's latest snapshot of its object and the derived
/// dynamic-field metadata; deletions are collected in effect order and
/// supersede every write of their object within the checkpoint.
#[verifier::loop_isolation(false)]
pub fn index_checkpoint(
    data: &CheckpointData,
    object_cache: &mut crate::object_cache::InMemObjectCache,
    store: &crate::store::StoreState,
) -> (r: Result<(crate::store::TransactionObjectChangesV2, Vec<IndexedPackage>), IndexerError>)
    ensures
        final(object_cache).objects() == old(object_cache).objects(),
        match r {
            Ok(p) => {
                &&& final(object_cache).modules_view() == old(object_cache).modules_view()
                    + crate::object_cache::packages_modules(p.1@)
                &&& p.1@.len() == spec_packages(data.objects@).len()
                &&& forall|i: int|
                    0 <= i < p.1@.len() ==> p.1@[i].package_id == spec_packages(
                        data.objects@,
                    )[i].0 && p.1@[i].move_package.modules@ == spec_packages(data.objects@)[i].1
                &&& p.0.deleted_objects@ == all_deleted_refs(data.transactions@)
                &&& spec_kept(
                    all_changed(data.transactions@),
                    data.objects@,
                    all_deleted_refs(data.transactions@),
                    final(object_cache).modules_view(),
                    store.packages@,
                ) matches Ok(ks) && p.0.changed_objects@.len() == ks.len() && (forall|i: int|
                    0 <= i < ks.len() ==> row_matches(
                        p.0.changed_objects@[i],
                        ks[i],
                        data.objects@,
                        final(object_cache).modules_view(),
                        store.packages@,
                        data.checkpoint_summary.sequence_number,
                    ))
            },
            Err(e) => spec_kept(
                all_changed(data.transactions@),
                data.objects@,
                all_deleted_refs(data.transactions@),
                final(object_cache).modules_view(),
                store.packages@,
            ) == Err::<Seq<crate::types::ChangedObject>, IndexerError>(e),
        },
{
    let txs = &data.transactions;
    let checkpoint_seq = data.checkpoint_summary.sequence_number;
    let packages = index_packages(data);

    // removed references, in effect order
    let mut deleted_objects: Vec<ObjRef> = Vec::new();
    let mut t: usize = 0;
    proof {
        assert(all_deleted_refs(txs@.subrange(0, 0)) =~= Seq::<ObjRef>::empty());
        assert(deleted_objects@ =~= all_deleted_refs(txs@.subrange(0, 0)));
    }
    while t < txs.len()
        invariant
            t <= txs.len(),
            deleted_objects@ == all_deleted_refs(txs@.subrange(0, t as int)),
        decreases txs.len() - t,
    {
        let ghost pre = deleted_objects@;
        let one = get_deleted_objects(&txs[t].effects);
        let mut k: usize = 0;
        proof {
            assert(deleted_objects@ =~= pre + one@.subrange(0, 0));
        }
        while k < one.len()
            invariant
                k <= one.len(),
                deleted_objects@ == pre + one@.subrange(0, k as int),
            decreases one.len() - k,
        {
            deleted_objects.push(one[k]);
            k = k + 1;
            proof {
                assert(deleted_objects@ =~= pre + one@.subrange(0, k as int));
            }
        }
        t = t + 1;
        proof {
            assert(one@.subrange(0, one@.len() as int) =~= one@);
            assert(txs@.subrange(0, t as int).drop_last() =~= txs@.subrange(0, t as int - 1));
            assert(txs@.subrange(0, t as int).last() == txs@[t - 1]);
            assert(deleted_objects@ =~= all_deleted_refs(txs@.subrange(0, t as int)));
        }
    }
    proof {
        assert(txs@.subrange(0, txs@.len() as int) =~= txs@);
    }

    let (latest, discarded) = get_latest_objects(&data.objects);
    proof {
        assert(objs_eq_seq(latest@, latest_of(data.objects@))) by {
            let canon = latest_of(data.objects@);
            assert(canon.len() == latest@.len());
            assert forall|i: int| 0 <= i < latest@.len() implies obj_eq(latest@[i], canon[i]) by {
                assert(ids_of(latest@)[i] == latest@[i].id);
                assert(canon[i] == first_at(
                    data.objects@,
                    latest@[i].id,
                    max_version_of(data.objects@, latest@[i].id),
                ).unwrap());
            }
        }
    }

    object_cache.insert_packages(&packages);
    let cache_ref: &crate::object_cache::InMemObjectCache = object_cache;
    let resolver = InterimModuleResolver::new(&store.packages, cache_ref);
    let ghost cache_mods = cache_ref.modules_view();
    let ghost backup = store.packages@;
    let ghost objects = data.objects@;
    let ghost dels = all_deleted_refs(txs@);

    let mut changed_rows: Vec<crate::types::IndexedObject> = Vec::new();
    let mut t2: usize = 0;
    proof {
        assert(all_changed(txs@.subrange(0, 0)) =~= Seq::<crate::types::ChangedObject>::empty());
    }
    while t2 < txs.len()
        invariant
            t2 <= txs.len(),
            spec_kept(all_changed(txs@.subrange(0, t2 as int)), objects, dels, cache_mods, backup)
                matches Ok(ks) && changed_rows@.len() == ks.len() && (forall|i: int|
                0 <= i < ks.len() ==> row_matches(
                    changed_rows@[i],
                    ks[i],
                    objects,
                    cache_mods,
                    backup,
                    checkpoint_seq,
                )),
        decreases txs.len() - t2,
    {
        let fx_changed = &txs[t2].effects.changed_objects;
        let ghost base = all_changed(txs@.subrange(0, t2 as int));
        let mut k2: usize = 0;
        proof {
            assert(base + fx_changed@.subrange(0, 0) =~= base);
        }
        while k2 < fx_changed.len()
            invariant
                t2 < txs.len(),
                k2 <= fx_changed@.len(),
                fx_changed == &txs@[t2 as int].effects.changed_objects,
                spec_kept(
                    base + fx_changed@.subrange(0, k2 as int),
                    objects,
                    dels,
                    cache_mods,
                    backup,
                ) matches Ok(ks) && changed_rows@.len() == ks.len() && (forall|i: int|
                    0 <= i < ks.len() ==> row_matches(
                        changed_rows@[i],
                        ks[i],
                        objects,
                        cache_mods,
                        backup,
                        checkpoint_seq,
                    )),
            decreases fx_changed@.len() - k2,
        {
            let c: crate::types::ChangedObject = fx_changed[k2];
            let ghost done = base + fx_changed@.subrange(0, k2 as int);
            proof {
                assert((base + fx_changed@.subrange(0, k2 + 1)) =~= done.push(c));
                assert(done.push(c).drop_last() =~= done);
            }
            let skip = contains_pair_vec(&discarded, c.oref.id, c.oref.version)
                || contains_ref_id_vec(&deleted_objects, c.oref.id);
            if !skip {
                match find_first_by_id(&latest, c.oref.id) {
                    None => {
                        proof {
                            lemma_first_by_id_transfer(latest@, latest_of(objects), c.oref.id);
                            lemma_kept_whole_error(
                                txs@,
                                done.push(c),
                                objects,
                                dels,
                                cache_mods,
                                backup,
                                t2 as int,
                                k2 as int + 1,
                            );
                        }
                        return Err(IndexerError::InvariantViolation);
                    },
                    Some(obj) => {
                        proof {
                            lemma_first_by_id_transfer(latest@, latest_of(objects), c.oref.id);
                        }
                        if obj.version != c.oref.version {
                            proof {
                                lemma_kept_whole_error(
                                    txs@,
                                    done.push(c),
                                    objects,
                                    dels,
                                    cache_mods,
                                    backup,
                                    t2 as int,
                                    k2 as int + 1,
                                );
                            }
                            return Err(IndexerError::InvariantViolation);
                        }
                        let df = match try_create_dynamic_field_info(obj, &latest, &resolver) {
                            Err(e) => {
                                proof {
                                    lemma_df_transfer(
                                        *obj,
                                        first_by_id(latest_of(objects), c.oref.id).unwrap(),
                                        latest@,
                                        latest_of(objects),
                                        cache_mods,
                                        backup,
                                    );
                                    lemma_kept_whole_error(
                                        txs@,
                                        done.push(c),
                                        objects,
                                        dels,
                                        cache_mods,
                                        backup,
                                        t2 as int,
                                        k2 as int + 1,
                                    );
                                }
                                return Err(e);
                            },
                            Ok(df) => df,
                        };
                        proof {
                            lemma_df_transfer(
                                *obj,
                                first_by_id(latest_of(objects), c.oref.id).unwrap(),
                                latest@,
                                latest_of(objects),
                                cache_mods,
                                backup,
                            );
                        }
                        let row = crate::types::IndexedObject {
                            checkpoint_sequence_number: checkpoint_seq,
                            object: copy_object(obj),
                            df_info: df,
                        };
                        changed_rows.push(row);
                        proof {
                            let canon = first_by_id(latest_of(objects), c.oref.id).unwrap();
                            assert(obj_eq(changed_rows@.last().object, canon)) by {
                                lemma_obj_eq_trans(changed_rows@.last().object, *obj, canon);
                            }
                        }
                    },
                }
            }
            k2 = k2 + 1;
        }
        t2 = t2 + 1;
        proof {
            assert(fx_changed@.subrange(0, fx_changed@.len() as int) =~= fx_changed@);
            assert(txs@.subrange(0, t2 as int).drop_last() =~= txs@.subrange(0, t2 as int - 1));
            assert(txs@.subrange(0, t2 as int).last() == txs@[t2 - 1]);
            assert(all_changed(txs@.subrange(0, t2 as int)) =~= base + fx_changed@);
        }
    }
    proof {
        assert(txs@.subrange(0, txs@.len() as int) =~= txs@);
    }
    Ok(
        (
            crate::store::TransactionObjectChangesV2 {
                changed_objects: changed_rows,
                deleted_objects,
            },
            packages,
        ),
    )
}

/// A failure at a position inside one transaction's written objects fails
/// the whole checkpoint's retained set with the same error.
proof fn lemma_kept_whole_error(
    txs: Seq<CheckpointTransaction>,
    done: Seq<crate::types::ChangedObject>,
    objects: Seq<Object>,
    dels: Seq<ObjRef>,
    cache_mods: Seq<(u64, MoveModule)>,
    backup: Seq<IndexedPackage>,
    t: int,
    k: int,
)
    requires
        0 <= t < txs.len(),
        0 <= k <= txs[t].effects.changed_objects@.len(),
        done == all_changed(txs.subrange(0, t)) + txs[t].effects.changed_objects@.subrange(0, k),
        spec_kept(done, objects, dels, cache_mods, backup) is Err,
    ensures
        spec_kept(all_changed(txs), objects, dels, cache_mods, backup) == spec_kept(
            done,
            objects,
            dels,
            cache_mods,
            backup,
        ),
{
    lemma_all_changed_prefix(txs, t, k);
    let full = all_changed(txs);
    let n = done.len() as int;
    assert(full.subrange(0, n) == done);
    lemma_kept_error(full, objects, dels, cache_mods, backup, n);
}

/// The written-object entries up to a position inside one transaction
/// form an initial segment of the checkpoint's whole list.
proof fn lemma_all_changed_prefix(txs: Seq<CheckpointTransaction>, t: int, k: int)
    requires
        0 <= t < txs.len(),
        0 <= k <= txs[t].effects.changed_objects@.len(),
    ensures
        ({
            let done = all_changed(txs.subrange(0, t)) + txs[t].effects.changed_objects@.subrange(
                0,
                k,
            );
            done.len() <= all_changed(txs).len() && all_changed(txs).subrange(
                0,
                done.len() as int,
            ) == done
        }),
    decreases txs.len(),
{
    let done = all_changed(txs.subrange(0, t)) + txs[t].effects.changed_objects@.subrange(0, k);
    if t == txs.len() - 1 {
        assert(txs.drop_last() =~= txs.subrange(0, t));
        assert(all_changed(txs) == all_changed(txs.subrange(0, t))
            + txs[t].effects.changed_objects@);
        assert(all_changed(txs).subrange(0, done.len() as int) =~= done);
    } else {
        lemma_all_changed_prefix(txs.drop_last(), t, k);
        assert(txs.drop_last().subrange(0, t) =~= txs.subrange(0, t));
        assert(txs.drop_last()[t] == txs[t]);
        let prev = all_changed(txs.drop_last());
        assert(all_changed(txs) == prev + txs.last().effects.changed_objects@);
        assert(all_changed(txs).subrange(0, done.len() as int) =~= prev.subrange(
            0,
            done.len() as int,
        ));
    }
}

/// Commands a transaction contributes to the checkpoint's successful
/// count: its command count when it succeeded, none otherwise.
pub open spec fn spec_successful(t: CheckpointTransaction) -> u64 {
    if t.effects.status_ok {
        t.data.num_commands
    } else {
        0u64
    }
}

/// Total successful command count of a list of transactions.
pub open spec fn spec_sum_commands(txs: Seq<CheckpointTransaction>) -> int
    decreases txs.len(),
{
    if txs.len() == 0 {
        0
    } else {
        spec_sum_commands(txs.drop_last()) + spec_successful(txs.last())
    }
}

/// A prefix's successful command count never exceeds the whole's.
pub proof fn lemma_sum_commands_prefix(txs: Seq<CheckpointTransaction>, n: int)
    requires
        0 <= n <= txs.len(),
    ensures
        spec_sum_commands(txs.subrange(0, n)) <= spec_sum_commands(txs),
    decreases txs.len() - n,
{
    if n == txs.len() {
        assert(txs.subrange(0, n) =~= txs);
    } else {
        lemma_sum_commands_prefix(txs, n + 1);
        assert(txs.subrange(0, n + 1).drop_last() =~= txs.subrange(0, n));
        assert(txs.subrange(0, n + 1).last() == txs[n]);
    }
}

/// The event rows of one transaction at its sequence number.
pub open spec fn event_rows_of(t: CheckpointTransaction, tx_seq: u64, ts: u64) -> Seq<
    IndexedEvent,
> {
    events_of(t).map(
        |j: int, e: Event|
            IndexedEvent {
                tx_sequence_number: tx_seq,
                event_sequence_number: j as u64,
                transaction_digest: t.digest,
                event: e,
                timestamp_ms: ts,
            },
    )
}

/// The event rows of a checkpoint's transactions, sequence numbers
/// assigned from the starting number in order.
pub open spec fn spec_event_rows(txs: Seq<CheckpointTransaction>, start: u64, ts: u64) -> Seq<
    IndexedEvent,
>
    decreases txs.len(),
{
    if txs.len() == 0 {
        Seq::empty()
    } else {
        spec_event_rows(txs.drop_last(), start, ts) + event_rows_of(
            txs.last(),
            (start + txs.len() - 1) as u64,
            ts,
        )
    }
}

/// The address-owner recipients of a list of written objects, in order,
/// repetitions included.
pub open spec fn spec_recipients(cs: Seq<ChangedObject>) -> Seq<u64>
    decreases cs.len(),
{
    if cs.len() == 0 {
        Seq::empty()
    } else {
        let rest = spec_recipients(cs.drop_last());
        match cs.last().owner {
            Owner::AddressOwner(a) => rest.push(a),
            _ => rest,
        }
    }
}

/// The identifiers of a list of written objects, in order.
pub open spec fn changed_ids(cs: Seq<ChangedObject>) -> Seq<u64> {
    cs.map(|i: int, c: ChangedObject| c.oref.id)
}

/// One derived transaction row carries its assigned sequence number, the
/// checkpoint's coordinates, the transaction's payload and effects, its
/// events, its kind, and its successful command count.
pub open spec fn tx_row_matches(
    row: IndexedTransaction,
    t: CheckpointTransaction,
    tx_seq: u64,
    summary: crate::types::CheckpointSummary,
) -> bool {
    &&& row.tx_sequence_number == tx_seq
    &&& row.tx_digest == t.digest
    &&& row.checkpoint_sequence_number == summary.sequence_number
    &&& row.timestamp_ms == summary.timestamp_ms
    &&& tx_data_eq(row.transaction, t.data)
    &&& effects_eq(row.effects, t.effects)
    &&& row.events@ == events_of(t)
    &&& row.transaction_kind == (if t.data.is_system_tx {
        TransactionKind::SystemTransaction
    } else {
        TransactionKind::ProgrammableTransaction
    })
    &&& row.successful_tx_num == spec_successful(t)
}

/// One per-transaction index row carries the assigned sequence number,
/// the digests and identifiers the query tables need, the single sender,
/// the deduplicated address-owner recipients in first-seen order, and the
/// named calls.
pub open spec fn tx_index_matches(row: TxIndex, t: CheckpointTransaction, tx_seq: u64) -> bool {
    &&& row.tx_sequence_number == tx_seq
    &&& row.transaction_digest == t.digest
    &&& row.input_objects@ == t.data.input_objects@
    &&& row.changed_objects@ == changed_ids(t.effects.changed_objects@)
    &&& row.senders@ == seq![t.data.sender]
    &&& row.recipients@ == crate::types::dedup_first(
        spec_recipients(t.effects.changed_objects@),
    )
    &&& row.move_calls@ == t.data.move_calls@
}

/// The changes of one derived transaction row are the processor's.
pub open spec fn tx_changes_match(
    row: IndexedTransaction,
    t: CheckpointTransaction,
    p: TxChangesProcessor,
) -> bool {
    &&& (p.spec_changed_records(
        t.data.sender,
        t.effects.changed_objects@,
        t.effects.modified_at_versions@,
    ) matches Ok(pre) && row.object_changes@ == pre + crate::changes::deleted_records(
        t.data.sender,
        t.effects.deleted@,
    ) + crate::changes::wrapped_records(t.data.sender, t.effects.wrapped@)
        + crate::changes::deleted_records(t.data.sender, t.effects.unwrapped_then_deleted@))
    &&& p.balances_resolvable(t.effects)
    &&& crate::changes::models_items(row.balance_change@, p.spec_balance_items(t.effects))
}

/// Collects the address-owner recipients of a transaction's written
/// objects, repetitions included.
#[verifier::loop_isolation(false)]
pub fn collect_recipients(cs: &Vec<ChangedObject>) -> (r: Vec<u64>)
    ensures
        r@ == spec_recipients(cs@),
{
    let mut r: Vec<u64> = Vec::new();
    let mut i: usize = 0;
    proof {
        assert(spec_recipients(cs@.subrange(0, 0)) =~= Seq::<u64>::empty());
    }
    while i < cs.len()
        invariant
            i <= cs.len(),
            r@ == spec_recipients(cs@.subrange(0, i as int)),
        decreases cs.len() - i,
    {
        proof {
            assert(cs@.subrange(0, i + 1).drop_last() =~= cs@.subrange(0, i as int));
            assert(cs@.subrange(0, i + 1).last() == cs@[i as int]);
        }
        match cs[i].owner {
            Owner::AddressOwner(a) => {
                r.push(a);
            },
            _ => {},
        }
        i = i + 1;
    }
    proof {
        assert(cs@.subrange(0, cs@.len() as int) =~= cs@);
    }
    r
}

/// Collects the identifiers of a transaction's written objects.
#[verifier::loop_isolation(false)]
pub fn collect_changed_ids(cs: &Vec<ChangedObject>) -> (r: Vec<u64>)
    ensures
        r@ == changed_ids(cs@),
{
    let mut r: Vec<u64> = Vec::new();
    let mut i: usize = 0;
    while i < cs.len()
        invariant
            i <= cs.len(),
            r@.len() == i,
            forall|j: int| 0 <= j < i ==> r@[j] == cs@[j].oref.id,
        decreases cs.len() - i,
    {
        r.push(cs[i].oref.id);
        i = i + 1;
    }
    proof {
        assert(r@ =~= changed_ids(cs@));
    }
    r
}

/// A failing derivation names one of the pipeline's failure sources: the
/// epoch records, the retained object-change set, or one transaction's
/// change derivation over the cache state left behind.
pub open spec fn spec_checkpoint_failure(
    e: IndexerError,
    data: CheckpointData,
    cache: crate::object_cache::InMemObjectCache,
    store: crate::store::StoreState,
    remote: Seq<Object>,
) -> bool {
    ||| spec_index_epoch(data, store) == Err::<Option<TemporaryEpochStoreV2>, IndexerError>(e)
    ||| spec_kept(
        all_changed(data.transactions@),
        data.objects@,
        all_deleted_refs(data.transactions@),
        cache.modules_view(),
        store.packages@,
    ) == Err::<Seq<ChangedObject>, IndexerError>(e)
    ||| (exists|p: TxChangesProcessor, i: int|
        #![trigger p.spec_balance_items(data.transactions@[i].effects)]
        p.object_cache.objects() == cache.objects() && *p.store == store && p.remote@ == remote
            && 0 <= i < data.transactions@.len() && (p.spec_changed_records(
            data.transactions@[i].data.sender,
            data.transactions@[i].effects.changed_objects@,
            data.transactions@[i].effects.modified_at_versions@,
        ) == Err::<Seq<crate::types::ObjectChange>, IndexerError>(e) || (p.spec_changed_records(
            data.transactions@[i].data.sender,
            data.transactions@[i].effects.changed_objects@,
            data.transactions@[i].effects.modified_at_versions@,
        ) is Ok && !(p.balances_resolvable(data.transactions@[i].effects)
            && crate::changes::items_in_range(
            p.spec_balance_items(data.transactions@[i].effects),
        )))))
}

/// Everything the derivation of one checkpoint promises of its output,
/// over the cache state it left behind: the header row, the pinned
/// per-transaction rows and their changes, the event and index rows, the
/// retained object changes, the packages, and the epoch records.
pub open spec fn spec_checkpoint_output(
    cp: TemporaryCheckpointStoreV2,
    epoch: Option<TemporaryEpochStoreV2>,
    data: CheckpointData,
    starting_tx_sequence_number: u64,
    cache: crate::object_cache::InMemObjectCache,
    store: crate::store::StoreState,
    remote: Seq<Object>,
) -> bool {
    let txs = data.transactions@;
    let summary = data.checkpoint_summary;
    let start = starting_tx_sequence_number;
    &&& cp.checkpoint == (IndexedCheckpoint {
        sequence_number: summary.sequence_number,
        checkpoint_digest: summary.digest,
        epoch: summary.epoch,
        network_total_transactions: summary.network_total_transactions,
        timestamp_ms: summary.timestamp_ms,
        successful_tx_num: spec_sum_commands(txs) as u64,
        end_of_epoch_data: summary.end_of_epoch_data,
        contents_digest: data.checkpoint_contents.digest,
    })
    &&& cp.transactions@.len() == txs.len()
    &&& (forall|i: int|
        0 <= i < txs.len() ==> tx_row_matches(
            cp.transactions@[i],
            txs[i],
            (start + i) as u64,
            summary,
        ))
    &&& (exists|p: TxChangesProcessor|
        p.object_cache.objects() == cache.objects() && *p.store == store
            && p.remote@ == remote && (forall|i: int|
            0 <= i < txs.len() ==> tx_changes_match(
                #[trigger] cp.transactions@[i],
                txs[i],
                p,
            )))
    &&& cp.events@ == spec_event_rows(txs, start, summary.timestamp_ms)
    &&& cp.tx_indices@.len() == txs.len()
    &&& (forall|i: int|
        0 <= i < txs.len() ==> tx_index_matches(
            cp.tx_indices@[i],
            txs[i],
            (start + i) as u64,
        ))
    &&& cp.object_changes.deleted_objects@ == all_deleted_refs(txs)
    &&& (spec_kept(
        all_changed(txs),
        data.objects@,
        all_deleted_refs(txs),
        cache.modules_view(),
        store.packages@,
    ) matches Ok(ks) && cp.object_changes.changed_objects@.len() == ks.len() && (
    forall|i: int|
        0 <= i < ks.len() ==> row_matches(
            cp.object_changes.changed_objects@[i],
            ks[i],
            data.objects@,
            cache.modules_view(),
            store.packages@,
            summary.sequence_number,
        )))
    &&& cp.packages@.len() == spec_packages(data.objects@).len()
    &&& (forall|i: int|
        0 <= i < cp.packages@.len() ==> cp.packages@[i].package_id
            == spec_packages(data.objects@)[i].0
            && cp.packages@[i].move_package.modules@ == spec_packages(
            data.objects@,
        )[i].1)
    &&& Ok::<Option<TemporaryEpochStoreV2>, IndexerError>(epoch) == spec_index_epoch(
        data,
        store,
    )
}

/// Derives everything one checkpoint contributes: the header row, one row
/// per transaction with its changes, the event and index rows, the
/// retained object changes and deletions, the published packages, and the
/// epoch records at a boundary. Transaction sequence numbers run from the
/// given starting number in checkpoint order.
#[verifier::loop_isolation(false)]
#[verifier::rlimit(40)]
pub fn index_checkpoint_and_epoch(
    store: &crate::store::StoreState,
    starting_tx_sequence_number: u64,
    data: &CheckpointData,
    object_cache: &mut crate::object_cache::InMemObjectCache,
    remote: &Vec<Object>,
) -> (r: Result<(TemporaryCheckpointStoreV2, Option<TemporaryEpochStoreV2>), IndexerError>)
    requires
        store.wf(),
        starting_tx_sequence_number + data.transactions@.len() <= u64::MAX,
        spec_sum_commands(data.transactions@) <= u64::MAX,
    ensures
        final(object_cache).objects().len() == old(object_cache).objects().len()
            + data.objects@.len(),
        final(object_cache).objects().subrange(0, old(object_cache).objects().len() as int)
            == old(object_cache).objects(),
        objs_eq_seq(
            final(object_cache).objects().subrange(
                old(object_cache).objects().len() as int,
                final(object_cache).objects().len() as int,
            ),
            data.objects@,
        ),
        match r {
            Ok(out) => spec_checkpoint_output(
                out.0,
                out.1,
                *data,
                starting_tx_sequence_number,
                *final(object_cache),
                *store,
                remote@,
            ),
            Err(e) => spec_checkpoint_failure(e, *data, *final(object_cache), *store, remote@),
        },
{
    let txs = &data.transactions;
    let summary = data.checkpoint_summary;
    let start = starting_tx_sequence_number;

    // make every snapshot of the checkpoint visible to version resolution
    let ghost cache0 = object_cache.objects();
    let mut oi: usize = 0;
    proof {
        assert(object_cache.objects().subrange(0, cache0.len() as int) =~= cache0);
        assert(objs_eq_seq(
            object_cache.objects().subrange(
                cache0.len() as int,
                object_cache.objects().len() as int,
            ),
            data.objects@.subrange(0, 0),
        ));
    }
    while oi < data.objects.len()
        invariant
            oi <= data.objects@.len(),
            object_cache.objects().len() == cache0.len() + oi,
            object_cache.objects().subrange(0, cache0.len() as int) == cache0,
            objs_eq_seq(
                object_cache.objects().subrange(
                    cache0.len() as int,
                    object_cache.objects().len() as int,
                ),
                data.objects@.subrange(0, oi as int),
            ),
            object_cache.modules_view() == old(object_cache).modules_view(),
        decreases data.objects@.len() - oi,
    {
        let cp = copy_object(&data.objects[oi]);
        object_cache.insert_object(cp);
        oi = oi + 1;
        proof {
            assert(object_cache.objects().subrange(0, cache0.len() as int) =~= cache0);
            let tail = object_cache.objects().subrange(
                cache0.len() as int,
                object_cache.objects().len() as int,
            );
            assert(tail.len() == oi);
            assert forall|m: int| 0 <= m < oi implies obj_eq(
                tail[m],
                data.objects@.subrange(0, oi as int)[m],
            ) by {
                if m < oi - 1 {
                    let prev_tail = object_cache.objects().drop_last().subrange(
                        cache0.len() as int,
                        object_cache.objects().len() as int - 1,
                    );
                    assert(prev_tail[m] == tail[m]);
                } else {
                    assert(tail[m] == object_cache.objects().last());
                }
            }
        }
    }
    proof {
        assert(data.objects@.subrange(0, data.objects@.len() as int) =~= data.objects@);
    }

    let cache_ref: &crate::object_cache::InMemObjectCache = object_cache;
    let processor = TxChangesProcessor::new(cache_ref, store, remote);
    let ghost gp = processor;

    let mut db_transactions: Vec<IndexedTransaction> = Vec::new();
    let mut db_events: Vec<IndexedEvent> = Vec::new();
    let mut db_indices: Vec<TxIndex> = Vec::new();
    let mut successful_sum: u64 = 0;
    let mut i: usize = 0;
    proof {
        assert(spec_event_rows(txs@.subrange(0, 0), start, summary.timestamp_ms) =~= Seq::<
            IndexedEvent,
        >::empty());
        assert(spec_sum_commands(txs@.subrange(0, 0)) == 0);
    }
    while i < txs.len()
        invariant
            i <= txs.len(),
            db_transactions@.len() == i,
            db_indices@.len() == i,
            forall|m: int|
                0 <= m < i ==> tx_row_matches(
                    db_transactions@[m],
                    txs@[m],
                    (start + m) as u64,
                    summary,
                ),
            forall|m: int|
                0 <= m < i ==> tx_changes_match(#[trigger] db_transactions@[m], txs@[m], gp),
            forall|m: int|
                0 <= m < i ==> tx_index_matches(db_indices@[m], txs@[m], (start + m) as u64),
            db_events@ == spec_event_rows(txs@.subrange(0, i as int), start, summary.timestamp_ms),
            successful_sum == spec_sum_commands(txs@.subrange(0, i as int)),
        decreases txs.len() - i,
    {
        let t = &txs[i];
        let tx_seq: u64 = start + (i as u64);
        proof {
            assert(txs@.subrange(0, i + 1).drop_last() =~= txs@.subrange(0, i as int));
            assert(txs@.subrange(0, i + 1).last() == txs@[i as int]);
            lemma_sum_commands_prefix(txs@, i as int + 1);
        }

        // event rows of this transaction
        let ghost events_pre = db_events@;
        match &t.events {
            Some(evs) => {
                let mut j: usize = 0;
                proof {
                    assert(event_rows_of(txs@[i as int], tx_seq, summary.timestamp_ms).subrange(
                        0,
                        0,
                    ) =~= Seq::<IndexedEvent>::empty());
                    assert(db_events@ =~= events_pre + event_rows_of(
                        txs@[i as int],
                        tx_seq,
                        summary.timestamp_ms,
                    ).subrange(0, 0));
                }
                while j < evs.len()
                    invariant
                        j <= evs@.len(),
                        evs == t.events->0,
                        t == &txs@[i as int],
                        i < txs@.len(),
                        db_events@ == events_pre + event_rows_of(
                            txs@[i as int],
                            tx_seq,
                            summary.timestamp_ms,
                        ).subrange(0, j as int),
                    decreases evs@.len() - j,
                {
                    let e: Event = evs[j];
                    db_events.push(
                        IndexedEvent {
                            tx_sequence_number: tx_seq,
                            event_sequence_number: j as u64,
                            transaction_digest: t.digest,
                            event: e,
                            timestamp_ms: summary.timestamp_ms,
                        },
                    );
                    j = j + 1;
                    proof {
                        assert(db_events@ =~= events_pre + event_rows_of(
                            txs@[i as int],
                            tx_seq,
                            summary.timestamp_ms,
                        ).subrange(0, j as int));
                    }
                }
                proof {
                    assert(event_rows_of(txs@[i as int], tx_seq, summary.timestamp_ms).subrange(
                        0,
                        event_rows_of(txs@[i as int], tx_seq, summary.timestamp_ms).len() as int,
                    ) =~= event_rows_of(txs@[i as int], tx_seq, summary.timestamp_ms));
                }
            },
            None => {
                proof {
                    assert(event_rows_of(txs@[i as int], tx_seq, summary.timestamp_ms) =~= Seq::<
                        IndexedEvent,
                    >::empty());
                    assert(db_events@ =~= events_pre + event_rows_of(
                        txs@[i as int],
                        tx_seq,
                        summary.timestamp_ms,
                    ));
                }
            },
        }
        proof {
            assert(db_events@ =~= spec_event_rows(
                txs@.subrange(0, i + 1),
                start,
                summary.timestamp_ms,
            ));
        }

        // change lists
        let (balance_change, object_changes) = match processor.get_changes(&t.data, &t.effects) {
            Ok(p) => p,
            Err(e) => {
                proof {
                    let gi = i as int;
                    assert(txs@ == data.transactions@);
                    assert(gp.spec_balance_items(data.transactions@[gi].effects)
                        == gp.spec_balance_items(t.effects));
                    assert(gp.object_cache.objects() == object_cache.objects() && *gp.store
                        == *store && gp.remote@ == remote@ && 0 <= gi < data.transactions@.len()
                        && (gp.spec_changed_records(
                        data.transactions@[gi].data.sender,
                        data.transactions@[gi].effects.changed_objects@,
                        data.transactions@[gi].effects.modified_at_versions@,
                    ) == Err::<Seq<crate::types::ObjectChange>, IndexerError>(e) || (
                    gp.spec_changed_records(
                        data.transactions@[gi].data.sender,
                        data.transactions@[gi].effects.changed_objects@,
                        data.transactions@[gi].effects.modified_at_versions@,
                    ) is Ok && !(gp.balances_resolvable(data.transactions@[gi].effects)
                        && crate::changes::items_in_range(
                        gp.spec_balance_items(data.transactions@[gi].effects),
                    )))));
                    assert(spec_checkpoint_failure(e, *data, *object_cache, *store, remote@));
                }
                return Err(e);
            },
        };

        let transaction_kind = if t.data.is_system_tx {
            TransactionKind::SystemTransaction
        } else {
            TransactionKind::ProgrammableTransaction
        };
        let successful_tx_num: u64 = if t.effects.status_ok {
            t.data.num_commands
        } else {
            0
        };
        successful_sum = successful_sum + successful_tx_num;

        let events_copy: Vec<Event> = match &t.events {
            Some(evs) => copy_vec(evs),
            None => Vec::new(),
        };
        let db_txn = IndexedTransaction {
            tx_sequence_number: tx_seq,
            tx_digest: t.digest,
            checkpoint_sequence_number: summary.sequence_number,
            timestamp_ms: summary.timestamp_ms,
            transaction: copy_transaction_data(&t.data),
            effects: copy_effects(&t.effects),
            object_changes,
            balance_change,
            events: events_copy,
            transaction_kind,
            successful_tx_num,
        };
        db_transactions.push(db_txn);

        let recipients_all = collect_recipients(&t.effects.changed_objects);
        let recipients = crate::types::dedup_u64(&recipients_all);
        let mut senders: Vec<u64> = Vec::new();
        senders.push(t.data.sender);
        proof {
            assert(senders@ =~= seq![txs@[i as int].data.sender]);
        }
        db_indices.push(
            TxIndex {
                tx_sequence_number: tx_seq,
                transaction_digest: t.digest,
                input_objects: copy_vec(&t.data.input_objects),
                changed_objects: collect_changed_ids(&t.effects.changed_objects),
                senders,
                recipients,
                move_calls: copy_vec(&t.data.move_calls),
            },
        );
        i = i + 1;
    }
    proof {
        assert(txs@.subrange(0, txs@.len() as int) =~= txs@);
    }

    let epoch_index = match index_epoch(data, store) {
        Ok(v) => v,
        Err(e) => {
            return Err(e);
        },
    };

    let (object_changes, packages) = match index_checkpoint(data, object_cache, store) {
        Ok(p) => p,
        Err(e) => {
            return Err(e);
        },
    };

    let checkpoint = IndexedCheckpoint::from_checkpoint(
        &summary,
        &data.checkpoint_contents,
        successful_sum,
    );
    Ok(
        (
            TemporaryCheckpointStoreV2 {
                checkpoint,
                transactions: db_transactions,
                events: db_events,
                tx_indices: db_indices,
                object_changes,
                packages,
            },
            epoch_index,
        ),
    )
}

/// First value recorded under a key.
pub open spec fn map_lookup(m: Seq<(u64, u64)>, k: u64) -> Option<u64>
    decreases m.len(),
{
    if m.len() == 0 {
        None
    } else if m[0].0 == k {
        Some(m[0].1)
    } else {
        map_lookup(m.subrange(1, m.len() as int), k)
    }
}

/// The bookkeeping map after recording a value under a key: an existing
/// entry is overwritten, otherwise the pair is appended.
pub open spec fn map_upsert(m: Seq<(u64, u64)>, k: u64, v: u64) -> Seq<(u64, u64)> {
    if crate::store::contains_key(m, |e: (u64, u64)| e.0, k) {
        let j = choose|j: int| 0 <= j < m.len() && m[j].0 == k;
        m.update(j, (k, v))
    } else {
        m.push((k, v))
    }
}

/// The starting transaction sequence number of a checkpoint: zero at
/// genesis; else the number remembered when the predecessor was
/// processed; else the predecessor's recorded network transaction total
/// from the store. Nothing else can recover it.
pub open spec fn spec_start(
    m: Seq<(u64, u64)>,
    store: crate::store::StoreState,
    summary: crate::types::CheckpointSummary,
) -> Option<u64> {
    if summary.sequence_number == 0 {
        Some(0u64)
    } else {
        match map_lookup(m, summary.sequence_number) {
            Some(v) => Some(v),
            None => match store.spec_checkpoint_row((summary.sequence_number - 1) as u64) {
                Some(c) => Some(c.network_total_transactions),
                None => None,
            },
        }
    }
}

/// Per-pipeline indexing state: the map from a checkpoint sequence number
/// to its starting transaction sequence number, and the shared object
/// cache.
pub struct CheckpointHandler {
    pub checkpoint_starting_tx_seq_numbers: Vec<(u64, u64)>,
    pub object_cache: crate::object_cache::InMemObjectCache,
}

impl CheckpointHandler {
    /// The bookkeeping map holds one entry per checkpoint.
    pub open spec fn wf(&self) -> bool {
        crate::store::unique_keys(
            self.checkpoint_starting_tx_seq_numbers@,
            |e: (u64, u64)| e.0,
        )
    }

    /// A fresh handler with an empty map and an empty cache.
    pub fn new() -> (r: CheckpointHandler)
        ensures
            r.wf(),
            r.checkpoint_starting_tx_seq_numbers@ == Seq::<(u64, u64)>::empty(),
            r.object_cache.objects() == Seq::<Object>::empty(),
            r.object_cache.modules_view() == Seq::<(u64, crate::types::MoveModule)>::empty(),
    {
        CheckpointHandler {
            checkpoint_starting_tx_seq_numbers: Vec::new(),
            object_cache: crate::object_cache::InMemObjectCache::new(),
        }
    }

    /// Looks the starting sequence number recorded for a checkpoint up.
    #[verifier::loop_isolation(false)]
    fn lookup_start(&self, seq: u64) -> (r: Option<u64>)
        ensures
            r == map_lookup(self.checkpoint_starting_tx_seq_numbers@, seq),
    {
        let m = &self.checkpoint_starting_tx_seq_numbers;
        let mut i: usize = 0;
        proof {
            assert(m@.subrange(0, m@.len() as int) =~= m@);
        }
        while i < m.len()
            invariant
                i <= m.len(),
                map_lookup(m@, seq) == map_lookup(m@.subrange(i as int, m@.len() as int), seq),
            decreases m.len() - i,
        {
            proof {
                assert(m@.subrange(i as int, m@.len() as int)[0] == m@[i as int]);
                assert(m@.subrange(i as int, m@.len() as int).subrange(
                    1,
                    m@.subrange(i as int, m@.len() as int).len() as int,
                ) =~= m@.subrange(i + 1, m@.len() as int));
            }
            if m[i].0 == seq {
                return Some(m[i].1);
            }
            i = i + 1;
        }
        proof {
            assert(m@.subrange(i as int, m@.len() as int).len() == 0);
        }
        None
    }

    /// Records a starting sequence number for a checkpoint, overwriting
    /// any earlier record.
    #[verifier::loop_isolation(false)]
    fn record_start(&mut self, seq: u64, value: u64)
        requires
            old(self).wf(),
        ensures
            final(self).wf(),
            final(self).checkpoint_starting_tx_seq_numbers@ == map_upsert(
                old(self).checkpoint_starting_tx_seq_numbers@,
                seq,
                value,
            ),
            final(self).object_cache == old(self).object_cache,
    {
        let ghost m0 = self.checkpoint_starting_tx_seq_numbers@;
        let mut found: bool = false;
        let mut at: usize = 0;
        let mut i: usize = 0;
        while i < self.checkpoint_starting_tx_seq_numbers.len()
            invariant
                i <= self.checkpoint_starting_tx_seq_numbers.len(),
                !found ==> forall|t: int|
                    0 <= t < i ==> self.checkpoint_starting_tx_seq_numbers@[t].0 != seq,
                found ==> at < i <= self.checkpoint_starting_tx_seq_numbers.len()
                    && self.checkpoint_starting_tx_seq_numbers@[at as int].0 == seq,
            decreases self.checkpoint_starting_tx_seq_numbers.len() - i,
        {
            if !found && self.checkpoint_starting_tx_seq_numbers[i].0 == seq {
                found = true;
                at = i;
            }
            i = i + 1;
        }
        proof {
            let k = |e: (u64, u64)| e.0;
            assert(found == crate::store::contains_key(m0, k, seq)) by {
                if found {
                    assert(k(m0[at as int]) == seq);
                }
                if crate::store::contains_key(m0, k, seq) && !found {
                    let w = choose|w: int| 0 <= w < m0.len() && k(m0[w]) == seq;
                }
            }
            if found {
                let j = choose|j: int| 0 <= j < m0.len() && m0[j].0 == seq;
                assert(j == at as int);
            }
        }
        if found {
            self.checkpoint_starting_tx_seq_numbers[at] = (seq, value);
        } else {
            self.checkpoint_starting_tx_seq_numbers.push((seq, value));
        }
    }

    /// Processes one checkpoint: remembers the successor's starting
    /// sequence number, resolves this checkpoint's own — zero at genesis,
    /// else the remembered value, else the store's record of the
    /// predecessor; a miss everywhere breaks the stream's ordering and is
    /// fatal — and derives the checkpoint's batch and epoch records.
    pub fn process_checkpoint(
        &mut self,
        data: &CheckpointData,
        store: &crate::store::StoreState,
        remote: &Vec<Object>,
    ) -> (r: Result<(TemporaryCheckpointStoreV2, Option<TemporaryEpochStoreV2>), IndexerError>)
        requires
            old(self).wf(),
            store.wf(),
            data.checkpoint_summary.sequence_number < u64::MAX,
            spec_start(
                old(self).checkpoint_starting_tx_seq_numbers@,
                *store,
                data.checkpoint_summary,
            ) matches Some(st) ==> st + data.transactions@.len() <= u64::MAX,
            spec_sum_commands(data.transactions@) <= u64::MAX,
        ensures
            final(self).wf(),
            final(self).checkpoint_starting_tx_seq_numbers@ == map_upsert(
                old(self).checkpoint_starting_tx_seq_numbers@,
                (data.checkpoint_summary.sequence_number + 1) as u64,
                data.checkpoint_summary.network_total_transactions,
            ),
            match r {
                Ok(out) => spec_start(
                    old(self).checkpoint_starting_tx_seq_numbers@,
                    *store,
                    data.checkpoint_summary,
                ) matches Some(st) && spec_checkpoint_output(
                    out.0,
                    out.1,
                    *data,
                    st,
                    final(self).object_cache,
                    *store,
                    remote@,
                ),
                Err(e) => (spec_start(
                    old(self).checkpoint_starting_tx_seq_numbers@,
                    *store,
                    data.checkpoint_summary,
                ) is None && e == IndexerError::InvariantViolation) || (spec_start(
                    old(self).checkpoint_starting_tx_seq_numbers@,
                    *store,
                    data.checkpoint_summary,
                ) is Some && spec_checkpoint_failure(
                    e,
                    *data,
                    final(self).object_cache,
                    *store,
                    remote@,
                )),
            },
    {
        let summary = data.checkpoint_summary;
        let checkpoint_seq = summary.sequence_number;

        let start_opt: Option<u64> = if checkpoint_seq == 0 {
            Some(0)
        } else {
            match self.lookup_start(checkpoint_seq) {
                Some(v) => Some(v),
                None => store.get_checkpoint_ending_tx_sequence_number(checkpoint_seq - 1),
            }
        };

        // remember where the successor starts
        self.record_start(checkpoint_seq + 1, summary.network_total_transactions);

        let current_checkpoint_starting_tx_seq = match start_opt {
            Some(v) => v,
            None => {
                return Err(IndexerError::InvariantViolation);
            },
        };

        index_checkpoint_and_epoch(
            store,
            current_checkpoint_starting_tx_seq,
            data,
            &mut self.object_cache,
            remote,
        )
    }
}

} // verus!
