use sui_indexer::commit::{commit_checkpoint_batch, commit_data_stage, flatten_batch};
use sui_indexer::handler::{get_deleted_objects, get_latest_objects};
use sui_indexer::store::{
    get_objects_to_commit, StoreState, TemporaryCheckpointStoreV2, TemporaryEpochStoreV2,
    TransactionObjectChangesV2,
};
use sui_indexer::types::{
    dedup_u64, EndOfEpochInfo, IndexedCheckpoint, IndexedEndOfEpochInfo, IndexedEpochInfo,
    IndexedObject, MoveObject, ObjRef, Object, ObjectData, Owner, StructTag, TransactionEffects,
};

fn obj(id: u64, version: u64, digest: u64) -> Object {
    Object {
        id,
        version,
        digest,
        owner: Owner::AddressOwner(1),
        data: ObjectData::MoveData(MoveObject {
            type_: StructTag { package: 100, module: 1, name: 7 },
            coin: None,
            field: None,
            system_state: None,
        }),
    }
}

fn row(id: u64, version: u64, digest: u64, ckpt: u64) -> IndexedObject {
    IndexedObject {
        checkpoint_sequence_number: ckpt,
        object: obj(id, version, digest),
        df_info: None,
    }
}

fn header(seq: u64, epoch: u64, total: u64) -> IndexedCheckpoint {
    IndexedCheckpoint {
        sequence_number: seq,
        checkpoint_digest: 1000 + seq,
        epoch,
        network_total_transactions: total,
        timestamp_ms: 0,
        successful_tx_num: 0,
        end_of_epoch_data: None,
        contents_digest: 0,
    }
}

fn batch_one(seq: u64) -> TemporaryCheckpointStoreV2 {
    TemporaryCheckpointStoreV2 {
        checkpoint: header(seq, 0, 10),
        transactions: Vec::new(),
        events: Vec::new(),
        tx_indices: Vec::new(),
        object_changes: TransactionObjectChangesV2 {
            changed_objects: vec![row(71, 5, 25, seq)],
            deleted_objects: vec![ObjRef { id: 72, version: 3, digest: 30 }],
        },
        packages: Vec::new(),
    }
}

#[test]
fn dedup_keeps_first_occurrences() {
    let v = vec![5u64, 3, 5, 7, 3, 5, 9];
    let d = dedup_u64(&v);
    assert_eq!(d, vec![5, 3, 7, 9]);
    let empty: Vec<u64> = Vec::new();
    assert_eq!(dedup_u64(&empty), Vec::<u64>::new());
}

#[test]
fn deleted_objects_concatenate_in_order() {
    let fx = TransactionEffects {
        status_ok: true,
        modified_at_versions: Vec::new(),
        changed_objects: Vec::new(),
        deleted: vec![ObjRef { id: 1, version: 1, digest: 1 }],
        wrapped: vec![ObjRef { id: 2, version: 2, digest: 2 }],
        unwrapped_then_deleted: vec![ObjRef { id: 3, version: 3, digest: 3 }],
    };
    let refs = get_deleted_objects(&fx);
    let ids: Vec<u64> = refs.iter().map(|r| r.id).collect();
    assert_eq!(ids, vec![1, 2, 3]);
}

#[test]
fn latest_objects_keep_max_version_and_collect_discarded() {
    let objects = vec![obj(71, 4, 24), obj(71, 5, 25), obj(73, 1, 31), obj(71, 2, 22)];
    let (latest, discarded) = get_latest_objects(&objects);
    assert_eq!(latest.len(), 2);
    assert_eq!(latest[0].id, 71);
    assert_eq!(latest[0].version, 5);
    assert_eq!(latest[1].id, 73);
    assert_eq!(latest[1].version, 1);
    assert_eq!(discarded, vec![(71, 4), (71, 2)]);
}

#[test]
fn objects_to_commit_latest_wins_across_checkpoints() {
    let changes = vec![
        TransactionObjectChangesV2 {
            changed_objects: vec![row(71, 5, 25, 1), row(73, 2, 32, 1)],
            deleted_objects: vec![ObjRef { id: 72, version: 3, digest: 30 }],
        },
        TransactionObjectChangesV2 {
            changed_objects: vec![row(71, 7, 27, 2)],
            deleted_objects: vec![
                ObjRef { id: 72, version: 4, digest: 31 },
                ObjRef { id: 74, version: 1, digest: 40 },
            ],
        },
    ];
    let (muts, dels) = get_objects_to_commit(changes);
    assert_eq!(muts.len(), 2);
    assert_eq!(muts[0].object.id, 71);
    assert_eq!(muts[0].object.version, 7);
    assert_eq!(muts[1].object.id, 73);
    assert_eq!(dels, vec![72, 74]);
}

#[test]
fn persist_checkpoints_is_append_only_and_idempotent() {
    let mut store = StoreState::new();
    store.persist_checkpoints(vec![header(0, 0, 1), header(1, 0, 3)]);
    assert_eq!(store.checkpoints.len(), 2);
    // replaying the same rows inserts nothing
    store.persist_checkpoints(vec![header(0, 0, 1), header(1, 0, 3)]);
    assert_eq!(store.checkpoints.len(), 2);
    assert_eq!(store.get_checkpoint_ending_tx_sequence_number(1), Some(3));
    assert_eq!(store.get_checkpoint_ending_tx_sequence_number(2), None);
    assert_eq!(store.get_latest_tx_checkpoint_sequence_number(), Some(1));
}

#[test]
fn network_total_of_previous_epoch_is_max_over_its_rows() {
    let mut store = StoreState::new();
    store.persist_checkpoints(vec![header(0, 2, 650), header(1, 2, 700), header(2, 3, 900)]);
    // the ended epoch is 3: its predecessor's rows carry epoch 2
    assert_eq!(store.get_network_total_transactions_previous_epoch(3), 700);
    assert_eq!(store.get_network_total_transactions_previous_epoch(0), 0);
    assert_eq!(store.get_network_total_transactions_previous_epoch(9), 0);
}

#[test]
fn object_changes_upsert_then_delete() {
    let mut store = StoreState::new();
    store.objects.push(obj(71, 4, 24));
    store.objects.push(obj(72, 2, 20));
    let changes = vec![TransactionObjectChangesV2 {
        changed_objects: vec![row(71, 5, 25, 1), row(75, 1, 50, 1)],
        deleted_objects: vec![ObjRef { id: 72, version: 3, digest: 30 }],
    }];
    store.persist_object_changes(changes);
    let ids: Vec<(u64, u64)> = store.objects.iter().map(|o| (o.id, o.version)).collect();
    assert_eq!(ids, vec![(71, 5), (75, 1)]);
}

#[test]
fn commit_writes_headers_last_and_replay_converges() {
    let mut clean = StoreState::new();
    commit_checkpoint_batch(&mut clean, vec![batch_one(3)]);
    assert_eq!(clean.checkpoints.len(), 1);
    assert_eq!(clean.objects.len(), 1);
    assert_eq!(clean.objects[0].id, 71);

    // crash between the data stage and the commit marker, then replay
    let mut crashed = StoreState::new();
    let (_, txs, events, indices, changes, packages) = flatten_batch(vec![batch_one(3)]);
    commit_data_stage(&mut crashed, txs, indices, events, changes, packages);
    // the data tables ran ahead; no checkpoint row yet
    assert!(crashed.checkpoints.is_empty());
    assert_eq!(crashed.objects.len(), 1);
    // the restart re-feeds the same checkpoint
    commit_checkpoint_batch(&mut crashed, vec![batch_one(3)]);

    assert_eq!(crashed.checkpoints, clean.checkpoints);
    assert_eq!(crashed.transactions, clean.transactions);
    assert_eq!(crashed.events, clean.events);
    assert_eq!(crashed.tx_indices, clean.tx_indices);
    assert_eq!(crashed.packages, clean.packages);
    let crashed_rows: Vec<(u64, u64)> = crashed.objects.iter().map(|o| (o.id, o.version)).collect();
    let clean_rows: Vec<(u64, u64)> = clean.objects.iter().map(|o| (o.id, o.version)).collect();
    assert_eq!(crashed_rows, clean_rows);
}

#[test]
fn epoch_rows_upsert_closing_fields() {
    let mut store = StoreState::new();
    let open_epoch = IndexedEpochInfo {
        epoch: 3,
        first_checkpoint_id: 10,
        epoch_start_timestamp: 100,
        validator_count: 4,
        reference_gas_price: 700,
        protocol_version: 9,
        epoch_total_transactions: 0,
        end_of_epoch_info: None,
        end_of_epoch_data: None,
    };
    store.persist_epoch(TemporaryEpochStoreV2 { last_epoch: None, new_epoch: open_epoch });
    assert_eq!(store.epochs.len(), 1);

    let closing = IndexedEndOfEpochInfo {
        epoch: 3,
        end_of_epoch_info: EndOfEpochInfo {
            last_checkpoint_id: 20,
            epoch_end_timestamp: 900,
            protocol_version: 9,
            reference_gas_price: 700,
            total_stake: 1,
            storage_fund_reinvestment: 2,
            storage_charge: 3,
            storage_rebate: 4,
            leftover_storage_fund_inflow: 5,
            stake_subsidy_amount: 6,
            storage_fund_balance: 7,
            total_gas_fees: 8,
            total_stake_rewards_distributed: 9,
        },
        end_of_epoch_data: Some(77),
        epoch_total_transactions: 300,
    };
    let next_epoch = IndexedEpochInfo {
        epoch: 4,
        first_checkpoint_id: 21,
        epoch_start_timestamp: 901,
        validator_count: 4,
        reference_gas_price: 750,
        protocol_version: 10,
        epoch_total_transactions: 0,
        end_of_epoch_info: None,
        end_of_epoch_data: None,
    };
    store.persist_epoch(TemporaryEpochStoreV2 {
        last_epoch: Some(closing),
        new_epoch: next_epoch,
    });
    assert_eq!(store.epochs.len(), 2);
    // the open row kept its opening fields and gained the closing ones
    assert_eq!(store.epochs[0].epoch, 3);
    assert_eq!(store.epochs[0].first_checkpoint_id, 10);
    assert_eq!(store.epochs[0].epoch_total_transactions, 300);
    assert_eq!(store.epochs[0].end_of_epoch_data, Some(77));
    assert!(store.epochs[0].end_of_epoch_info.is_some());
    assert_eq!(store.epochs[1].epoch, 4);
}

#[test]
fn cache_returns_latest_and_exact_versions() {
    let mut cache = sui_indexer::object_cache::InMemObjectCache::new();
    cache.insert_object(obj(71, 4, 24));
    cache.insert_object(obj(71, 5, 25));
    assert_eq!(cache.get(71, None).unwrap().version, 5);
    assert_eq!(cache.get(71, Some(4)).unwrap().digest, 24);
    assert!(cache.get(71, Some(6)).is_none());
    assert!(cache.get(72, None).is_none());

    let packages = vec![sui_indexer::types::IndexedPackage {
        package_id: 300,
        move_package: sui_indexer::types::MovePackage {
            modules: vec![
                sui_indexer::types::MoveModule { name: 2, bytes: 4040 },
                sui_indexer::types::MoveModule { name: 3, bytes: 4041 },
            ],
        },
    }];
    cache.insert_packages(&packages);
    assert_eq!(cache.get_module_by_id(300, 3).unwrap().bytes, 4041);
    assert!(cache.get_module_by_id(300, 4).is_none());
}

#[test]
fn find_le_prefers_cache_then_store() {
    let mut cache = sui_indexer::object_cache::InMemObjectCache::new();
    cache.insert_object(obj(71, 4, 24));
    let mut store = StoreState::new();
    store.objects.push(obj(73, 9, 39));
    let remote: Vec<Object> = Vec::new();
    let p = sui_indexer::changes::TxChangesProcessor::new(&cache, &store, &remote);
    // exact cache hit
    assert_eq!(p.find_object_lt_or_eq_version(71, 4).unwrap().digest, 24);
    // latest cache entry is old enough
    assert_eq!(p.find_object_lt_or_eq_version(71, 6).unwrap().version, 4);
    // store row is newer than the bound: the stream ordering is broken
    assert_eq!(
        p.find_object_lt_or_eq_version(73, 5).unwrap_err(),
        sui_indexer::types::IndexerError::InvariantViolation
    );
    // absent everywhere: a store read failure
    assert_eq!(
        p.find_object_lt_or_eq_version(74, 5).unwrap_err(),
        sui_indexer::types::IndexerError::StoreRead
    );
}

#[test]
fn flatten_preserves_checkpoint_order() {
    let mut b1 = batch_one(3);
    b1.transactions.push(sui_indexer::types::IndexedTransaction {
        tx_sequence_number: 10,
        tx_digest: 1,
        checkpoint_sequence_number: 3,
        timestamp_ms: 0,
        transaction: sui_indexer::types::TransactionData {
            sender: 1,
            is_system_tx: false,
            num_commands: 1,
            input_objects: Vec::new(),
            move_calls: Vec::new(),
        },
        effects: TransactionEffects {
            status_ok: true,
            modified_at_versions: Vec::new(),
            changed_objects: Vec::new(),
            deleted: Vec::new(),
            wrapped: Vec::new(),
            unwrapped_then_deleted: Vec::new(),
        },
        object_changes: Vec::new(),
        balance_change: Vec::new(),
        events: Vec::new(),
        transaction_kind: sui_indexer::types::TransactionKind::ProgrammableTransaction,
        successful_tx_num: 1,
    });
    let mut b2 = batch_one(4);
    b2.transactions.push(sui_indexer::types::IndexedTransaction {
        tx_sequence_number: 11,
        ..b1.transactions[0].clone()
    });
    let (headers, txs, _, _, changes, _) = flatten_batch(vec![b1, b2]);
    let seqs: Vec<u64> = headers.iter().map(|h| h.sequence_number).collect();
    assert_eq!(seqs, vec![3, 4]);
    let tx_seqs: Vec<u64> = txs.iter().map(|t| t.tx_sequence_number).collect();
    assert_eq!(tx_seqs, vec![10, 11]);
    assert_eq!(changes.len(), 2);
}
