use sui_indexer::changes::TxChangesProcessor;
use sui_indexer::handler::{index_epoch, CheckpointHandler};
use sui_indexer::object_cache::InMemObjectCache;
use sui_indexer::store::{InterimModuleResolver, StoreState};
use sui_indexer::types::{
    ChangedObject, CheckpointContents, CheckpointData, CheckpointSummary, CheckpointTransaction,
    CoinInfo, DynamicFieldContent, DynamicFieldType, EpochEventPayload, Event, IndexedCheckpoint,
    IndexerError, MoveObject, MovePackage, ObjRef, Object, ObjectData, Owner, StructTag,
    SystemStateSummary, TransactionData, TransactionEffects, DYNAMIC_FIELD_MODULE,
    DYNAMIC_FIELD_STRUCT, SUI_FRAMEWORK_ADDRESS, SUI_SYSTEM_STATE_OBJECT_ID,
};

fn plain_tag(n: u64) -> StructTag {
    StructTag { package: 100, module: 1, name: n }
}

fn move_obj(id: u64, version: u64, digest: u64, owner: Owner) -> Object {
    Object {
        id,
        version,
        digest,
        owner,
        data: ObjectData::MoveData(MoveObject {
            type_: plain_tag(7),
            coin: None,
            field: None,
            system_state: None,
        }),
    }
}

fn coin_obj(id: u64, version: u64, digest: u64, owner: Owner, coin_type: u64, balance: u64) -> Object {
    Object {
        id,
        version,
        digest,
        owner,
        data: ObjectData::MoveData(MoveObject {
            type_: plain_tag(8),
            coin: Some(CoinInfo { coin_type, balance }),
            field: None,
            system_state: None,
        }),
    }
}

fn system_state_obj(epoch: u64, start_ts: u64) -> Object {
    Object {
        id: SUI_SYSTEM_STATE_OBJECT_ID,
        version: 1,
        digest: 55,
        owner: Owner::Shared,
        data: ObjectData::MoveData(MoveObject {
            type_: plain_tag(5),
            coin: None,
            field: None,
            system_state: Some(SystemStateSummary {
                epoch,
                protocol_version: 9,
                reference_gas_price: 700,
                epoch_start_timestamp_ms: start_ts,
                validator_count: 4,
            }),
        }),
    }
}

fn empty_effects() -> TransactionEffects {
    TransactionEffects {
        status_ok: true,
        modified_at_versions: Vec::new(),
        changed_objects: Vec::new(),
        deleted: Vec::new(),
        wrapped: Vec::new(),
        unwrapped_then_deleted: Vec::new(),
    }
}

fn plain_tx(sender: u64) -> TransactionData {
    TransactionData {
        sender,
        is_system_tx: false,
        num_commands: 1,
        input_objects: Vec::new(),
        move_calls: Vec::new(),
    }
}

fn summary(seq: u64, epoch: u64, total: u64, ts: u64) -> CheckpointSummary {
    CheckpointSummary {
        sequence_number: seq,
        epoch,
        network_total_transactions: total,
        timestamp_ms: ts,
        end_of_epoch_data: None,
        digest: 1000 + seq,
    }
}

#[test]
fn genesis_checkpoint_opens_epoch_zero() {
    // checkpoint 0 with one transaction creating object 71 at version 1
    let mut fx = empty_effects();
    fx.changed_objects.push(ChangedObject {
        oref: ObjRef { id: 71, version: 1, digest: 11 },
        owner: Owner::AddressOwner(900),
        write_kind: sui_indexer::types::WriteKind::Create,
    });
    let data = CheckpointData {
        checkpoint_summary: summary(0, 0, 1, 5_000),
        checkpoint_contents: CheckpointContents { digest: 42 },
        transactions: vec![CheckpointTransaction {
            data: plain_tx(900),
            digest: 600,
            effects: fx,
            events: None,
        }],
        objects: vec![move_obj(71, 1, 11, Owner::AddressOwner(900)), system_state_obj(0, 4_000)],
    };
    let store = StoreState::new();
    let mut handler = CheckpointHandler::new();
    let remote: Vec<Object> = Vec::new();
    let (batch, epoch) = handler.process_checkpoint(&data, &store, &remote).unwrap();

    assert_eq!(batch.transactions.len(), 1);
    assert_eq!(batch.transactions[0].tx_sequence_number, 0);
    assert_eq!(batch.checkpoint.sequence_number, 0);
    assert_eq!(batch.object_changes.changed_objects.len(), 1);
    let mutated: Vec<(u64, u64)> = batch
        .object_changes
        .changed_objects
        .iter()
        .map(|r| (r.object.id, r.object.version))
        .collect();
    assert!(mutated.contains(&(71, 1)));
    assert!(batch.object_changes.deleted_objects.is_empty());
    assert!(batch.packages.is_empty());

    let epoch = epoch.expect("genesis must open an epoch");
    assert!(epoch.last_epoch.is_none());
    assert_eq!(epoch.new_epoch.epoch, 0);
    assert_eq!(epoch.new_epoch.first_checkpoint_id, 0);
    assert_eq!(epoch.new_epoch.epoch_start_timestamp, 4_000);
}

#[test]
fn two_writes_same_checkpoint_keep_highest_version() {
    // checkpoint 7: tx_x mutates object 71 to v4, tx_y mutates it to v5
    let mut fx_x = empty_effects();
    fx_x.modified_at_versions.push((71, 3));
    fx_x.changed_objects.push(ChangedObject {
        oref: ObjRef { id: 71, version: 4, digest: 24 },
        owner: Owner::AddressOwner(900),
        write_kind: sui_indexer::types::WriteKind::Mutate,
    });
    let mut fx_y = empty_effects();
    fx_y.modified_at_versions.push((71, 4));
    fx_y.changed_objects.push(ChangedObject {
        oref: ObjRef { id: 71, version: 5, digest: 25 },
        owner: Owner::AddressOwner(900),
        write_kind: sui_indexer::types::WriteKind::Mutate,
    });
    let data = CheckpointData {
        checkpoint_summary: summary(7, 0, 102, 9_000),
        checkpoint_contents: CheckpointContents { digest: 43 },
        transactions: vec![
            CheckpointTransaction { data: plain_tx(900), digest: 601, effects: fx_x, events: None },
            CheckpointTransaction { data: plain_tx(901), digest: 602, effects: fx_y, events: None },
        ],
        objects: vec![
            move_obj(71, 4, 24, Owner::AddressOwner(900)),
            move_obj(71, 5, 25, Owner::AddressOwner(900)),
        ],
    };
    let mut store = StoreState::new();
    // the predecessor checkpoint's row resolves the starting sequence number
    store.checkpoints.push(IndexedCheckpoint {
        sequence_number: 6,
        checkpoint_digest: 1006,
        epoch: 0,
        network_total_transactions: 100,
        timestamp_ms: 8_000,
        successful_tx_num: 0,
        end_of_epoch_data: None,
        contents_digest: 0,
    });
    // the pre-image of tx_x lives only in the durable store
    store.objects.push(move_obj(71, 3, 23, Owner::AddressOwner(900)));
    let mut handler = CheckpointHandler::new();
    let remote: Vec<Object> = Vec::new();
    let (batch, epoch) = handler.process_checkpoint(&data, &store, &remote).unwrap();

    assert!(epoch.is_none());
    assert_eq!(batch.transactions.len(), 2);
    assert_eq!(batch.transactions[0].tx_sequence_number, 100);
    assert_eq!(batch.transactions[1].tx_sequence_number, 101);
    // only the highest version of the object is retained as a mutation
    assert_eq!(batch.object_changes.changed_objects.len(), 1);
    assert_eq!(batch.object_changes.changed_objects[0].object.id, 71);
    assert_eq!(batch.object_changes.changed_objects[0].object.version, 5);
}

#[test]
fn deletion_supersedes_mutation() {
    // checkpoint 12: object 71 is mutated to v6 and then deleted at v7;
    // only the mutated snapshot ships — the deleted version leaves none
    let mut fx = empty_effects();
    fx.modified_at_versions.push((71, 5));
    fx.changed_objects.push(ChangedObject {
        oref: ObjRef { id: 71, version: 6, digest: 26 },
        owner: Owner::AddressOwner(900),
        write_kind: sui_indexer::types::WriteKind::Mutate,
    });
    fx.deleted.push(ObjRef { id: 71, version: 7, digest: 27 });
    let data = CheckpointData {
        checkpoint_summary: summary(12, 0, 201, 10_000),
        checkpoint_contents: CheckpointContents { digest: 44 },
        transactions: vec![CheckpointTransaction {
            data: plain_tx(900),
            digest: 603,
            effects: fx,
            events: None,
        }],
        objects: vec![move_obj(71, 6, 26, Owner::AddressOwner(900))],
    };
    let mut store = StoreState::new();
    store.checkpoints.push(IndexedCheckpoint {
        sequence_number: 11,
        checkpoint_digest: 1011,
        epoch: 0,
        network_total_transactions: 200,
        timestamp_ms: 9_900,
        successful_tx_num: 0,
        end_of_epoch_data: None,
        contents_digest: 0,
    });
    store.objects.push(move_obj(71, 5, 22, Owner::AddressOwner(900)));
    let mut handler = CheckpointHandler::new();
    let remote: Vec<Object> = Vec::new();
    let (batch, _) = handler.process_checkpoint(&data, &store, &remote).unwrap();

    // no mutation for (71, 6); the deletion for (71, 7) is recorded
    assert!(batch.object_changes.changed_objects.is_empty());
    assert_eq!(batch.object_changes.deleted_objects.len(), 1);
    assert_eq!(batch.object_changes.deleted_objects[0].id, 71);
    assert_eq!(batch.object_changes.deleted_objects[0].version, 7);
}

#[test]
fn wrap_blocks_mutation_of_same_object() {
    // one transaction creates the object, a later one wraps it: the wrap
    // leaves no mutation for the object
    let mut fx1 = empty_effects();
    fx1.changed_objects.push(ChangedObject {
        oref: ObjRef { id: 72, version: 3, digest: 30 },
        owner: Owner::AddressOwner(900),
        write_kind: sui_indexer::types::WriteKind::Create,
    });
    let mut fx2 = empty_effects();
    fx2.wrapped.push(ObjRef { id: 72, version: 3, digest: 30 });
    let data = CheckpointData {
        checkpoint_summary: summary(0, 0, 2, 1_000),
        checkpoint_contents: CheckpointContents { digest: 45 },
        transactions: vec![
            CheckpointTransaction { data: plain_tx(900), digest: 604, effects: fx1, events: None },
            CheckpointTransaction { data: plain_tx(901), digest: 608, effects: fx2, events: None },
        ],
        objects: vec![move_obj(72, 3, 30, Owner::AddressOwner(900)), system_state_obj(0, 500)],
    };
    let store = StoreState::new();
    let mut handler = CheckpointHandler::new();
    let remote: Vec<Object> = Vec::new();
    let (batch, _) = handler.process_checkpoint(&data, &store, &remote).unwrap();
    assert!(batch.object_changes.changed_objects.is_empty());
    assert_eq!(batch.object_changes.deleted_objects.len(), 1);
}

#[test]
fn end_of_epoch_records() {
    // the last checkpoint of the ended epoch: the system state already
    // shows epoch 4, the network total is 1000, the previous epoch ended
    // at 700
    let mut summary_c = summary(20, 3, 1_000, 20_000);
    summary_c.end_of_epoch_data = Some(77);
    let event = Event {
        contents: 5,
        epoch_payload: Some(EpochEventPayload {
            protocol_version: 10,
            reference_gas_price: 750,
            total_stake: 1_000_000,
            storage_fund_reinvestment: 1,
            storage_charge: 2,
            storage_rebate: 3,
            leftover_storage_fund_inflow: 4,
            stake_subsidy_amount: 5,
            storage_fund_balance: 6,
            total_gas_fees: 7,
            total_stake_rewards_distributed: 8,
        }),
    };
    let data = CheckpointData {
        checkpoint_summary: summary_c,
        checkpoint_contents: CheckpointContents { digest: 46 },
        transactions: vec![CheckpointTransaction {
            data: plain_tx(900),
            digest: 605,
            effects: empty_effects(),
            events: Some(vec![event]),
        }],
        objects: vec![system_state_obj(4, 19_999)],
    };
    let mut store = StoreState::new();
    // rows of the epoch before the ended one; their greatest total is 700
    store.checkpoints.push(IndexedCheckpoint {
        sequence_number: 10,
        checkpoint_digest: 1010,
        epoch: 2,
        network_total_transactions: 650,
        timestamp_ms: 15_000,
        successful_tx_num: 0,
        end_of_epoch_data: None,
        contents_digest: 0,
    });
    store.checkpoints.push(IndexedCheckpoint {
        sequence_number: 11,
        checkpoint_digest: 1011,
        epoch: 2,
        network_total_transactions: 700,
        timestamp_ms: 16_000,
        successful_tx_num: 0,
        end_of_epoch_data: None,
        contents_digest: 0,
    });
    let rec = index_epoch(&data, &store).unwrap().expect("end of epoch must yield records");
    let last = rec.last_epoch.expect("the ended epoch must be closed");
    assert_eq!(last.epoch, 3);
    assert_eq!(last.epoch_total_transactions, 300);
    assert_eq!(last.end_of_epoch_info.last_checkpoint_id, 20);
    assert_eq!(last.end_of_epoch_info.protocol_version, 10);
    assert_eq!(rec.new_epoch.epoch, 4);
    assert_eq!(rec.new_epoch.first_checkpoint_id, 21);
}

#[test]
fn remote_fallback_supplies_missing_version() {
    // the store holds object 71 only at v9; the effects reference v8;
    // the remote tier supplies it
    let cache = InMemObjectCache::new();
    let mut store = StoreState::new();
    store.objects.push(move_obj(71, 9, 29, Owner::AddressOwner(900)));
    let remote = vec![move_obj(71, 8, 28, Owner::AddressOwner(900))];
    let processor = TxChangesProcessor::new(&cache, &store, &remote);
    let o = processor.get_object(71, 8).unwrap();
    assert_eq!(o.version, 8);
    assert_eq!(o.digest, 28);

    // a miss everywhere is a full-node reading failure
    let err = processor.get_object(71, 7).unwrap_err();
    assert_eq!(err, IndexerError::FullNodeReading);
}

#[test]
fn dynamic_object_field_points_at_payload() {
    // wrapper 80 points at payload 81; the name type's module was
    // published in the same checkpoint
    let wrapper = Object {
        id: 80,
        version: 2,
        digest: 82,
        owner: Owner::ObjectOwner(79),
        data: ObjectData::MoveData(MoveObject {
            type_: StructTag {
                package: SUI_FRAMEWORK_ADDRESS,
                module: DYNAMIC_FIELD_MODULE,
                name: DYNAMIC_FIELD_STRUCT,
            },
            coin: None,
            field: Some(DynamicFieldContent {
                kind: DynamicFieldType::DynamicObject,
                name_type: StructTag { package: 300, module: 2, name: 9 },
                value_type: StructTag { package: 300, module: 2, name: 10 },
                bcs_name: 777,
                child_id: 81,
            }),
            system_state: None,
        }),
    };
    let payload = move_obj(81, 3, 83, Owner::ObjectOwner(80));
    let package = Object {
        id: 300,
        version: 1,
        digest: 84,
        owner: Owner::Immutable,
        data: ObjectData::PackageData(MovePackage {
            modules: vec![sui_indexer::types::MoveModule { name: 2, bytes: 4040 }],
        }),
    };
    let mut fx = empty_effects();
    for o in [&wrapper, &payload, &package] {
        fx.changed_objects.push(ChangedObject {
            oref: ObjRef { id: o.id, version: o.version, digest: o.digest },
            owner: o.owner,
            write_kind: sui_indexer::types::WriteKind::Create,
        });
    }
    let data = CheckpointData {
        checkpoint_summary: summary(0, 0, 1, 2_000),
        checkpoint_contents: CheckpointContents { digest: 47 },
        transactions: vec![CheckpointTransaction {
            data: plain_tx(900),
            digest: 606,
            effects: fx,
            events: None,
        }],
        objects: vec![
            sui_indexer::types::copy_object(&wrapper),
            sui_indexer::types::copy_object(&payload),
            sui_indexer::types::copy_object(&package),
            system_state_obj(0, 1_500),
        ],
    };
    let store = StoreState::new();
    let mut handler = CheckpointHandler::new();
    let remote: Vec<Object> = Vec::new();
    let (batch, _) = handler.process_checkpoint(&data, &store, &remote).unwrap();

    assert_eq!(batch.packages.len(), 1);
    assert_eq!(batch.packages[0].package_id, 300);

    let wrapper_row = batch
        .object_changes
        .changed_objects
        .iter()
        .find(|r| r.object.id == 80)
        .expect("the wrapper must be retained");
    let info = wrapper_row.df_info.as_ref().expect("wrapper must carry field metadata");
    assert_eq!(info.kind, DynamicFieldType::DynamicObject);
    assert_eq!(info.object_id, 81);
    assert_eq!(info.version, 3);
    assert_eq!(info.digest, 83);
    assert_eq!(info.object_type, plain_tag(7));
    assert_eq!(info.bcs_name, 777);
    // the payload row itself carries no field metadata
    let payload_row = batch
        .object_changes
        .changed_objects
        .iter()
        .find(|r| r.object.id == 81)
        .unwrap();
    assert!(payload_row.df_info.is_none());
}

#[test]
fn inline_dynamic_field_reports_its_own_coordinates() {
    let wrapper = Object {
        id: 90,
        version: 5,
        digest: 95,
        owner: Owner::ObjectOwner(79),
        data: ObjectData::MoveData(MoveObject {
            type_: StructTag {
                package: SUI_FRAMEWORK_ADDRESS,
                module: DYNAMIC_FIELD_MODULE,
                name: DYNAMIC_FIELD_STRUCT,
            },
            coin: None,
            field: Some(DynamicFieldContent {
                kind: DynamicFieldType::DynamicField,
                name_type: StructTag { package: 300, module: 2, name: 9 },
                value_type: StructTag { package: 300, module: 2, name: 10 },
                bcs_name: 778,
                child_id: 90,
            }),
            system_state: None,
        }),
    };
    let mut cache = InMemObjectCache::new();
    let packages = vec![sui_indexer::types::IndexedPackage {
        package_id: 300,
        move_package: MovePackage {
            modules: vec![sui_indexer::types::MoveModule { name: 2, bytes: 4040 }],
        },
    }];
    cache.insert_packages(&packages);
    let store = StoreState::new();
    let resolver = InterimModuleResolver::new(&store.packages, &cache);
    let written = vec![sui_indexer::types::copy_object(&wrapper)];
    let info = sui_indexer::handler::try_create_dynamic_field_info(&wrapper, &written, &resolver)
        .unwrap()
        .expect("wrapper must yield metadata");
    assert_eq!(info.kind, DynamicFieldType::DynamicField);
    assert_eq!(info.object_id, 90);
    assert_eq!(info.version, 5);
    assert_eq!(info.digest, 95);
    assert_eq!(info.object_type, StructTag { package: 300, module: 2, name: 10 });
}

#[test]
fn dynamic_object_missing_payload_is_fatal() {
    let wrapper = Object {
        id: 80,
        version: 2,
        digest: 82,
        owner: Owner::ObjectOwner(79),
        data: ObjectData::MoveData(MoveObject {
            type_: StructTag {
                package: SUI_FRAMEWORK_ADDRESS,
                module: DYNAMIC_FIELD_MODULE,
                name: DYNAMIC_FIELD_STRUCT,
            },
            coin: None,
            field: Some(DynamicFieldContent {
                kind: DynamicFieldType::DynamicObject,
                name_type: StructTag { package: 300, module: 2, name: 9 },
                value_type: StructTag { package: 300, module: 2, name: 10 },
                bcs_name: 777,
                child_id: 81,
            }),
            system_state: None,
        }),
    };
    let mut cache = InMemObjectCache::new();
    let packages = vec![sui_indexer::types::IndexedPackage {
        package_id: 300,
        move_package: MovePackage {
            modules: vec![sui_indexer::types::MoveModule { name: 2, bytes: 4040 }],
        },
    }];
    cache.insert_packages(&packages);
    let store = StoreState::new();
    let resolver = InterimModuleResolver::new(&store.packages, &cache);
    let written: Vec<Object> = Vec::new();
    let err = sui_indexer::handler::try_create_dynamic_field_info(&wrapper, &written, &resolver)
        .unwrap_err();
    assert_eq!(err, IndexerError::InvariantViolation);
}

#[test]
fn unresolvable_name_type_module_fails_resolution() {
    let wrapper = Object {
        id: 80,
        version: 2,
        digest: 82,
        owner: Owner::ObjectOwner(79),
        data: ObjectData::MoveData(MoveObject {
            type_: StructTag {
                package: SUI_FRAMEWORK_ADDRESS,
                module: DYNAMIC_FIELD_MODULE,
                name: DYNAMIC_FIELD_STRUCT,
            },
            coin: None,
            field: Some(DynamicFieldContent {
                kind: DynamicFieldType::DynamicField,
                name_type: StructTag { package: 301, module: 2, name: 9 },
                value_type: StructTag { package: 301, module: 2, name: 10 },
                bcs_name: 777,
                child_id: 80,
            }),
            system_state: None,
        }),
    };
    let cache = InMemObjectCache::new();
    let store = StoreState::new();
    let resolver = InterimModuleResolver::new(&store.packages, &cache);
    let written: Vec<Object> = Vec::new();
    let err = sui_indexer::handler::try_create_dynamic_field_info(&wrapper, &written, &resolver)
        .unwrap_err();
    assert_eq!(err, IndexerError::ModuleResolution);
}

#[test]
fn missing_start_is_fatal() {
    // a non-genesis checkpoint with no remembered start and no store row
    let data = CheckpointData {
        checkpoint_summary: summary(5, 0, 10, 3_000),
        checkpoint_contents: CheckpointContents { digest: 48 },
        transactions: Vec::new(),
        objects: Vec::new(),
    };
    let store = StoreState::new();
    let mut handler = CheckpointHandler::new();
    let remote: Vec<Object> = Vec::new();
    let err = handler.process_checkpoint(&data, &store, &remote).unwrap_err();
    assert_eq!(err, IndexerError::InvariantViolation);
}

#[test]
fn missing_epoch_event_is_fatal() {
    let mut summary_c = summary(20, 3, 1_000, 20_000);
    summary_c.end_of_epoch_data = Some(77);
    let data = CheckpointData {
        checkpoint_summary: summary_c,
        checkpoint_contents: CheckpointContents { digest: 49 },
        transactions: vec![CheckpointTransaction {
            data: plain_tx(900),
            digest: 607,
            effects: empty_effects(),
            events: None,
        }],
        objects: vec![system_state_obj(4, 19_999)],
    };
    let store = StoreState::new();
    let err = index_epoch(&data, &store).unwrap_err();
    assert_eq!(err, IndexerError::InvariantViolation);
}

#[test]
fn balance_changes_net_per_owner_and_coin() {
    // a coin of type 3 moves from owner 900 (100 units at v4) to owner
    // 901 (60 units at v5), the rest burned
    let mut cache = InMemObjectCache::new();
    cache.insert_object(coin_obj(71, 5, 25, Owner::AddressOwner(901), 3, 60));
    let mut store = StoreState::new();
    store.objects.push(coin_obj(71, 4, 24, Owner::AddressOwner(900), 3, 100));
    let remote: Vec<Object> = Vec::new();
    let processor = TxChangesProcessor::new(&cache, &store, &remote);
    let mut fx = empty_effects();
    fx.modified_at_versions.push((71, 4));
    fx.changed_objects.push(ChangedObject {
        oref: ObjRef { id: 71, version: 5, digest: 25 },
        owner: Owner::AddressOwner(901),
        write_kind: sui_indexer::types::WriteKind::Mutate,
    });
    let bc = processor.balance_changes(&fx).unwrap();
    assert_eq!(bc.len(), 2);
    assert_eq!(bc[0].owner, Owner::AddressOwner(900));
    assert_eq!(bc[0].coin_type, 3);
    assert_eq!(bc[0].amount, -100);
    assert_eq!(bc[1].owner, Owner::AddressOwner(901));
    assert_eq!(bc[1].coin_type, 3);
    assert_eq!(bc[1].amount, 60);
}

#[test]
fn object_change_records_classify_writes() {
    let mut cache = InMemObjectCache::new();
    cache.insert_object(move_obj(71, 5, 25, Owner::AddressOwner(901)));
    cache.insert_object(move_obj(71, 4, 24, Owner::AddressOwner(900)));
    let store = StoreState::new();
    let remote: Vec<Object> = Vec::new();
    let processor = TxChangesProcessor::new(&cache, &store, &remote);
    let mut fx = empty_effects();
    fx.modified_at_versions.push((71, 4));
    fx.changed_objects.push(ChangedObject {
        oref: ObjRef { id: 71, version: 5, digest: 25 },
        owner: Owner::AddressOwner(901),
        write_kind: sui_indexer::types::WriteKind::Mutate,
    });
    fx.deleted.push(ObjRef { id: 75, version: 2, digest: 9 });
    let (_, oc) = processor.get_changes(&plain_tx(900), &fx).unwrap();
    assert_eq!(oc.len(), 2);
    // the owner changed between v4 and v5, so the record is a transfer
    match &oc[0] {
        sui_indexer::types::ObjectChange::Transferred { object_id, version, recipient, .. } => {
            assert_eq!(*object_id, 71);
            assert_eq!(*version, 5);
            assert_eq!(*recipient, Owner::AddressOwner(901));
        }
        other => panic!("expected a transfer, got {:?}", other),
    }
    match &oc[1] {
        sui_indexer::types::ObjectChange::Deleted { object_id, version, .. } => {
            assert_eq!(*object_id, 75);
            assert_eq!(*version, 2);
        }
        other => panic!("expected a deletion, got {:?}", other),
    }
}

#[test]
fn sequence_numbers_run_gap_free_across_checkpoints() {
    let store = StoreState::new();
    let mut handler = CheckpointHandler::new();
    let remote: Vec<Object> = Vec::new();

    // checkpoint 0 with two transactions: sequence numbers 0 and 1
    let data0 = CheckpointData {
        checkpoint_summary: summary(0, 0, 2, 1_000),
        checkpoint_contents: CheckpointContents { digest: 50 },
        transactions: vec![
            CheckpointTransaction { data: plain_tx(900), digest: 700, effects: empty_effects(), events: None },
            CheckpointTransaction { data: plain_tx(901), digest: 701, effects: empty_effects(), events: None },
        ],
        objects: vec![system_state_obj(0, 900)],
    };
    let (batch0, _) = handler.process_checkpoint(&data0, &store, &remote).unwrap();
    let seqs0: Vec<u64> = batch0.transactions.iter().map(|t| t.tx_sequence_number).collect();
    assert_eq!(seqs0, vec![0, 1]);

    // checkpoint 1 resolves its start from the in-memory record
    let data1 = CheckpointData {
        checkpoint_summary: summary(1, 0, 3, 2_000),
        checkpoint_contents: CheckpointContents { digest: 51 },
        transactions: vec![CheckpointTransaction {
            data: plain_tx(902),
            digest: 702,
            effects: empty_effects(),
            events: None,
        }],
        objects: Vec::new(),
    };
    let (batch1, _) = handler.process_checkpoint(&data1, &store, &remote).unwrap();
    assert_eq!(batch1.transactions[0].tx_sequence_number, 2);

    // a restarted handler resolves checkpoint 2's start from the store
    let mut store2 = StoreState::new();
    store2.persist_checkpoints(vec![IndexedCheckpoint {
        sequence_number: 1,
        checkpoint_digest: 1001,
        epoch: 0,
        network_total_transactions: 3,
        timestamp_ms: 2_000,
        successful_tx_num: 0,
        end_of_epoch_data: None,
        contents_digest: 0,
    }]);
    let mut restarted = CheckpointHandler::new();
    let data2 = CheckpointData {
        checkpoint_summary: summary(2, 0, 4, 3_000),
        checkpoint_contents: CheckpointContents { digest: 52 },
        transactions: vec![CheckpointTransaction {
            data: plain_tx(903),
            digest: 703,
            effects: empty_effects(),
            events: None,
        }],
        objects: Vec::new(),
    };
    let (batch2, _) = restarted.process_checkpoint(&data2, &store2, &remote).unwrap();
    assert_eq!(batch2.transactions[0].tx_sequence_number, 3);
}

#[test]
fn recipients_are_deduplicated_in_first_seen_order() {
    let mut fx = empty_effects();
    for (id, owner) in [
        (61u64, Owner::AddressOwner(5)),
        (62, Owner::AddressOwner(9)),
        (63, Owner::Shared),
        (64, Owner::AddressOwner(5)),
        (65, Owner::AddressOwner(2)),
    ] {
        fx.changed_objects.push(ChangedObject {
            oref: ObjRef { id, version: 1, digest: id },
            owner,
            write_kind: sui_indexer::types::WriteKind::Create,
        });
    }
    let objects: Vec<Object> = vec![
        move_obj(61, 1, 61, Owner::AddressOwner(5)),
        move_obj(62, 1, 62, Owner::AddressOwner(9)),
        move_obj(63, 1, 63, Owner::Shared),
        move_obj(64, 1, 64, Owner::AddressOwner(5)),
        move_obj(65, 1, 65, Owner::AddressOwner(2)),
        system_state_obj(0, 100),
    ];
    let data = CheckpointData {
        checkpoint_summary: summary(0, 0, 1, 1_000),
        checkpoint_contents: CheckpointContents { digest: 53 },
        transactions: vec![CheckpointTransaction {
            data: plain_tx(900),
            digest: 704,
            effects: fx,
            events: None,
        }],
        objects,
    };
    let store = StoreState::new();
    let mut handler = CheckpointHandler::new();
    let remote: Vec<Object> = Vec::new();
    let (batch, _) = handler.process_checkpoint(&data, &store, &remote).unwrap();
    assert_eq!(batch.tx_indices.len(), 1);
    assert_eq!(batch.tx_indices[0].recipients, vec![5, 9, 2]);
    assert_eq!(batch.tx_indices[0].senders, vec![900]);
}

#[test]
fn event_rows_carry_sequence_and_order() {
    let ev1 = Event { contents: 1, epoch_payload: None };
    let ev2 = Event { contents: 2, epoch_payload: None };
    let data = CheckpointData {
        checkpoint_summary: summary(0, 0, 1, 7_000),
        checkpoint_contents: CheckpointContents { digest: 54 },
        transactions: vec![CheckpointTransaction {
            data: plain_tx(900),
            digest: 705,
            effects: empty_effects(),
            events: Some(vec![ev1, ev2]),
        }],
        objects: vec![system_state_obj(0, 100)],
    };
    let store = StoreState::new();
    let mut handler = CheckpointHandler::new();
    let remote: Vec<Object> = Vec::new();
    let (batch, _) = handler.process_checkpoint(&data, &store, &remote).unwrap();
    assert_eq!(batch.events.len(), 2);
    assert_eq!(batch.events[0].tx_sequence_number, 0);
    assert_eq!(batch.events[0].event_sequence_number, 0);
    assert_eq!(batch.events[0].event.contents, 1);
    assert_eq!(batch.events[1].event_sequence_number, 1);
    assert_eq!(batch.events[1].event.contents, 2);
    assert_eq!(batch.events[1].timestamp_ms, 7_000);
    assert_eq!(batch.events[1].transaction_digest, 705);
}

#[test]
fn genesis_without_system_state_is_malformed() {
    let data = CheckpointData {
        checkpoint_summary: summary(0, 0, 0, 1_000),
        checkpoint_contents: CheckpointContents { digest: 56 },
        transactions: Vec::new(),
        objects: Vec::new(),
    };
    let store = StoreState::new();
    let err = index_epoch(&data, &store).unwrap_err();
    assert_eq!(err, IndexerError::DataTransformation);
}

#[test]
fn wrapper_without_parsed_field_is_malformed() {
    let wrapper = Object {
        id: 80,
        version: 2,
        digest: 82,
        owner: Owner::ObjectOwner(79),
        data: ObjectData::MoveData(MoveObject {
            type_: StructTag {
                package: SUI_FRAMEWORK_ADDRESS,
                module: DYNAMIC_FIELD_MODULE,
                name: DYNAMIC_FIELD_STRUCT,
            },
            coin: None,
            field: None,
            system_state: None,
        }),
    };
    let cache = InMemObjectCache::new();
    let store = StoreState::new();
    let resolver = InterimModuleResolver::new(&store.packages, &cache);
    let written: Vec<Object> = Vec::new();
    let err = sui_indexer::handler::try_create_dynamic_field_info(&wrapper, &written, &resolver)
        .unwrap_err();
    assert_eq!(err, IndexerError::DataTransformation);
}

#[test]
fn mutation_without_prior_version_is_fatal() {
    let mut cache = InMemObjectCache::new();
    cache.insert_object(move_obj(71, 5, 25, Owner::AddressOwner(900)));
    let store = StoreState::new();
    let remote: Vec<Object> = Vec::new();
    let processor = TxChangesProcessor::new(&cache, &store, &remote);
    let mut fx = empty_effects();
    fx.changed_objects.push(ChangedObject {
        oref: ObjRef { id: 71, version: 5, digest: 25 },
        owner: Owner::AddressOwner(900),
        write_kind: sui_indexer::types::WriteKind::Mutate,
    });
    let err = processor.get_changes(&plain_tx(900), &fx).unwrap_err();
    assert_eq!(err, IndexerError::InvariantViolation);
}
