//! Data model of the indexing core.
//!
//! On-chain entities are held as plain values: identifiers, addresses,
//! digests and type names are integers, so that every rule of the pipeline
//! can be stated and proved over them. The surrounding process converts
//! between these values and the chain's own representations.

use vstd::prelude::*;

verus! {

/// Address of the framework package that defines dynamic fields.
pub const SUI_FRAMEWORK_ADDRESS: u64 = 2;

/// Module name code of the framework's dynamic-field module.
pub const DYNAMIC_FIELD_MODULE: u64 = 1;

/// Struct name code of the dynamic-field wrapper struct `Field`.
pub const DYNAMIC_FIELD_STRUCT: u64 = 1;

/// Identifier of the singleton system-state object.
pub const SUI_SYSTEM_STATE_OBJECT_ID: u64 = 5;

/// Reference to one object version: identifier, version and content digest.
#[derive(Debug, Clone, Copy, PartialEq, Eq, Structural)]
pub struct ObjRef {
    pub id: u64,
    pub version: u64,
    pub digest: u64,
}

/// Ownership of an object version.
#[derive(Debug, Clone, Copy, PartialEq, Eq, Structural)]
pub enum Owner {
    AddressOwner(u64),
    ObjectOwner(u64),
    Shared,
    Immutable,
}

/// The two shapes a dynamic field can take.
#[derive(Debug, Clone, Copy, PartialEq, Eq, Structural)]
pub enum DynamicFieldType {
    DynamicField,
    DynamicObject,
}

/// Type of a Move object: the defining struct's name.
#[derive(Debug, Clone, Copy, PartialEq, Eq, Structural)]
pub struct StructTag {
    pub package: u64,
    pub module: u64,
    pub name: u64,
}

impl StructTag {
    /// Whether this is the framework's dynamic-field wrapper struct.
    pub open spec fn spec_is_dynamic_field(&self) -> bool {
        &&& self.package == SUI_FRAMEWORK_ADDRESS
        &&& self.module == DYNAMIC_FIELD_MODULE
        &&& self.name == DYNAMIC_FIELD_STRUCT
    }

    /// Whether this is the framework's dynamic-field wrapper struct.
    pub fn is_dynamic_field(&self) -> (r: bool)
        ensures
            r == self.spec_is_dynamic_field(),
    {
        self.package == SUI_FRAMEWORK_ADDRESS && self.module == DYNAMIC_FIELD_MODULE
            && self.name == DYNAMIC_FIELD_STRUCT
    }
}

/// Balance carried by a coin object.
#[derive(Debug, Clone, Copy, PartialEq, Eq, Structural)]
pub struct CoinInfo {
    pub coin_type: u64,
    pub balance: u64,
}

/// Content of a dynamic-field wrapper, as the chain's struct parser reports
/// it: the field name's type and serialized bytes (held as a code, like a
/// digest), the declared value type, the field's shape, and the object the
/// wrapper points at (itself, for an inline field).
#[derive(Debug, Clone, Copy, PartialEq, Eq, Structural)]
pub struct DynamicFieldContent {
    pub kind: DynamicFieldType,
    pub name_type: StructTag,
    pub value_type: StructTag,
    pub bcs_name: u64,
    pub child_id: u64,
}

/// Snapshot of the chain's system state, read from the system-state object.
#[derive(Debug, Clone, Copy, PartialEq, Eq, Structural)]
pub struct SystemStateSummary {
    pub epoch: u64,
    pub protocol_version: u64,
    pub reference_gas_price: u64,
    pub epoch_start_timestamp_ms: u64,
    pub validator_count: u64,
}

/// A Move object's payload.
#[derive(Debug, Clone, Copy, PartialEq, Eq, Structural)]
pub struct MoveObject {
    pub type_: StructTag,
    pub coin: Option<CoinInfo>,
    pub field: Option<DynamicFieldContent>,
    pub system_state: Option<SystemStateSummary>,
}

/// One serialized module of a package; the bytes are held as a code.
#[derive(Debug, Clone, Copy, PartialEq, Eq, Structural)]
pub struct MoveModule {
    pub name: u64,
    pub bytes: u64,
}

/// A published package: its serialized modules.
#[derive(Debug, Clone, PartialEq, Eq)]
pub struct MovePackage {
    pub modules: Vec<MoveModule>,
}

/// The payload of an object: Move data or package bytecode.
#[derive(Debug, Clone, PartialEq, Eq)]
pub enum ObjectData {
    MoveData(MoveObject),
    PackageData(MovePackage),
}

/// A versioned on-chain object.
#[derive(Debug, Clone, PartialEq, Eq)]
pub struct Object {
    pub id: u64,
    pub version: u64,
    pub digest: u64,
    pub owner: Owner,
    pub data: ObjectData,
}

impl Object {
    /// Type of a Move object's struct; a package has none.
    pub open spec fn spec_type_tag(&self) -> Option<StructTag> {
        match self.data {
            ObjectData::MoveData(m) => Some(m.type_),
            ObjectData::PackageData(_) => None,
        }
    }

    /// Type of a Move object's struct; a package has none.
    pub fn type_tag(&self) -> (r: Option<StructTag>)
        ensures
            r == self.spec_type_tag(),
    {
        match &self.data {
            ObjectData::MoveData(m) => Some(m.type_),
            ObjectData::PackageData(_) => None,
        }
    }

    /// Whether the payload is package bytecode.
    pub open spec fn spec_is_package(&self) -> bool {
        self.data is PackageData
    }

    /// Whether the payload is package bytecode.
    pub fn is_package(&self) -> (r: bool)
        ensures
            r == self.spec_is_package(),
    {
        match &self.data {
            ObjectData::MoveData(_) => false,
            ObjectData::PackageData(_) => true,
        }
    }
}

/// One call named by a programmable transaction.
#[derive(Debug, Clone, Copy, PartialEq, Eq, Structural)]
pub struct MoveCall {
    pub package: u64,
    pub module: u64,
    pub function: u64,
}

/// The signed payload of a transaction, reduced to what indexing reads.
#[derive(Debug, Clone, PartialEq, Eq)]
pub struct TransactionData {
    pub sender: u64,
    pub is_system_tx: bool,
    pub num_commands: u64,
    pub input_objects: Vec<u64>,
    pub move_calls: Vec<MoveCall>,
}

/// How an effect wrote an object.
#[derive(Debug, Clone, Copy, PartialEq, Eq, Structural)]
pub enum WriteKind {
    Create,
    Mutate,
    Unwrap,
}

/// One written object named by a transaction's effects.
#[derive(Debug, Clone, Copy, PartialEq, Eq, Structural)]
pub struct ChangedObject {
    pub oref: ObjRef,
    pub owner: Owner,
    pub write_kind: WriteKind,
}

/// The authoritative record of what a transaction changed.
#[derive(Debug, Clone, PartialEq, Eq)]
pub struct TransactionEffects {
    pub status_ok: bool,
    pub modified_at_versions: Vec<(u64, u64)>,
    pub changed_objects: Vec<ChangedObject>,
    pub deleted: Vec<ObjRef>,
    pub wrapped: Vec<ObjRef>,
    pub unwrapped_then_deleted: Vec<ObjRef>,
}

/// Fields of the end-of-epoch system event, already decoded.
#[derive(Debug, Clone, Copy, PartialEq, Eq, Structural)]
pub struct EpochEventPayload {
    pub protocol_version: u64,
    pub reference_gas_price: u64,
    pub total_stake: u64,
    pub storage_fund_reinvestment: u64,
    pub storage_charge: u64,
    pub storage_rebate: u64,
    pub leftover_storage_fund_inflow: u64,
    pub stake_subsidy_amount: u64,
    pub storage_fund_balance: u64,
    pub total_gas_fees: u64,
    pub total_stake_rewards_distributed: u64,
}

/// An event emitted by a transaction; its serialized payload is held as a
/// code. `epoch_payload` is present exactly when the event is the system
/// end-of-epoch event.
#[derive(Debug, Clone, Copy, PartialEq, Eq, Structural)]
pub struct Event {
    pub contents: u64,
    pub epoch_payload: Option<EpochEventPayload>,
}

impl Event {
    /// Whether this is the system end-of-epoch event.
    pub open spec fn spec_is_system_epoch_info_event(&self) -> bool {
        self.epoch_payload is Some
    }

    /// Whether this is the system end-of-epoch event.
    pub fn is_system_epoch_info_event(&self) -> (r: bool)
        ensures
            r == self.spec_is_system_epoch_info_event(),
    {
        self.epoch_payload.is_some()
    }
}

/// Header of a checkpoint: global counters and the end-of-epoch marker.
#[derive(Debug, Clone, Copy, PartialEq, Eq, Structural)]
pub struct CheckpointSummary {
    pub sequence_number: u64,
    pub epoch: u64,
    pub network_total_transactions: u64,
    pub timestamp_ms: u64,
    pub end_of_epoch_data: Option<u64>,
    pub digest: u64,
}

/// Commitments over a checkpoint's contents.
#[derive(Debug, Clone, Copy, PartialEq, Eq, Structural)]
pub struct CheckpointContents {
    pub digest: u64,
}

/// One transaction of a checkpoint, with its effects and events.
#[derive(Debug, Clone, PartialEq, Eq)]
pub struct CheckpointTransaction {
    pub data: TransactionData,
    pub digest: u64,
    pub effects: TransactionEffects,
    pub events: Option<Vec<Event>>,
}

/// A full checkpoint as the stream delivers it.
#[derive(Debug, Clone, PartialEq, Eq)]
pub struct CheckpointData {
    pub checkpoint_summary: CheckpointSummary,
    pub checkpoint_contents: CheckpointContents,
    pub transactions: Vec<CheckpointTransaction>,
    pub objects: Vec<Object>,
}

/// Kind of an indexed transaction.
#[derive(Debug, Clone, Copy, PartialEq, Eq, Structural)]
pub enum TransactionKind {
    SystemTransaction,
    ProgrammableTransaction,
}

/// A typed record of one object change, in the platform's standard shape.
#[derive(Debug, Clone, PartialEq, Eq)]
pub enum ObjectChange {
    Published { package_id: u64, version: u64, digest: u64 },
    Transferred { sender: u64, recipient: Owner, object_type: StructTag, object_id: u64, version: u64, digest: u64 },
    Mutated { sender: u64, owner: Owner, object_type: StructTag, object_id: u64, version: u64, previous_version: u64, digest: u64 },
    Created { sender: u64, owner: Owner, object_type: StructTag, object_id: u64, version: u64, digest: u64 },
    Deleted { sender: u64, object_id: u64, version: u64 },
    Wrapped { sender: u64, object_id: u64, version: u64 },
}

/// Net coin delta of one transaction for one owner and coin type.
#[derive(Debug, Clone, Copy, PartialEq, Eq, Structural)]
pub struct BalanceChange {
    pub owner: Owner,
    pub coin_type: u64,
    pub amount: i128,
}

/// Row derived for one transaction.
#[derive(Debug, Clone, PartialEq, Eq)]
pub struct IndexedTransaction {
    pub tx_sequence_number: u64,
    pub tx_digest: u64,
    pub checkpoint_sequence_number: u64,
    pub timestamp_ms: u64,
    pub transaction: TransactionData,
    pub effects: TransactionEffects,
    pub object_changes: Vec<ObjectChange>,
    pub balance_change: Vec<BalanceChange>,
    pub events: Vec<Event>,
    pub transaction_kind: TransactionKind,
    pub successful_tx_num: u64,
}

/// Row derived for one emitted event.
#[derive(Debug, Clone, Copy, PartialEq, Eq, Structural)]
pub struct IndexedEvent {
    pub tx_sequence_number: u64,
    pub event_sequence_number: u64,
    pub transaction_digest: u64,
    pub event: Event,
    pub timestamp_ms: u64,
}

/// Per-transaction index row for query tables.
#[derive(Debug, Clone, PartialEq, Eq)]
pub struct TxIndex {
    pub tx_sequence_number: u64,
    pub transaction_digest: u64,
    pub input_objects: Vec<u64>,
    pub changed_objects: Vec<u64>,
    pub senders: Vec<u64>,
    pub recipients: Vec<u64>,
    pub move_calls: Vec<MoveCall>,
}

/// Metadata derived for a dynamic-field wrapper object.
#[derive(Debug, Clone, Copy, PartialEq, Eq, Structural)]
pub struct DynamicFieldInfo {
    pub kind: DynamicFieldType,
    pub name_type: StructTag,
    pub bcs_name: u64,
    pub object_type: StructTag,
    pub object_id: u64,
    pub version: u64,
    pub digest: u64,
}

/// Row derived for one retained object mutation.
#[derive(Debug, Clone, PartialEq, Eq)]
pub struct IndexedObject {
    pub checkpoint_sequence_number: u64,
    pub object: Object,
    pub df_info: Option<DynamicFieldInfo>,
}

/// Row derived for one published package.
#[derive(Debug, Clone, PartialEq, Eq)]
pub struct IndexedPackage {
    pub package_id: u64,
    pub move_package: MovePackage,
}

/// Flat header row derived for one checkpoint.
#[derive(Debug, Clone, Copy, PartialEq, Eq, Structural)]
pub struct IndexedCheckpoint {
    pub sequence_number: u64,
    pub checkpoint_digest: u64,
    pub epoch: u64,
    pub network_total_transactions: u64,
    pub timestamp_ms: u64,
    pub successful_tx_num: u64,
    pub end_of_epoch_data: Option<u64>,
    pub contents_digest: u64,
}

impl IndexedCheckpoint {
    /// Builds the header row from a checkpoint's summary and contents.
    pub fn from_checkpoint(
        summary: &CheckpointSummary,
        contents: &CheckpointContents,
        successful_tx_num: u64,
    ) -> (r: IndexedCheckpoint)
        ensures
            r == (IndexedCheckpoint {
                sequence_number: summary.sequence_number,
                checkpoint_digest: summary.digest,
                epoch: summary.epoch,
                network_total_transactions: summary.network_total_transactions,
                timestamp_ms: summary.timestamp_ms,
                successful_tx_num: successful_tx_num,
                end_of_epoch_data: summary.end_of_epoch_data,
                contents_digest: contents.digest,
            }),
    {
        IndexedCheckpoint {
            sequence_number: summary.sequence_number,
            checkpoint_digest: summary.digest,
            epoch: summary.epoch,
            network_total_transactions: summary.network_total_transactions,
            timestamp_ms: summary.timestamp_ms,
            successful_tx_num,
            end_of_epoch_data: summary.end_of_epoch_data,
            contents_digest: contents.digest,
        }
    }
}

/// Closing figures of an ended epoch, read from the end-of-epoch event.
#[derive(Debug, Clone, Copy, PartialEq, Eq, Structural)]
pub struct EndOfEpochInfo {
    pub last_checkpoint_id: u64,
    pub epoch_end_timestamp: u64,
    pub protocol_version: u64,
    pub reference_gas_price: u64,
    pub total_stake: u64,
    pub storage_fund_reinvestment: u64,
    pub storage_charge: u64,
    pub storage_rebate: u64,
    pub leftover_storage_fund_inflow: u64,
    pub stake_subsidy_amount: u64,
    pub storage_fund_balance: u64,
    pub total_gas_fees: u64,
    pub total_stake_rewards_distributed: u64,
}

/// Row opened for an epoch at its first checkpoint.
#[derive(Debug, Clone, Copy, PartialEq, Eq, Structural)]
pub struct IndexedEpochInfo {
    pub epoch: u64,
    pub first_checkpoint_id: u64,
    pub epoch_start_timestamp: u64,
    pub validator_count: u64,
    pub reference_gas_price: u64,
    pub protocol_version: u64,
    pub epoch_total_transactions: u64,
    pub end_of_epoch_info: Option<EndOfEpochInfo>,
    pub end_of_epoch_data: Option<u64>,
}

/// Figures that close the previous epoch's row at an epoch boundary.
#[derive(Debug, Clone, Copy, PartialEq, Eq, Structural)]
pub struct IndexedEndOfEpochInfo {
    pub epoch: u64,
    pub end_of_epoch_info: EndOfEpochInfo,
    pub end_of_epoch_data: Option<u64>,
    pub epoch_total_transactions: u64,
}

/// The sequence with later repetitions removed: each value keeps its first
/// occurrence only, in order.
pub open spec fn dedup_first(s: Seq<u64>) -> Seq<u64>
    decreases s.len(),
{
    if s.len() == 0 {
        Seq::empty()
    } else {
        let d = dedup_first(s.drop_last());
        if d.contains(s.last()) {
            d
        } else {
            d.push(s.last())
        }
    }
}

/// Deduplication keeps exactly the values of the input, each once.
pub proof fn lemma_dedup_first(s: Seq<u64>)
    ensures
        forall|x: u64| dedup_first(s).contains(x) <==> s.contains(x),
        forall|i: int, j: int|
            0 <= i < j < dedup_first(s).len() ==> dedup_first(s)[i] != dedup_first(s)[j],
    decreases s.len(),
{
    if s.len() > 0 {
        lemma_dedup_first(s.drop_last());
        let d = dedup_first(s.drop_last());
        let out = dedup_first(s);
        assert forall|x: u64| out.contains(x) implies s.contains(x) by {
            let i = choose|i: int| 0 <= i < out.len() && out[i] == x;
            if i < d.len() {
                assert(d[i] == x);
                assert(d.contains(x));
                assert(s.drop_last().contains(x));
                let m = choose|m: int| 0 <= m < s.drop_last().len() && s.drop_last()[m] == x;
                assert(s[m] == x);
            } else {
                assert(out[i] == s.last());
                assert(s[s.len() - 1] == x);
            }
        }
        assert forall|x: u64| s.contains(x) implies out.contains(x) by {
            let i = choose|i: int| 0 <= i < s.len() && s[i] == x;
            if i < s.len() - 1 {
                assert(s.drop_last()[i] == x);
                assert(s.drop_last().contains(x));
                assert(d.contains(x));
                if !d.contains(s.last()) {
                    let j = choose|j: int| 0 <= j < d.len() && d[j] == x;
                    assert(out[j] == x);
                }
            } else {
                assert(x == s.last());
                if d.contains(x) {
                } else {
                    assert(out[out.len() - 1] == x);
                }
            }
        }
    }
}

/// Removes later repetitions from a list of plain values, keeping first
/// occurrences in order.
#[verifier::loop_isolation(false)]
pub fn dedup_u64(v: &Vec<u64>) -> (r: Vec<u64>)
    ensures
        r@ == dedup_first(v@),
{
    let mut r: Vec<u64> = Vec::new();
    let mut i: usize = 0;
    proof {
        assert(v@.subrange(0, 0) =~= Seq::<u64>::empty());
    }
    while i < v.len()
        invariant
            i <= v.len(),
            r@ == dedup_first(v@.subrange(0, i as int)),
        decreases v.len() - i,
    {
        let x: u64 = v[i];
        proof {
            assert(v@.subrange(0, i + 1).drop_last() =~= v@.subrange(0, i as int));
            assert(v@.subrange(0, i + 1).last() == v@[i as int]);
        }
        let mut present: bool = false;
        let mut j: usize = 0;
        while j < r.len()
            invariant
                j <= r.len(),
                present == exists|m: int| 0 <= m < j && r@[m] == x,
            decreases r.len() - j,
        {
            if r[j] == x {
                present = true;
            }
            j = j + 1;
        }
        proof {
            assert(present == r@.contains(x));
        }
        if !present {
            r.push(x);
        }
        i = i + 1;
    }
    proof {
        assert(v@.subrange(0, v@.len() as int) =~= v@);
    }
    r
}

/// Value equality of packages: the same modules in the same order.
pub open spec fn pkg_eq(a: MovePackage, b: MovePackage) -> bool {
    a.modules@ == b.modules@
}

/// Value equality of object payloads.
pub open spec fn obj_data_eq(a: ObjectData, b: ObjectData) -> bool {
    match (a, b) {
        (ObjectData::MoveData(x), ObjectData::MoveData(y)) => x == y,
        (ObjectData::PackageData(x), ObjectData::PackageData(y)) => pkg_eq(x, y),
        _ => false,
    }
}

/// Value equality of objects.
pub open spec fn obj_eq(a: Object, b: Object) -> bool {
    &&& a.id == b.id
    &&& a.version == b.version
    &&& a.digest == b.digest
    &&& a.owner == b.owner
    &&& obj_data_eq(a.data, b.data)
}

/// Value equality of transaction payloads.
pub open spec fn tx_data_eq(a: TransactionData, b: TransactionData) -> bool {
    &&& a.sender == b.sender
    &&& a.is_system_tx == b.is_system_tx
    &&& a.num_commands == b.num_commands
    &&& a.input_objects@ == b.input_objects@
    &&& a.move_calls@ == b.move_calls@
}

/// Value equality of effects.
pub open spec fn effects_eq(a: TransactionEffects, b: TransactionEffects) -> bool {
    &&& a.status_ok == b.status_ok
    &&& a.modified_at_versions@ == b.modified_at_versions@
    &&& a.changed_objects@ == b.changed_objects@
    &&& a.deleted@ == b.deleted@
    &&& a.wrapped@ == b.wrapped@
    &&& a.unwrapped_then_deleted@ == b.unwrapped_then_deleted@
}

/// Copies a vector of plain values.
pub fn copy_vec<T: Copy>(v: &Vec<T>) -> (r: Vec<T>)
    ensures
        r@ == v@,
{
    let mut r: Vec<T> = Vec::new();
    let mut i: usize = 0;
    while i < v.len()
        invariant
            i <= v.len(),
            r@ == v@.subrange(0, i as int),
        decreases v.len() - i,
    {
        let x: T = v[i];
        r.push(x);
        i = i + 1;
        proof {
            assert(r@ =~= v@.subrange(0, i as int));
        }
    }
    proof {
        assert(r@ =~= v@);
    }
    r
}

/// Copies an object, packages included.
pub fn copy_object(o: &Object) -> (r: Object)
    ensures
        obj_eq(r, *o),
{
    let data = match &o.data {
        ObjectData::MoveData(m) => ObjectData::MoveData(*m),
        ObjectData::PackageData(p) => ObjectData::PackageData(
            MovePackage { modules: copy_vec(&p.modules) },
        ),
    };
    Object { id: o.id, version: o.version, digest: o.digest, owner: o.owner, data }
}

/// Copies a transaction payload.
pub fn copy_transaction_data(t: &TransactionData) -> (r: TransactionData)
    ensures
        tx_data_eq(r, *t),
{
    TransactionData {
        sender: t.sender,
        is_system_tx: t.is_system_tx,
        num_commands: t.num_commands,
        input_objects: copy_vec(&t.input_objects),
        move_calls: copy_vec(&t.move_calls),
    }
}

/// Copies a transaction's effects.
pub fn copy_effects(e: &TransactionEffects) -> (r: TransactionEffects)
    ensures
        effects_eq(r, *e),
{
    TransactionEffects {
        status_ok: e.status_ok,
        modified_at_versions: copy_vec(&e.modified_at_versions),
        changed_objects: copy_vec(&e.changed_objects),
        deleted: copy_vec(&e.deleted),
        wrapped: copy_vec(&e.wrapped),
        unwrapped_then_deleted: copy_vec(&e.unwrapped_then_deleted),
    }
}

/// Errors of the indexing core.
#[derive(Debug, Clone, PartialEq, Eq)]
pub enum IndexerError {
    /// A durable-store read failed or lacked a row it may lack.
    StoreRead,
    /// The full node could not supply a requested object version.
    FullNodeReading,
    /// Malformed or inconsistent data inside one entity.
    DataTransformation,
    /// A module needed to parse an object could not be resolved.
    ModuleResolution,
    /// The input breaks a cross-entity invariant of the stream; the caller
    /// must stop rather than derive inconsistent rows.
    InvariantViolation,
}

} // verus!
