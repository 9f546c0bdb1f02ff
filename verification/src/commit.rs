//! The commit side of the pipeline.
//!
//! The committer drains batches of per-checkpoint results, flattens their
//! rows per table in checkpoint order, writes every data table, and only
//! then writes the checkpoint headers: the checkpoint row is the commit
//! marker, so after a crash the tables may run ahead of the headers but
//! never behind, and a replay of the same batch converges.

use vstd::prelude::*;

use crate::store::{
    StoreState, TemporaryCheckpointStoreV2, TransactionObjectChangesV2,
};
use crate::types::{
    IndexedCheckpoint, IndexedEvent, IndexedPackage, IndexedTransaction, TxIndex,
};

verus! {

/// The header rows of a batch, in order.
pub open spec fn flat_headers(bs: Seq<TemporaryCheckpointStoreV2>) -> Seq<IndexedCheckpoint>
    decreases bs.len(),
{
    if bs.len() == 0 {
        Seq::empty()
    } else {
        flat_headers(bs.drop_last()).push(bs.last().checkpoint)
    }
}

/// The transaction rows of a batch, flattened in order.
pub open spec fn flat_transactions(bs: Seq<TemporaryCheckpointStoreV2>) -> Seq<IndexedTransaction>
    decreases bs.len(),
{
    if bs.len() == 0 {
        Seq::empty()
    } else {
        flat_transactions(bs.drop_last()) + bs.last().transactions@
    }
}

/// The event rows of a batch, flattened in order.
pub open spec fn flat_events(bs: Seq<TemporaryCheckpointStoreV2>) -> Seq<IndexedEvent>
    decreases bs.len(),
{
    if bs.len() == 0 {
        Seq::empty()
    } else {
        flat_events(bs.drop_last()) + bs.last().events@
    }
}

/// The index rows of a batch, flattened in order.
pub open spec fn flat_tx_indices(bs: Seq<TemporaryCheckpointStoreV2>) -> Seq<TxIndex>
    decreases bs.len(),
{
    if bs.len() == 0 {
        Seq::empty()
    } else {
        flat_tx_indices(bs.drop_last()) + bs.last().tx_indices@
    }
}

/// The package rows of a batch, flattened in order.
pub open spec fn flat_packages(bs: Seq<TemporaryCheckpointStoreV2>) -> Seq<IndexedPackage>
    decreases bs.len(),
{
    if bs.len() == 0 {
        Seq::empty()
    } else {
        flat_packages(bs.drop_last()) + bs.last().packages@
    }
}

/// The per-checkpoint change sets of a batch, one entry each, in order.
pub open spec fn changes_list(bs: Seq<TemporaryCheckpointStoreV2>) -> Seq<
    TransactionObjectChangesV2,
>
    decreases bs.len(),
{
    if bs.len() == 0 {
        Seq::empty()
    } else {
        changes_list(bs.drop_last()).push(bs.last().object_changes)
    }
}

/// Flattens a batch into per-table row vectors, in batch order.
#[verifier::loop_isolation(false)]
pub fn flatten_batch(mut batch: Vec<TemporaryCheckpointStoreV2>) -> (r: (
    Vec<IndexedCheckpoint>,
    Vec<IndexedTransaction>,
    Vec<IndexedEvent>,
    Vec<TxIndex>,
    Vec<TransactionObjectChangesV2>,
    Vec<IndexedPackage>,
))
    ensures
        r.0@ == flat_headers(batch@),
        r.1@ == flat_transactions(batch@),
        r.2@ == flat_events(batch@),
        r.3@ == flat_tx_indices(batch@),
        r.4@ == changes_list(batch@),
        r.5@ == flat_packages(batch@),
{
    let n: usize = batch.len();
    let ghost all = batch@;
    proof {
        assert(all.len() == n);
    }
    let mut headers: Vec<IndexedCheckpoint> = Vec::new();
    let mut txs: Vec<IndexedTransaction> = Vec::new();
    let mut events: Vec<IndexedEvent> = Vec::new();
    let mut indices: Vec<TxIndex> = Vec::new();
    let mut changes: Vec<TransactionObjectChangesV2> = Vec::new();
    let mut packages: Vec<IndexedPackage> = Vec::new();
    let mut i: usize = 0;
    proof {
        assert(headers@ =~= flat_headers(all.subrange(0, 0)));
        assert(txs@ =~= flat_transactions(all.subrange(0, 0)));
        assert(events@ =~= flat_events(all.subrange(0, 0)));
        assert(indices@ =~= flat_tx_indices(all.subrange(0, 0)));
        assert(changes@ =~= changes_list(all.subrange(0, 0)));
        assert(packages@ =~= flat_packages(all.subrange(0, 0)));
    }
    while batch.len() > 0
        invariant
            i <= all.len(),
            all.len() <= usize::MAX,
            batch@ == all.subrange(i as int, all.len() as int),
            headers@ == flat_headers(all.subrange(0, i as int)),
            txs@ == flat_transactions(all.subrange(0, i as int)),
            events@ == flat_events(all.subrange(0, i as int)),
            indices@ == flat_tx_indices(all.subrange(0, i as int)),
            changes@ == changes_list(all.subrange(0, i as int)),
            packages@ == flat_packages(all.subrange(0, i as int)),
        decreases batch.len(),
    {
        let b = batch.remove(0);
        proof {
            assert(b == all[i as int]);
            assert(all.subrange(0, i + 1).drop_last() =~= all.subrange(0, i as int));
            assert(all.subrange(0, i + 1).last() == all[i as int]);
        }
        let TemporaryCheckpointStoreV2 {
            checkpoint,
            transactions: mut b_txs,
            events: mut b_events,
            tx_indices: mut b_indices,
            object_changes,
            packages: mut b_packages,
        } = b;
        headers.push(checkpoint);
        changes.push(object_changes);

        let ghost pre_txs = txs@;
        let ghost btv = b_txs@;
        let bn: usize = b_txs.len();
        proof {
            assert(btv.len() == bn);
            assert(txs@ =~= pre_txs + btv.subrange(0, 0));
        }
        let mut k: usize = 0;
        while b_txs.len() > 0
            invariant
                k <= btv.len(),
                btv.len() <= usize::MAX,
                b_txs@ == btv.subrange(k as int, btv.len() as int),
                txs@ == pre_txs + btv.subrange(0, k as int),
            decreases b_txs.len(),
        {
            let row = b_txs.remove(0);
            txs.push(row);
            k = k + 1;
            proof {
                assert(b_txs@ =~= btv.subrange(k as int, btv.len() as int));
                assert(txs@ =~= pre_txs + btv.subrange(0, k as int));
            }
        }
        proof {
            assert(btv.subrange(0, k as int) =~= btv);
        }

        let ghost pre_events = events@;
        let ghost bev = b_events@;
        let ben: usize = b_events.len();
        proof {
            assert(bev.len() == ben);
            assert(events@ =~= pre_events + bev.subrange(0, 0));
        }
        let mut k2: usize = 0;
        while b_events.len() > 0
            invariant
                k2 <= bev.len(),
                bev.len() <= usize::MAX,
                b_events@ == bev.subrange(k2 as int, bev.len() as int),
                events@ == pre_events + bev.subrange(0, k2 as int),
            decreases b_events.len(),
        {
            let row = b_events.remove(0);
            events.push(row);
            k2 = k2 + 1;
            proof {
                assert(b_events@ =~= bev.subrange(k2 as int, bev.len() as int));
                assert(events@ =~= pre_events + bev.subrange(0, k2 as int));
            }
        }
        proof {
            assert(bev.subrange(0, k2 as int) =~= bev);
        }

        let ghost pre_idx = indices@;
        let ghost biv = b_indices@;
        let bin: usize = b_indices.len();
        proof {
            assert(biv.len() == bin);
            assert(indices@ =~= pre_idx + biv.subrange(0, 0));
        }
        let mut k3: usize = 0;
        while b_indices.len() > 0
            invariant
                k3 <= biv.len(),
                biv.len() <= usize::MAX,
                b_indices@ == biv.subrange(k3 as int, biv.len() as int),
                indices@ == pre_idx + biv.subrange(0, k3 as int),
            decreases b_indices.len(),
        {
            let row = b_indices.remove(0);
            indices.push(row);
            k3 = k3 + 1;
            proof {
                assert(b_indices@ =~= biv.subrange(k3 as int, biv.len() as int));
                assert(indices@ =~= pre_idx + biv.subrange(0, k3 as int));
            }
        }
        proof {
            assert(biv.subrange(0, k3 as int) =~= biv);
        }

        let ghost pre_pkg = packages@;
        let ghost bpv = b_packages@;
        let bpn: usize = b_packages.len();
        proof {
            assert(bpv.len() == bpn);
            assert(packages@ =~= pre_pkg + bpv.subrange(0, 0));
        }
        let mut k4: usize = 0;
        while b_packages.len() > 0
            invariant
                k4 <= bpv.len(),
                bpv.len() <= usize::MAX,
                b_packages@ == bpv.subrange(k4 as int, bpv.len() as int),
                packages@ == pre_pkg + bpv.subrange(0, k4 as int),
            decreases b_packages.len(),
        {
            let row = b_packages.remove(0);
            packages.push(row);
            k4 = k4 + 1;
            proof {
                assert(b_packages@ =~= bpv.subrange(k4 as int, bpv.len() as int));
                assert(packages@ =~= pre_pkg + bpv.subrange(0, k4 as int));
            }
        }
        proof {
            assert(bpv.subrange(0, k4 as int) =~= bpv);
        }

        i = i + 1;
        proof {
            assert(batch@ =~= all.subrange(i as int, all.len() as int));
            assert(headers@ =~= flat_headers(all.subrange(0, i as int)));
            assert(changes@ =~= changes_list(all.subrange(0, i as int)));
        }
    }
    proof {
        assert(all.subrange(0, i as int) =~= all);
    }
    (headers, txs, events, indices, changes, packages)
}

/// Writes everything a batch derived except the checkpoint headers: the
/// transaction, index, event, object and package tables, each written as
/// its persist operation states. These writes touch disjoint tables.
pub fn commit_data_stage(
    store: &mut StoreState,
    transactions: Vec<IndexedTransaction>,
    tx_indices: Vec<TxIndex>,
    events: Vec<IndexedEvent>,
    object_changes: Vec<TransactionObjectChangesV2>,
    packages: Vec<IndexedPackage>,
)
    requires
        old(store).wf(),
    ensures
        final(store).wf(),
        final(store).transactions@ == crate::store::insert_rows(
            old(store).transactions@,
            transactions@,
            StoreState::transaction_key(),
        ),
        final(store).tx_indices@ == crate::store::insert_rows(
            old(store).tx_indices@,
            tx_indices@,
            StoreState::tx_index_key(),
        ),
        final(store).events@ == crate::store::insert_rows(
            old(store).events@,
            events@,
            StoreState::event_key(),
        ),
        final(store).objects@ == crate::store::delete_ids(
            crate::store::upsert_objects(
                old(store).objects@,
                crate::store::latest_wins(crate::store::flat_changed(object_changes@)),
            ),
            crate::types::dedup_first(
                crate::store::ref_ids(crate::store::flat_deleted(object_changes@)),
            ),
        ),
        final(store).packages@ == crate::store::insert_rows(
            old(store).packages@,
            packages@,
            StoreState::package_key(),
        ),
        final(store).checkpoints@ == old(store).checkpoints@,
        final(store).epochs@ == old(store).epochs@,
{
    store.persist_transactions(transactions);
    store.persist_tx_indices(tx_indices);
    store.persist_events(events);
    store.persist_object_changes(object_changes);
    store.persist_packages(packages);
}

/// Commits one drained batch: flattens it, writes every data table, and
/// writes the checkpoint headers last — the commit marker. A crash before
/// the marker leaves the data tables ahead; replaying the batch converges
/// to the same store.
pub fn commit_checkpoint_batch(store: &mut StoreState, batch: Vec<TemporaryCheckpointStoreV2>)
    requires
        old(store).wf(),
    ensures
        final(store).wf(),
        final(store).transactions@ == crate::store::insert_rows(
            old(store).transactions@,
            flat_transactions(batch@),
            StoreState::transaction_key(),
        ),
        final(store).tx_indices@ == crate::store::insert_rows(
            old(store).tx_indices@,
            flat_tx_indices(batch@),
            StoreState::tx_index_key(),
        ),
        final(store).events@ == crate::store::insert_rows(
            old(store).events@,
            flat_events(batch@),
            StoreState::event_key(),
        ),
        final(store).objects@ == crate::store::delete_ids(
            crate::store::upsert_objects(
                old(store).objects@,
                crate::store::latest_wins(crate::store::flat_changed(changes_list(batch@))),
            ),
            crate::types::dedup_first(
                crate::store::ref_ids(crate::store::flat_deleted(changes_list(batch@))),
            ),
        ),
        final(store).packages@ == crate::store::insert_rows(
            old(store).packages@,
            flat_packages(batch@),
            StoreState::package_key(),
        ),
        final(store).checkpoints@ == crate::store::insert_rows(
            old(store).checkpoints@,
            flat_headers(batch@),
            StoreState::checkpoint_key(),
        ),
        final(store).epochs@ == old(store).epochs@,
{
    let (headers, transactions, events, tx_indices, object_changes, packages) = flatten_batch(
        batch,
    );
    commit_data_stage(store, transactions, tx_indices, events, object_changes, packages);
    store.persist_checkpoints(headers);
}

} // verus!
