//! The laws of the pipeline, stated and proved over the contracts of the
//! other modules: sequence monotonicity, per-checkpoint uniqueness of
//! mutations, deletion dominance, recipient ordering, the store round
//! trip, epoch totals, replay convergence, and dynamic-object lookup.

use vstd::prelude::*;

use crate::handler::{
    all_changed, all_deleted_refs, first_at, first_by_id, latest_of, map_lookup, map_upsert,
    max_version_of, ref_contains_id, row_matches, spec_checkpoint_output, spec_df_info,
    spec_index_epoch, spec_kept, spec_recipients, spec_start, tx_changes_match, tx_index_matches,
    tx_row_matches,
};
use crate::store::{contains_key, unique_keys, StoreState};
use crate::types::{dedup_first, ChangedObject, CheckpointSummary, DynamicFieldType, Object};

verus! {

/// Writing one entry of the bookkeeping map leaves its keys distinct,
/// makes the written key read back the written value, and leaves every
/// other key unchanged.
pub proof fn lemma_map_upsert(m: Seq<(u64, u64)>, k: u64, v: u64)
    requires
        unique_keys(m, |e: (u64, u64)| e.0),
    ensures
        unique_keys(map_upsert(m, k, v), |e: (u64, u64)| e.0),
        map_lookup(map_upsert(m, k, v), k) == Some(v),
        forall|k2: u64| k2 != k ==> map_lookup(map_upsert(m, k, v), k2) == map_lookup(m, k2),
{
    let key = |e: (u64, u64)| e.0;
    if contains_key(m, key, k) {
        let j = choose|j: int| 0 <= j < m.len() && m[j].0 == k;
        lemma_update_lookup(m, j, k, v);
    } else {
        lemma_push_lookup(m, k, v);
    }
}

/// Overwriting the unique entry of a key changes only that key's value.
proof fn lemma_update_lookup(m: Seq<(u64, u64)>, j: int, k: u64, v: u64)
    requires
        unique_keys(m, |e: (u64, u64)| e.0),
        0 <= j < m.len(),
        m[j].0 == k,
    ensures
        map_lookup(m.update(j, (k, v)), k) == Some(v),
        forall|k2: u64| k2 != k ==> map_lookup(m.update(j, (k, v)), k2) == map_lookup(m, k2),
    decreases m.len(),
{
    let key = |e: (u64, u64)| e.0;
    let u = m.update(j, (k, v));
    if j == 0 {
        assert(u[0] == (k, v));
        assert(u.subrange(1, u.len() as int) =~= m.subrange(1, m.len() as int));
        assert forall|k2: u64| k2 != k implies map_lookup(u, k2) == map_lookup(m, k2) by {
            assert(u[0].0 == k);
            assert(m[0].0 == k);
        }
    } else {
        assert(key(m[0]) != key(m[j]));
        assert(u[0] == m[0]);
        assert(u.subrange(1, u.len() as int) =~= m.subrange(1, m.len() as int).update(
            j - 1,
            (k, v),
        ));
        assert(unique_keys(m.subrange(1, m.len() as int), key)) by {
            assert forall|a: int, b: int|
                0 <= a < b < m.len() - 1 implies key(m.subrange(1, m.len() as int)[a]) != key(
                m.subrange(1, m.len() as int)[b],
            ) by {
                assert(m.subrange(1, m.len() as int)[a] == m[a + 1]);
                assert(m.subrange(1, m.len() as int)[b] == m[b + 1]);
            }
        }
        assert(m.subrange(1, m.len() as int)[j - 1] == m[j]);
        lemma_update_lookup(m.subrange(1, m.len() as int), j - 1, k, v);
        assert forall|k2: u64| k2 != k implies map_lookup(u, k2) == map_lookup(m, k2) by {
            assert(map_lookup(u.subrange(1, u.len() as int), k2) == map_lookup(
                m.subrange(1, m.len() as int),
                k2,
            ));
        }
    }
}

/// Appending an entry for an absent key makes it readable and leaves
/// every other key unchanged.
proof fn lemma_push_lookup(m: Seq<(u64, u64)>, k: u64, v: u64)
    requires
        !contains_key(m, |e: (u64, u64)| e.0, k),
    ensures
        map_lookup(m.push((k, v)), k) == Some(v),
        forall|k2: u64| k2 != k ==> map_lookup(m.push((k, v)), k2) == map_lookup(m, k2),
        unique_keys(m, |e: (u64, u64)| e.0) ==> unique_keys(
            m.push((k, v)),
            |e: (u64, u64)| e.0,
        ),
    decreases m.len(),
{
    let key = |e: (u64, u64)| e.0;
    let u = m.push((k, v));
    if m.len() == 0 {
        assert(u[0] == (k, v));
        assert(u.subrange(1, u.len() as int) =~= Seq::<(u64, u64)>::empty());
        assert forall|k2: u64| k2 != k implies map_lookup(u, k2) == map_lookup(m, k2) by {
            assert(map_lookup(u.subrange(1, u.len() as int), k2) is None);
        }
    } else {
        assert(key(m[0]) != k);
        assert(u[0] == m[0]);
        assert(u.subrange(1, u.len() as int) =~= m.subrange(1, m.len() as int).push((k, v)));
        assert(!contains_key(m.subrange(1, m.len() as int), key, k)) by {
            if contains_key(m.subrange(1, m.len() as int), key, k) {
                let w = choose|w: int|
                    0 <= w < m.len() - 1 && key(m.subrange(1, m.len() as int)[w]) == k;
                assert(key(m[w + 1]) == k);
            }
        }
        lemma_push_lookup(m.subrange(1, m.len() as int), k, v);
        assert forall|k2: u64| k2 != k implies map_lookup(u, k2) == map_lookup(m, k2) by {
            assert(map_lookup(u.subrange(1, u.len() as int), k2) == map_lookup(
                m.subrange(1, m.len() as int),
                k2,
            ));
        }
    }
    if unique_keys(m, key) {
        assert forall|a: int, b: int| 0 <= a < b < u.len() implies key(u[a]) != key(u[b]) by {
            if b == u.len() - 1 {
                assert(u[a] == m[a]);
                assert(key(m[a]) != k) by {
                    if key(m[a]) == k {
                        assert(contains_key(m, key, k));
                    }
                }
            }
        }
    }
}

/// Transaction count of the first checkpoints of a run.
pub open spec fn sum_counts(counts: Seq<u64>, n: int) -> int
    decreases n,
{
    if n <= 0 {
        0
    } else {
        sum_counts(counts, n - 1) + counts[n - 1]
    }
}

/// The bookkeeping map after checkpoints up to and including one have
/// been processed in order: each records its successor's starting
/// number, the running transaction total.
pub open spec fn run_map(counts: Seq<u64>, c: int) -> Seq<(u64, u64)>
    decreases c + 1,
{
    if c < 0 {
        Seq::empty()
    } else {
        map_upsert(run_map(counts, c - 1), (c + 1) as u64, sum_counts(counts, c + 1) as u64)
    }
}

/// The run map's keys are distinct and it reads back the running totals:
/// the key recorded for a checkpoint holds the transaction total before
/// it.
proof fn lemma_run_map(counts: Seq<u64>, c: int)
    requires
        -1 <= c < counts.len(),
        0 < c + 2 ==> sum_counts(counts, c + 1) <= u64::MAX,
        forall|n: int| 0 <= n <= counts.len() ==> 0 <= #[trigger] sum_counts(counts, n) <= u64::MAX,
    ensures
        unique_keys(run_map(counts, c), |e: (u64, u64)| e.0),
        c >= 0 ==> map_lookup(run_map(counts, c), (c + 1) as u64) == Some(
            sum_counts(counts, c + 1) as u64,
        ),
    decreases c + 1,
{
    if c >= 0 {
        lemma_run_map(counts, c - 1);
        lemma_map_upsert(
            run_map(counts, c - 1),
            (c + 1) as u64,
            sum_counts(counts, c + 1) as u64,
        );
    }
}

/// Sequence monotonicity: in a run over checkpoints fed in order, the
/// starting transaction sequence number resolved for each checkpoint is
/// the total transaction count of the checkpoints before it — so the
/// assigned numbers of checkpoint `c`, which its derived rows carry as
/// `start`, `start + 1`, …, run on gap-free from the previous
/// checkpoint's, and over the whole run they are exactly `0 .. total`.
pub proof fn lemma_sequence_monotonicity(
    counts: Seq<u64>,
    c: int,
    store: StoreState,
    summary: CheckpointSummary,
)
    requires
        0 <= c < counts.len(),
        summary.sequence_number == c,
        forall|n: int| 0 <= n <= counts.len() ==> 0 <= #[trigger] sum_counts(counts, n) <= u64::MAX,
    ensures
        spec_start(run_map(counts, c - 1), store, summary) == Some(sum_counts(counts, c) as u64),
        sum_counts(counts, c) + counts[c] == sum_counts(counts, c + 1),
{
    if c == 0 {
        assert(sum_counts(counts, 0) == 0);
    } else {
        lemma_run_map(counts, c - 1);
    }
}

/// An identifier found by the first-match search occurs in the list.
pub proof fn lemma_first_by_id_member(s: Seq<Object>, id: u64)
    ensures
        first_by_id(s, id) is Some ==> exists|i: int| 0 <= i < s.len() && s[i].id == id,
        first_by_id(s, id) matches Some(o) ==> exists|i: int| 0 <= i < s.len() && s[i] == o,
    decreases s.len(),
{
    if s.len() > 0 {
        if s[0].id == id {
            assert(s[0].id == id);
        } else {
            lemma_first_by_id_member(s.subrange(1, s.len() as int), id);
            if first_by_id(s, id) is Some {
                let t = s.subrange(1, s.len() as int);
                let i = choose|i: int| 0 <= i < t.len() && t[i].id == id;
                assert(s[i + 1].id == id);
                let o = first_by_id(s, id).unwrap();
                let j = choose|j: int| 0 <= j < t.len() && t[j] == o;
                assert(s[j + 1] == o);
            }
        }
    }
}

/// Dynamic-object lookup: every derived dynamic-field record of object
/// kind points at an object that exists in the same checkpoint's written
/// set.
pub proof fn lemma_dynamic_object_lookup(
    o: Object,
    written: Seq<Object>,
    cache_mods: Seq<(u64, crate::types::MoveModule)>,
    backup: Seq<crate::types::IndexedPackage>,
)
    ensures
        spec_df_info(o, written, cache_mods, backup) matches Ok(Some(info)) ==> (info.kind
            == DynamicFieldType::DynamicObject ==> exists|i: int|
            0 <= i < written.len() && written[i].id == info.object_id),
{
    match o.data {
        crate::types::ObjectData::MoveData(m) => {
            match m.field {
                Some(f) => {
                    lemma_first_by_id_member(written, f.child_id);
                },
                None => {},
            }
        },
        crate::types::ObjectData::PackageData(_) => {},
    }
}

/// A snapshot found by identifier carries that identifier.
pub proof fn lemma_first_by_id_fields(s: Seq<Object>, id: u64)
    ensures
        first_by_id(s, id) matches Some(o) ==> o.id == id,
    decreases s.len(),
{
    if s.len() > 0 {
        if s[0].id != id {
            lemma_first_by_id_fields(s.subrange(1, s.len() as int), id);
        }
    }
}

/// The reduced snapshot list's entry for an identifier sits at that
/// identifier's greatest version in the checkpoint.
pub proof fn lemma_latest_entry(objects: Seq<Object>, id: u64)
    ensures
        first_by_id(latest_of(objects), id) matches Some(o) ==> o.id == id && o.version
            == max_version_of(objects, id),
{
    lemma_first_by_id_fields(latest_of(objects), id);
    lemma_first_by_id_member(latest_of(objects), id);
    if first_by_id(latest_of(objects), id) is Some {
        let o = first_by_id(latest_of(objects), id).unwrap();
        let idx = choose|i: int|
            0 <= i < latest_of(objects).len() && latest_of(objects)[i] == o;
        let dedup = dedup_first(crate::handler::ids_of(objects));
        assert(latest_of(objects)[idx] == first_at(
            objects,
            dedup[idx],
            max_version_of(objects, dedup[idx]),
        ).unwrap());
        crate::types::lemma_dedup_first(crate::handler::ids_of(objects));
        assert(dedup.contains(dedup[idx])) by {
            assert(0 <= idx < dedup.len());
        }
        assert(crate::handler::ids_of(objects).contains(dedup[idx]));
        let w = choose|w: int|
            0 <= w < crate::handler::ids_of(objects).len() && crate::handler::ids_of(objects)[w]
                == dedup[idx];
        assert(objects[w].id == dedup[idx]);
        crate::handler::lemma_max_version_present(objects, dedup[idx], w);
        crate::handler::lemma_first_at_fields(
            objects,
            dedup[idx],
            max_version_of(objects, dedup[idx]),
        );
    }
}

/// No two entries of a checkpoint's written objects name the same
/// identifier at the same version.
pub open spec fn pairs_distinct(cs: Seq<ChangedObject>) -> bool {
    forall|i: int, j: int|
        0 <= i < j < cs.len() ==> !(cs[i].oref.id == cs[j].oref.id && cs[i].oref.version
            == cs[j].oref.version)
}

/// No duplicate object versions per checkpoint, and deletion dominance:
/// when every written entry of a checkpoint names a distinct identifier
/// and version, the retained mutation set holds at most one entry per
/// identifier, each at the greatest version the checkpoint's snapshots
/// reach for it; and no retained entry's identifier is named by any
/// deletion of the checkpoint.
pub proof fn lemma_mutation_set(
    cs: Seq<ChangedObject>,
    objects: Seq<Object>,
    dels: Seq<crate::types::ObjRef>,
    cache_mods: Seq<(u64, crate::types::MoveModule)>,
    backup: Seq<crate::types::IndexedPackage>,
)
    requires
        pairs_distinct(cs),
        spec_kept(cs, objects, dels, cache_mods, backup) is Ok,
    ensures
        ({
            let ks = spec_kept(cs, objects, dels, cache_mods, backup).unwrap();
            &&& forall|i: int|
                0 <= i < ks.len() ==> #[trigger] ks[i].oref.version == max_version_of(
                    objects,
                    ks[i].oref.id,
                )
            &&& forall|i: int, j: int| 0 <= i < j < ks.len() ==> ks[i].oref.id != ks[j].oref.id
            &&& forall|i: int|
                0 <= i < ks.len() ==> !ref_contains_id(dels, #[trigger] ks[i].oref.id)
            &&& forall|i: int|
                0 <= i < ks.len() ==> exists|t: int| 0 <= t < cs.len() && cs[t] == #[trigger] ks[i]
        }),
    decreases cs.len(),
{
    if cs.len() > 0 {
        assert(pairs_distinct(cs.drop_last())) by {
            assert forall|i: int, j: int| 0 <= i < j < cs.len() - 1 implies !(
            cs.drop_last()[i].oref.id == cs.drop_last()[j].oref.id
                && cs.drop_last()[i].oref.version == cs.drop_last()[j].oref.version) by {
                assert(cs.drop_last()[i] == cs[i]);
                assert(cs.drop_last()[j] == cs[j]);
            }
        }
        lemma_mutation_set(cs.drop_last(), objects, dels, cache_mods, backup);
        let pre = spec_kept(cs.drop_last(), objects, dels, cache_mods, backup).unwrap();
        let ks = spec_kept(cs, objects, dels, cache_mods, backup).unwrap();
        let c = cs.last();
        lemma_latest_entry(objects, c.oref.id);
        if ks == pre.push(c) {
            assert forall|i: int, j: int| 0 <= i < j < ks.len() implies ks[i].oref.id
                != ks[j].oref.id by {
                if j == ks.len() - 1 {
                    assert(ks[i] == pre[i]);
                    if pre[i].oref.id == c.oref.id {
                        assert(pre[i].oref.version == max_version_of(objects, c.oref.id));
                        assert(c.oref.version == max_version_of(objects, c.oref.id));
                        let t = choose|t: int|
                            0 <= t < cs.drop_last().len() && cs.drop_last()[t] == pre[i];
                        assert(cs[t] == pre[i]);
                        assert(cs[cs.len() - 1] == c);
                    }
                }
            }
            assert forall|i: int| 0 <= i < ks.len() implies exists|t: int|
                0 <= t < cs.len() && cs[t] == #[trigger] ks[i] by {
                if i < ks.len() - 1 {
                    let t = choose|t: int|
                        0 <= t < cs.drop_last().len() && cs.drop_last()[t] == pre[i];
                    assert(cs[t] == ks[i]);
                } else {
                    assert(cs[cs.len() - 1] == ks[i]);
                }
            }
        } else {
            assert(ks == pre);
            assert forall|i: int| 0 <= i < ks.len() implies exists|t: int|
                0 <= t < cs.len() && cs[t] == #[trigger] ks[i] by {
                let t = choose|t: int|
                    0 <= t < cs.drop_last().len() && cs.drop_last()[t] == pre[i];
                assert(cs[t] == ks[i]);
            }
        }
    }
}

/// Index of a value's first occurrence; the length when it is absent.
pub open spec fn first_idx(s: Seq<u64>, x: u64) -> int
    decreases s.len(),
{
    if s.len() == 0 {
        0
    } else if s[0] == x {
        0
    } else {
        1 + first_idx(s.subrange(1, s.len() as int), x)
    }
}

/// The first occurrence index points at the value; an absent value
/// indexes past the end.
pub proof fn lemma_first_idx_props(s: Seq<u64>, x: u64)
    ensures
        s.contains(x) ==> 0 <= first_idx(s, x) < s.len() && s[first_idx(s, x)] == x,
        !s.contains(x) ==> first_idx(s, x) == s.len(),
    decreases s.len(),
{
    if s.len() > 0 && s[0] != x {
        let t = s.subrange(1, s.len() as int);
        lemma_first_idx_props(t, x);
        assert(s.contains(x) ==> t.contains(x)) by {
            if s.contains(x) {
                let w = choose|w: int| 0 <= w < s.len() && s[w] == x;
                assert(t[w - 1] == x);
            }
        }
        assert(t.contains(x) ==> s.contains(x)) by {
            if t.contains(x) {
                let w = choose|w: int| 0 <= w < t.len() && t[w] == x;
                assert(s[w + 1] == x);
            }
        }
    }
}

/// Dropping the final element moves no earlier first occurrence.
pub proof fn lemma_first_idx_extend(s: Seq<u64>, x: u64)
    requires
        s.len() > 0,
    ensures
        s.drop_last().contains(x) ==> first_idx(s, x) == first_idx(s.drop_last(), x),
        !s.drop_last().contains(x) && s.last() == x ==> first_idx(s, x) == s.len() - 1,
    decreases s.len(),
{
    let d = s.drop_last();
    if s.len() == 1 {
    } else {
        if s[0] == x {
            assert(d.contains(x)) by {
                assert(d[0] == x);
            }
        } else {
            let t = s.subrange(1, s.len() as int);
            assert(t.drop_last() =~= d.subrange(1, d.len() as int));
            lemma_first_idx_extend(t, x);
            assert(d.contains(x) ==> d.subrange(1, d.len() as int).contains(x)) by {
                if d.contains(x) {
                    let w = choose|w: int| 0 <= w < d.len() && d[w] == x;
                    assert(w != 0);
                    assert(d.subrange(1, d.len() as int)[w - 1] == x);
                }
            }
            assert(d.subrange(1, d.len() as int).contains(x) ==> d.contains(x)) by {
                if d.subrange(1, d.len() as int).contains(x) {
                    let w = choose|w: int|
                        0 <= w < d.len() - 1 && d.subrange(1, d.len() as int)[w] == x;
                    assert(d[w + 1] == x);
                }
            }
            assert(t.last() == s.last());
        }
    }
}

/// Recipient deduplication order: the deduplicated addresses keep the
/// order of their first occurrences.
pub proof fn lemma_dedup_order(s: Seq<u64>)
    ensures
        forall|i: int, j: int|
            0 <= i < j < dedup_first(s).len() ==> first_idx(s, dedup_first(s)[i]) < first_idx(
                s,
                dedup_first(s)[j],
            ),
    decreases s.len(),
{
    if s.len() > 0 {
        lemma_dedup_order(s.drop_last());
        crate::types::lemma_dedup_first(s.drop_last());
        let d = dedup_first(s.drop_last());
        let out = dedup_first(s);
        assert forall|i: int, j: int| 0 <= i < j < out.len() implies first_idx(s, out[i])
            < first_idx(s, out[j]) by {
            if d.contains(s.last()) {
                assert(out == d);
                assert(d.contains(out[i])) by {
                    assert(0 <= i < d.len());
                }
                assert(d.contains(out[j])) by {
                    assert(0 <= j < d.len());
                }
                lemma_first_idx_extend(s, out[i]);
                lemma_first_idx_extend(s, out[j]);
            } else {
                assert(out == d.push(s.last()));
                if j < d.len() {
                    assert(d.contains(out[i]) && d.contains(out[j])) by {
                        assert(out[i] == d[i] && out[j] == d[j]);
                    }
                    lemma_first_idx_extend(s, out[i]);
                    lemma_first_idx_extend(s, out[j]);
                } else {
                    assert(out[j] == s.last());
                    assert(out[i] == d[i]);
                    assert(d.contains(out[i])) by {
                        assert(0 <= i < d.len());
                    }
                    lemma_first_idx_extend(s, out[i]);
                    lemma_first_idx_extend(s, out[j]);
                    lemma_first_idx_props(s.drop_last(), out[i]);
                }
            }
        }
    }
}

/// Recipient dedup: in a per-transaction index row, each address appears
/// at most once, membership is that of the address-owner recipients, and
/// the rows keep first-occurrence order.
pub proof fn lemma_recipient_dedup(cs: Seq<ChangedObject>)
    ensures
        ({
            let rs = spec_recipients(cs);
            let d = dedup_first(rs);
            &&& forall|i: int, j: int| 0 <= i < j < d.len() ==> d[i] != d[j]
            &&& forall|x: u64| d.contains(x) <==> rs.contains(x)
            &&& forall|i: int, j: int|
                0 <= i < j < d.len() ==> first_idx(rs, d[i]) < first_idx(rs, d[j])
        }),
{
    crate::types::lemma_dedup_first(spec_recipients(cs));
    lemma_dedup_order(spec_recipients(cs));
}

/// The row a unique-key objects table holds for an identifier.
pub open spec fn table_row(table: Seq<Object>, id: u64) -> Option<Object> {
    if contains_key(table, StoreState::object_key(), id) {
        Some(table[choose|i: int| 0 <= i < table.len() && table[i].id == id])
    } else {
        None
    }
}

/// The mutation row a retained set holds for an identifier.
pub open spec fn mut_row(muts: Seq<crate::types::IndexedObject>, id: u64) -> Option<Object> {
    if contains_key(muts, crate::store::mutation_key(), id) {
        Some(muts[choose|i: int| 0 <= i < muts.len() && muts[i].object.id == id].object)
    } else {
        None
    }
}

/// Writing one row changes exactly its identifier's row.
proof fn lemma_upsert_one_value(table: Seq<Object>, o: Object, k: u64)
    requires
        unique_keys(table, StoreState::object_key()),
    ensures
        table_row(crate::store::upsert_one(table, o), k) == (if k == o.id {
            Some(o)
        } else {
            table_row(table, k)
        }),
{
    let key = StoreState::object_key();
    let out = crate::store::upsert_one(table, o);
    crate::store::lemma_upsert_one(table, o);
    if contains_key(table, key, o.id) {
        let j = choose|j: int| 0 <= j < table.len() && table[j].id == o.id;
        if k == o.id {
            assert(out[j] == o);
            assert(contains_key(out, key, k)) by {
                assert(key(out[j]) == k);
            }
            let j2 = choose|j2: int| 0 <= j2 < out.len() && out[j2].id == k;
            assert(j2 == j);
        } else {
            if contains_key(out, key, k) {
                let j2 = choose|j2: int| 0 <= j2 < out.len() && out[j2].id == k;
                assert(j2 != j);
                assert(out[j2] == table[j2]);
                let j3 = choose|j3: int| 0 <= j3 < table.len() && table[j3].id == k;
                assert(j3 == j2);
            }
        }
    } else {
        if k == o.id {
            assert(out[table.len() as int] == o);
            assert(contains_key(out, key, k)) by {
                assert(key(out[table.len() as int]) == k);
            }
            let j2 = choose|j2: int| 0 <= j2 < out.len() && out[j2].id == k;
            assert(j2 == table.len() as int) by {
                if j2 < table.len() {
                    assert(key(table[j2]) == k);
                }
            }
        } else {
            if contains_key(out, key, k) {
                let j2 = choose|j2: int| 0 <= j2 < out.len() && out[j2].id == k;
                assert(j2 < table.len());
                assert(out[j2] == table[j2]);
                let j3 = choose|j3: int| 0 <= j3 < table.len() && table[j3].id == k;
                assert(j3 == j2);
            }
        }
    }
}

/// Writing a retained mutation set gives each mutated identifier its
/// retained row and leaves every other row alone.
proof fn lemma_upsert_objects_value(
    table: Seq<Object>,
    muts: Seq<crate::types::IndexedObject>,
    k: u64,
)
    requires
        unique_keys(table, StoreState::object_key()),
        unique_keys(muts, crate::store::mutation_key()),
    ensures
        table_row(crate::store::upsert_objects(table, muts), k) == (match mut_row(muts, k) {
            Some(o) => Some(o),
            None => table_row(table, k),
        }),
    decreases muts.len(),
{
    let key = StoreState::object_key();
    let mkey = crate::store::mutation_key();
    if muts.len() == 0 {
        assert(!contains_key(muts, mkey, k));
    } else {
        assert(unique_keys(muts.drop_last(), mkey)) by {
            assert forall|a: int, b: int| 0 <= a < b < muts.len() - 1 implies mkey(
                muts.drop_last()[a],
            ) != mkey(muts.drop_last()[b]) by {
                assert(muts.drop_last()[a] == muts[a]);
                assert(muts.drop_last()[b] == muts[b]);
            }
        }
        lemma_upsert_objects_value(table, muts.drop_last(), k);
        let prev = crate::store::upsert_objects(table, muts.drop_last());
        crate::store::lemma_upsert_objects(table, muts.drop_last());
        lemma_upsert_one_value(prev, muts.last().object, k);
        if k == muts.last().object.id {
            assert(contains_key(muts, mkey, k)) by {
                assert(mkey(muts[muts.len() - 1]) == k);
            }
            let j = choose|j: int| 0 <= j < muts.len() && muts[j].object.id == k;
            assert(j == muts.len() - 1);
        } else {
            assert(contains_key(muts.drop_last(), mkey, k) == contains_key(muts, mkey, k)) by {
                if contains_key(muts, mkey, k) {
                    let w = choose|w: int| 0 <= w < muts.len() && muts[w].object.id == k;
                    assert(w < muts.len() - 1);
                    assert(mkey(muts.drop_last()[w]) == k);
                }
                if contains_key(muts.drop_last(), mkey, k) {
                    let w = choose|w: int|
                        0 <= w < muts.drop_last().len() && muts.drop_last()[w].object.id == k;
                    assert(mkey(muts[w]) == k);
                }
            }
            if contains_key(muts, mkey, k) {
                let j = choose|j: int| 0 <= j < muts.len() && muts[j].object.id == k;
                let j2 = choose|j2: int|
                    0 <= j2 < muts.drop_last().len() && muts.drop_last()[j2].object.id == k;
                assert(muts.drop_last()[j2] == muts[j2]);
                assert(j == j2);
            }
        }
    }
}

/// Deleting identifiers removes exactly their rows.
proof fn lemma_delete_value(table: Seq<Object>, ids: Seq<u64>, k: u64)
    requires
        unique_keys(table, StoreState::object_key()),
    ensures
        table_row(crate::store::delete_ids(table, ids), k) == (if ids.contains(k) {
            None::<Object>
        } else {
            table_row(table, k)
        }),
    decreases table.len(),
{
    let key = StoreState::object_key();
    crate::store::lemma_delete_ids(table, ids);
    crate::store::lemma_delete_ids_key(table, ids, k);
    let out = crate::store::delete_ids(table, ids);
    if ids.contains(k) {
    } else {
        if table.len() > 0 {
            assert(unique_keys(table.drop_last(), key)) by {
                assert forall|a: int, b: int| 0 <= a < b < table.len() - 1 implies key(
                    table.drop_last()[a],
                ) != key(table.drop_last()[b]) by {
                    assert(table.drop_last()[a] == table[a]);
                    assert(table.drop_last()[b] == table[b]);
                }
            }
            lemma_delete_value(table.drop_last(), ids, k);
            crate::store::lemma_delete_ids(table.drop_last(), ids);
            crate::store::lemma_delete_ids_key(table.drop_last(), ids, k);
            let rest = crate::store::delete_ids(table.drop_last(), ids);
            if contains_key(table, key, k) {
                let j = choose|j: int| 0 <= j < table.len() && table[j].id == k;
                if k == table.last().id {
                    assert(j == table.len() - 1) by {
                        if j < table.len() - 1 {
                            assert(key(table[j]) == key(table[table.len() - 1]));
                        }
                    }
                    assert(!contains_key(table.drop_last(), key, k)) by {
                        if contains_key(table.drop_last(), key, k) {
                            let w = choose|w: int|
                                0 <= w < table.drop_last().len() && table.drop_last()[w].id == k;
                            assert(key(table[w]) == key(table[table.len() - 1]));
                        }
                    }
                    assert(out == rest.push(table.last()));
                    assert(contains_key(out, key, k)) by {
                        assert(key(out[out.len() - 1]) == k);
                    }
                    let j2 = choose|j2: int| 0 <= j2 < out.len() && out[j2].id == k;
                    assert(j2 == out.len() - 1) by {
                        if j2 < out.len() - 1 {
                            assert(key(out[j2]) == key(out[out.len() - 1]));
                        }
                    }
                } else {
                    assert(contains_key(table.drop_last(), key, k)) by {
                        assert(j < table.len() - 1);
                        assert(key(table.drop_last()[j]) == k);
                    }
                    assert(table_row(table, k) == table_row(table.drop_last(), k)) by {
                        let ja = choose|ja: int|
                            0 <= ja < table.drop_last().len() && table.drop_last()[ja].id == k;
                        assert(table.drop_last()[ja] == table[ja]);
                        assert(ja == j);
                    }
                    assert(contains_key(rest, key, k));
                    assert(table_row(out, k) == table_row(rest, k)) by {
                        let ja = choose|ja: int| 0 <= ja < rest.len() && rest[ja].id == k;
                        if ids.contains(table.last().id) {
                            assert(out == rest);
                        } else {
                            assert(out == rest.push(table.last()));
                            assert(out[ja] == rest[ja]);
                            let jb = choose|jb: int| 0 <= jb < out.len() && out[jb].id == k;
                            assert(jb == ja) by {
                                if jb != ja {
                                    assert(key(out[jb]) == key(out[ja]));
                                }
                            }
                        }
                    }
                }
            }
        }
    }
}

/// Round trip of object changes: applying a checkpoint's retained
/// mutation set and deletions to the objects table before the commit
/// gives, row for row, the table after it — a deleted identifier has no
/// row, a mutated one holds its retained row, and any other holds what it
/// held before.
pub proof fn lemma_object_round_trip(
    table: Seq<Object>,
    muts: Seq<crate::types::IndexedObject>,
    dels: Seq<u64>,
    k: u64,
)
    requires
        unique_keys(table, StoreState::object_key()),
        unique_keys(muts, crate::store::mutation_key()),
    ensures
        table_row(
            crate::store::delete_ids(crate::store::upsert_objects(table, muts), dels),
            k,
        ) == (if dels.contains(k) {
            None::<Object>
        } else {
            match mut_row(muts, k) {
                Some(o) => Some(o),
                None => table_row(table, k),
            }
        }),
{
    crate::store::lemma_upsert_objects(table, muts);
    lemma_upsert_objects_value(table, muts, k);
    lemma_delete_value(crate::store::upsert_objects(table, muts), dels, k);
}

/// Crash-safety of the commit marker: if the process fails after the
/// data stage but before the checkpoint headers are written, replaying
/// the same batch converges — the append-only tables are unchanged by the
/// second pass, and the objects table holds, for every identifier, the
/// row a single clean pass gives.
pub proof fn lemma_replay_convergence(
    table: Seq<Object>,
    muts: Seq<crate::types::IndexedObject>,
    dels: Seq<u64>,
    k: u64,
)
    requires
        unique_keys(table, StoreState::object_key()),
        unique_keys(muts, crate::store::mutation_key()),
    ensures
        table_row(
            crate::store::delete_ids(
                crate::store::upsert_objects(
                    crate::store::delete_ids(crate::store::upsert_objects(table, muts), dels),
                    muts,
                ),
                dels,
            ),
            k,
        ) == table_row(
            crate::store::delete_ids(crate::store::upsert_objects(table, muts), dels),
            k,
        ),
{
    let once = crate::store::delete_ids(crate::store::upsert_objects(table, muts), dels);
    crate::store::lemma_upsert_objects(table, muts);
    crate::store::lemma_delete_ids(crate::store::upsert_objects(table, muts), dels);
    lemma_object_round_trip(table, muts, dels, k);
    lemma_object_round_trip(once, muts, dels, k);
}

/// Epoch totals: a finalized epoch's transaction total is the network
/// total at its last checkpoint minus the network total recorded for the
/// epoch before it.
pub proof fn lemma_epoch_totals(data: crate::types::CheckpointData, store: StoreState)
    requires
        spec_index_epoch(data, store) matches Ok(t) && t matches Some(rec) && rec.last_epoch
            is Some,
    ensures
        ({
            let rec = spec_index_epoch(data, store).unwrap().unwrap();
            let le = rec.last_epoch.unwrap();
            let s = crate::handler::spec_system_state(data.objects@).unwrap();
            le.epoch_total_transactions
                == data.checkpoint_summary.network_total_transactions
                - store.spec_network_total_before((s.epoch - 1) as u64)
        }),
{
}

/// The aggregation of one balance-item list pins the rows: two row lists
/// that both model it are equal.
pub proof fn lemma_models_items_unique(
    a: Seq<crate::types::BalanceChange>,
    b: Seq<crate::types::BalanceChange>,
    items: Seq<crate::changes::BalanceItem>,
)
    requires
        crate::changes::models_items(a, items),
        crate::changes::models_items(b, items),
    ensures
        a == b,
{
    let ks = crate::changes::dedup_keys(crate::changes::items_keys(items));
    assert forall|m: int| 0 <= m < a.len() implies a[m] == b[m] by {
        assert((a[m].owner, a[m].coin_type) == ks[m]);
        assert((b[m].owner, b[m].coin_type) == ks[m]);
        assert(a[m].amount as int == b[m].amount as int);
    }
    assert(a =~= b);
}

/// Two objects equal in value to a third are equal in value to each
/// other.
pub proof fn lemma_obj_eq_join(a: Object, b: Object, c: Object)
    requires
        crate::types::obj_eq(a, c),
        crate::types::obj_eq(b, c),
    ensures
        crate::types::obj_eq(a, b),
{
}

/// Two derived transaction rows carry the same values: equal scalars,
/// equal payload and effects by value, and equal change lists.
pub open spec fn tx_rows_agree(
    a: crate::types::IndexedTransaction,
    b: crate::types::IndexedTransaction,
) -> bool {
    &&& a.tx_sequence_number == b.tx_sequence_number
    &&& a.tx_digest == b.tx_digest
    &&& a.checkpoint_sequence_number == b.checkpoint_sequence_number
    &&& a.timestamp_ms == b.timestamp_ms
    &&& crate::types::tx_data_eq(a.transaction, b.transaction)
    &&& crate::types::effects_eq(a.effects, b.effects)
    &&& a.object_changes@ == b.object_changes@
    &&& a.balance_change@ == b.balance_change@
    &&& a.events@ == b.events@
    &&& a.transaction_kind == b.transaction_kind
    &&& a.successful_tx_num == b.successful_tx_num
}

/// Two derived index rows carry the same values.
pub open spec fn tx_index_rows_agree(a: crate::types::TxIndex, b: crate::types::TxIndex) -> bool {
    &&& a.tx_sequence_number == b.tx_sequence_number
    &&& a.transaction_digest == b.transaction_digest
    &&& a.input_objects@ == b.input_objects@
    &&& a.changed_objects@ == b.changed_objects@
    &&& a.senders@ == b.senders@
    &&& a.recipients@ == b.recipients@
    &&& a.move_calls@ == b.move_calls@
}

/// Two retained mutation rows carry the same values.
pub open spec fn mutation_rows_agree(
    a: crate::types::IndexedObject,
    b: crate::types::IndexedObject,
) -> bool {
    &&& a.checkpoint_sequence_number == b.checkpoint_sequence_number
    &&& crate::types::obj_eq(a.object, b.object)
    &&& a.df_info == b.df_info
}

/// Crash-safety, the derivation half: two derivations of the same
/// checkpoint at the same starting number, over cache states with the
/// same contents, yield the same rows — value for value across the
/// header, the transaction, event and index rows, the retained mutations
/// and deletions, the packages, and the epoch records. Re-feeding a
/// checkpoint after a crash therefore re-derives identical rows.
pub proof fn lemma_rederivation_agreement(
    out1: crate::store::TemporaryCheckpointStoreV2,
    ep1: Option<crate::store::TemporaryEpochStoreV2>,
    out2: crate::store::TemporaryCheckpointStoreV2,
    ep2: Option<crate::store::TemporaryEpochStoreV2>,
    data: crate::types::CheckpointData,
    start: u64,
    cache1: crate::object_cache::InMemObjectCache,
    cache2: crate::object_cache::InMemObjectCache,
    store: StoreState,
    remote: Seq<Object>,
)
    requires
        spec_checkpoint_output(out1, ep1, data, start, cache1, store, remote),
        spec_checkpoint_output(out2, ep2, data, start, cache2, store, remote),
        cache1.objects() == cache2.objects(),
        cache1.modules_view() == cache2.modules_view(),
    ensures
        out1.checkpoint == out2.checkpoint,
        ep1 == ep2,
        out1.events@ == out2.events@,
        out1.transactions@.len() == out2.transactions@.len(),
        forall|i: int|
            0 <= i < out1.transactions@.len() ==> tx_rows_agree(
                #[trigger] out1.transactions@[i],
                out2.transactions@[i],
            ),
        out1.tx_indices@.len() == out2.tx_indices@.len(),
        forall|i: int|
            0 <= i < out1.tx_indices@.len() ==> tx_index_rows_agree(
                #[trigger] out1.tx_indices@[i],
                out2.tx_indices@[i],
            ),
        out1.object_changes.deleted_objects@ == out2.object_changes.deleted_objects@,
        out1.object_changes.changed_objects@.len() == out2.object_changes.changed_objects@.len(),
        forall|i: int|
            0 <= i < out1.object_changes.changed_objects@.len() ==> mutation_rows_agree(
                #[trigger] out1.object_changes.changed_objects@[i],
                out2.object_changes.changed_objects@[i],
            ),
        out1.packages@.len() == out2.packages@.len(),
        forall|i: int|
            0 <= i < out1.packages@.len() ==> #[trigger] out1.packages@[i].package_id
                == out2.packages@[i].package_id && out1.packages@[i].move_package.modules@
                == out2.packages@[i].move_package.modules@,
{
    let txs = data.transactions@;
    let p1 = choose|p: crate::changes::TxChangesProcessor|
        p.object_cache.objects() == cache1.objects() && *p.store == store && p.remote@ == remote
            && (forall|i: int|
            0 <= i < txs.len() ==> tx_changes_match(
                #[trigger] out1.transactions@[i],
                txs[i],
                p,
            ));
    let p2 = choose|p: crate::changes::TxChangesProcessor|
        p.object_cache.objects() == cache2.objects() && *p.store == store && p.remote@ == remote
            && (forall|i: int|
            0 <= i < txs.len() ==> tx_changes_match(
                #[trigger] out2.transactions@[i],
                txs[i],
                p,
            ));
    crate::changes::lemma_processor_agreement(p1, p2);
    assert forall|i: int| 0 <= i < out1.transactions@.len() implies tx_rows_agree(
        #[trigger] out1.transactions@[i],
        out2.transactions@[i],
    ) by {
        let a = out1.transactions@[i];
        let b = out2.transactions@[i];
        assert(tx_row_matches(a, txs[i], (start + i) as u64, data.checkpoint_summary));
        assert(tx_row_matches(b, txs[i], (start + i) as u64, data.checkpoint_summary));
        assert(tx_changes_match(a, txs[i], p1));
        assert(tx_changes_match(b, txs[i], p2));
        assert(p1.spec_changed_records(
            txs[i].data.sender,
            txs[i].effects.changed_objects@,
            txs[i].effects.modified_at_versions@,
        ) == p2.spec_changed_records(
            txs[i].data.sender,
            txs[i].effects.changed_objects@,
            txs[i].effects.modified_at_versions@,
        ));
        assert(p1.spec_balance_items(txs[i].effects) == p2.spec_balance_items(txs[i].effects));
        lemma_models_items_unique(
            a.balance_change@,
            b.balance_change@,
            p1.spec_balance_items(txs[i].effects),
        );
    }
    assert forall|i: int| 0 <= i < out1.tx_indices@.len() implies tx_index_rows_agree(
        #[trigger] out1.tx_indices@[i],
        out2.tx_indices@[i],
    ) by {
        assert(tx_index_matches(out1.tx_indices@[i], txs[i], (start + i) as u64));
        assert(tx_index_matches(out2.tx_indices@[i], txs[i], (start + i) as u64));
    }
    let ks = spec_kept(
        all_changed(txs),
        data.objects@,
        all_deleted_refs(txs),
        cache1.modules_view(),
        store.packages@,
    ).unwrap();
    assert forall|i: int| 0 <= i < out1.object_changes.changed_objects@.len() implies
        mutation_rows_agree(
        #[trigger] out1.object_changes.changed_objects@[i],
        out2.object_changes.changed_objects@[i],
    ) by {
        let a = out1.object_changes.changed_objects@[i];
        let b = out2.object_changes.changed_objects@[i];
        assert(row_matches(
            a,
            ks[i],
            data.objects@,
            cache1.modules_view(),
            store.packages@,
            data.checkpoint_summary.sequence_number,
        ));
        assert(row_matches(
            b,
            ks[i],
            data.objects@,
            cache2.modules_view(),
            store.packages@,
            data.checkpoint_summary.sequence_number,
        ));
        let canon = first_by_id(latest_of(data.objects@), ks[i].oref.id).unwrap();
        lemma_obj_eq_join(a.object, b.object, canon);
    }
}

} // verus!
