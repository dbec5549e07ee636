//! The isolation laws of the MVCC layer, stated and proved over the spec
//! state that the operation contracts expose.

use vstd::prelude::*;
use crate::snapshot::{Mode, visible};
use crate::txn::{active_key, record_key, update_key, is_active, has_record, record_value,
    txn_next, count_active_below, active_ids_below, begin_writes, write_effect,
    write_conflict, rollback_removed, rollback_effect, is_marker_of, latest_visible_from,
    spec_get, mvcc_inv, wf_store, lemma_families_distinct, lemma_aib_props,
    lemma_stored_opt, lemma_begin_wf, lemma_lvf_skip, lemma_lvf_some};

verus! {

/// Counting when one ID's marker appears and all others stay.
proof fn lemma_count_shift(
    m1: Map<Seq<u8>, Seq<u8>>,
    m2: Map<Seq<u8>, Seq<u8>>,
    a: u64,
    v: u64,
)
    requires
        forall|x: u64| x != a ==> is_active(m1, x) == is_active(m2, x),
        !is_active(m1, a),
        is_active(m2, a),
    ensures
        count_active_below(m2, v) == count_active_below(m1, v) + if a < v { 1int } else { 0int },
    decreases v,
{
    if v > 0 {
        lemma_count_shift(m1, m2, a, (v - 1) as u64);
    }
}

/// After a begin, the engine counts one more active transaction, so the
/// reported `txns_active` is at least 1.
pub proof fn lemma_begin_active_count(m: Map<Seq<u8>, Seq<u8>>, mode: Mode)
    requires
        wf_store(m),
        mvcc_inv(m),
        txn_next(m) < u64::MAX,
    ensures
        count_active_below(begin_writes(m, txn_next(m), mode), u64::MAX)
            == count_active_below(m, u64::MAX) + 1,
        count_active_below(begin_writes(m, txn_next(m), mode), u64::MAX) >= 1,
{
    let id = txn_next(m);
    let m2 = begin_writes(m, id, mode);
    lemma_begin_wf(m, id, mode);
    assert(!is_active(m, id));
    lemma_count_shift(m, m2, id, u64::MAX);
}

/// Removing an active marker — as commit and rollback both do — brings the
/// count back down by one.
pub proof fn lemma_terminate_active_count(m: Map<Seq<u8>, Seq<u8>>, id: u64)
    requires
        mvcc_inv(m),
        is_active(m, id),
    ensures
        count_active_below(m.remove(active_key(id)), u64::MAX)
            == count_active_below(m, u64::MAX) - 1,
{
    let m2 = m.remove(active_key(id));
    lemma_families_distinct();
    assert(id < txn_next(m));
    assert(!is_active(m2, id));
    assert forall|x: u64| x != id implies is_active(m2, x) == is_active(m, x) by {
        assert(active_key(x) != active_key(id));
    }
    lemma_count_shift(m2, m, id, u64::MAX);
}

/// A rollback of a mutable transaction also brings the active count down by
/// one: the swept markers and records carry no active markers of their own.
pub proof fn lemma_rollback_active_count(m: Map<Seq<u8>, Seq<u8>>, id: u64, mode: Mode)
    requires
        mvcc_inv(m),
        is_active(m, id),
        mode.spec_mutable(),
    ensures
        count_active_below(rollback_effect(m, id, mode), u64::MAX)
            == count_active_below(m, u64::MAX) - 1,
{
    let m2 = rollback_effect(m, id, mode);
    lemma_families_distinct();
    assert(id < txn_next(m));
    assert forall|x: u64| x != id implies is_active(m2, x) == is_active(m, x) by {
        assert(active_key(x) != active_key(id));
        if rollback_removed(m, id).contains(active_key(x)) {
            if is_marker_of(id, active_key(x)) {
                let rk = choose|rk: Seq<u8>| active_key(x) == update_key(id, rk);
                assert(false);
            } else {
                assert(m.dom().contains(update_key(id, active_key(x))));
                let k = choose|k: Seq<u8>| active_key(x) == record_key(k, id);
                assert(false);
            }
        }
    }
    assert(!is_active(m2, id));
    lemma_count_shift(m2, m, id, u64::MAX);
}

/// A read-write transaction sees its own successful write at once: reading
/// the written key through its own snapshot yields exactly the value it
/// wrote (or absence, after its own delete). `get` and `scan` both read
/// through `spec_get`, so this covers both.
pub proof fn lemma_read_own_write(
    m: Map<Seq<u8>, Seq<u8>>,
    id: u64,
    inv: Seq<u64>,
    k: Seq<u8>,
    value: Option<Seq<u8>>,
)
    requires
        !inv.contains(id),
    ensures
        spec_get(write_effect(m, id, k, value), id, inv, k) == value,
{
    let m2 = write_effect(m, id, k, value);
    assert(has_record(m2, k, id));
    assert(latest_visible_from(m2, inv, k, id) == Some(id));
    lemma_stored_opt(value);
    assert(record_value(m2, k, id) == value);
}

/// A mode other than read-write can never mutate.
pub proof fn lemma_read_modes_immutable(mode: Mode)
    ensures
        (mode matches Mode::ReadOnly) ==> !mode.spec_mutable(),
        (mode matches Mode::Snapshot { .. }) ==> !mode.spec_mutable(),
{
}

/// The latest-visible scans of two stores agree when they hold the same
/// records of a key at every version the invisible set does not mask.
proof fn lemma_lvf_congruent_visible(
    m1: Map<Seq<u8>, Seq<u8>>,
    m2: Map<Seq<u8>, Seq<u8>>,
    inv: Seq<u64>,
    k: Seq<u8>,
    v: u64,
)
    requires
        forall|x: u64| x <= v && !inv.contains(x)
            ==> has_record(m1, k, x) == has_record(m2, k, x),
    ensures
        latest_visible_from(m1, inv, k, v) == latest_visible_from(m2, inv, k, v),
    decreases v,
{
    if v > 0 {
        lemma_lvf_congruent_visible(m1, m2, inv, k, (v - 1) as u64);
    }
}

/// Dirty-read freedom: a write by a transaction that is invisible to a
/// snapshot changes nothing that the snapshot reads, for any key.
pub proof fn lemma_invisible_write_hidden(
    m: Map<Seq<u8>, Seq<u8>>,
    id: u64,
    k: Seq<u8>,
    value: Option<Seq<u8>>,
    version: u64,
    inv: Seq<u64>,
    k2: Seq<u8>,
)
    requires
        !visible(version, inv, id),
    ensures
        spec_get(write_effect(m, id, k, value), version, inv, k2)
            == spec_get(m, version, inv, k2),
{
    let m2 = write_effect(m, id, k, value);
    lemma_families_distinct();
    assert forall|x: u64| x <= version && !inv.contains(x)
        implies has_record(m, k2, x) == has_record(m2, k2, x) by {
        assert(record_key(k2, x) != update_key(id, record_key(k, id)));
        if (k2, x) != (k, id) {
            assert(record_key(k2, x) != record_key(k, id));
        } else {
            assert(visible(version, inv, id));
        }
    }
    lemma_lvf_congruent_visible(m, m2, inv, k2, version);
    match latest_visible_from(m, inv, k2, version) {
        Some(w) => {
            lemma_lvf_some(m, inv, k2, version, w);
            assert(record_key(k2, w) != update_key(id, record_key(k, id)));
            assert((k2, w) != (k, id)) by {
                if (k2, w) == (k, id) {
                    assert(visible(version, inv, id));
                }
            }
            assert(record_key(k2, w) != record_key(k, id));
            assert(record_value(m2, k2, w) == record_value(m, k2, w));
        }
        None => {}
    }
}

/// After a transaction commits, any transaction that begins later starts
/// from a snapshot that sees the committed version; and where that version
/// is the key's newest, the later transaction reads exactly the committed
/// value.
pub proof fn lemma_commit_then_visible(m: Map<Seq<u8>, Seq<u8>>, tid: u64, k: Seq<u8>)
    requires
        tid < txn_next(m),
        !is_active(m, tid),
    ensures
        visible(txn_next(m), active_ids_below(m, txn_next(m)), tid),
        has_record(m, k, tid) && (forall|x: u64| tid < x <= txn_next(m)
            ==> !has_record(m, k, x))
            ==> spec_get(m, txn_next(m), active_ids_below(m, txn_next(m)), k)
                == record_value(m, k, tid),
{
    let id = txn_next(m);
    let inv = active_ids_below(m, id);
    lemma_aib_props(m, id);
    assert(!inv.contains(tid));
    if has_record(m, k, tid) && (forall|x: u64| tid < x <= id ==> !has_record(m, k, x)) {
        lemma_lvf_skip(m, inv, k, id, tid);
        assert(latest_visible_from(m, inv, k, tid) == Some(tid));
    }
}

/// After a rollback of an active transaction, none of its records and none
/// of its rollback markers remain.
pub proof fn lemma_rollback_erases(m: Map<Seq<u8>, Seq<u8>>, id: u64, mode: Mode)
    requires
        mvcc_inv(m),
        is_active(m, id),
        mode.spec_mutable(),
    ensures
        forall|k: Seq<u8>| !has_record(rollback_effect(m, id, mode), k, id),
        forall|rk: Seq<u8>|
            !rollback_effect(m, id, mode).dom().contains(update_key(id, rk)),
        !is_active(rollback_effect(m, id, mode), id),
{
    let m2 = rollback_effect(m, id, mode);
    assert forall|k: Seq<u8>| !has_record(m2, k, id) by {
        if has_record(m2, k, id) {
            assert(has_record(m, k, id));
            assert(m.dom().contains(update_key(id, record_key(k, id))));
            assert(rollback_removed(m, id).contains(record_key(k, id)));
        }
    }
    assert forall|rk: Seq<u8>|
        !m2.dom().contains(#[trigger] update_key(id, rk)) by {
        assert(is_marker_of(id, update_key(id, rk)));
        assert(rollback_removed(m, id).contains(update_key(id, rk)));
    }
}

/// First-writer-wins: once any version of a key exists that a snapshot
/// cannot see, a write of that key through the snapshot is a conflict, and
/// by the write contract it fails with `Serialization`.
pub proof fn lemma_first_writer_wins(
    m: Map<Seq<u8>, Seq<u8>>,
    version: u64,
    inv: Seq<u64>,
    k: Seq<u8>,
    v1: u64,
)
    requires
        has_record(m, k, v1),
        !visible(version, inv, v1),
    ensures
        write_conflict(m, version, inv, k),
{
}

/// Removing an active marker — a commit — changes nothing any snapshot
/// reads.
pub proof fn lemma_commit_preserves_reads(
    m: Map<Seq<u8>, Seq<u8>>,
    id: u64,
    version: u64,
    inv: Seq<u64>,
    k: Seq<u8>,
)
    ensures
        spec_get(m.remove(active_key(id)), version, inv, k)
            == spec_get(m, version, inv, k),
{
    let m2 = m.remove(active_key(id));
    lemma_families_distinct();
    assert forall|x: u64| x <= version && !inv.contains(x)
        implies has_record(m, k, x) == has_record(m2, k, x) by {
        assert(record_key(k, x) != active_key(id));
    }
    lemma_lvf_congruent_visible(m, m2, inv, k, version);
    match latest_visible_from(m, inv, k, version) {
        Some(w) => {
            lemma_lvf_some(m, inv, k, version, w);
            assert(record_key(k, w) != active_key(id));
        }
        None => {}
    }
}

/// Fuzzy-read freedom: a repeated read through one snapshot returns the
/// same value even if another, invisible transaction writes the key and
/// commits in between.
pub proof fn lemma_fuzzy_read(
    m: Map<Seq<u8>, Seq<u8>>,
    other: u64,
    k: Seq<u8>,
    value: Option<Seq<u8>>,
    version: u64,
    inv: Seq<u64>,
    key2: Seq<u8>,
)
    requires
        !visible(version, inv, other),
    ensures
        spec_get(write_effect(m, other, k, value).remove(active_key(other)),
            version, inv, key2) == spec_get(m, version, inv, key2),
{
    lemma_invisible_write_hidden(m, other, k, value, version, inv, key2);
    lemma_commit_preserves_reads(write_effect(m, other, k, value), other, version, inv,
        key2);
}

} // verus!

