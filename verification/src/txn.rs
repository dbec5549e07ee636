//! The MVCC engine: transactions over one flat ordered key space.
//!
//! Every piece of state is persisted in the store under an encoded key: the
//! transaction counter, the active markers, the persisted snapshots, the
//! rollback (update) markers, the versioned records and the unversioned
//! metadata. The spec functions here read that state back out of the store's
//! map model, and every operation's contract is stated against them.

use vstd::prelude::*;
use crate::error::Error;
use crate::error::{no_active_txn_error, snapshot_missing_error, no_active_txn_message,
    snapshot_missing_message};
use crate::keycode::{Key, KeyModel, spec_encode, spec_decode, lemma_key_order,
    lemma_key_roundtrip, lemma_encode_injective};
use crate::order::{lex_lt, lemma_lex_asymmetric, lemma_lex_total, lemma_lex_transitive};
use crate::snapshot::{Mode, Snapshot, visible, mode_enc, mode_dec, lemma_mode_roundtrip,
    encode_mode, decode_mode};
use crate::store::{Memory, Bound, BoundModel, above_lo, below_hi, in_bounds, keys_in_range,
    copy_bytes};
use crate::wire::{le64, u64_of_le, opt_bytes_enc, ids_enc, lemma_u64_le_roundtrip,
    lemma_le64_complete, lemma_opt_bytes_enc_injective, lemma_ids_enc_injective,
    serialize_u64, deserialize_u64, serialize_opt_bytes, deserialize_opt_bytes,
    serialize_ids, deserialize_ids};
use vstd::string::StringExecFns;

verus! {

/// Engine status: total transactions started, and transactions now active.
#[derive(Clone, Copy, Debug, PartialEq, Eq, Structural)]
pub struct Status {
    pub txns: u64,
    pub txns_active: u64,
}

// ---------------------------------------------------------------------------
// Encoded keys of the bookkeeping entries
// ---------------------------------------------------------------------------

/// The key of the transaction counter.
pub open spec fn txn_next_key() -> Seq<u8> {
    spec_encode(KeyModel::TxnNext)
}

/// The key of transaction `id`'s active marker.
pub open spec fn active_key(id: u64) -> Seq<u8> {
    spec_encode(KeyModel::TxnActive(id))
}

/// The key of the persisted snapshot for version `v`.
pub open spec fn snapshot_key(v: u64) -> Seq<u8> {
    spec_encode(KeyModel::TxnSnapshot(v))
}

/// The key of the record for user key `k` at version `v`.
pub open spec fn record_key(k: Seq<u8>, v: u64) -> Seq<u8> {
    spec_encode(KeyModel::Record(k, v))
}

/// The key of transaction `id`'s rollback marker for encoded record key
/// `rk`.
pub open spec fn update_key(id: u64, rk: Seq<u8>) -> Seq<u8> {
    spec_encode(KeyModel::TxnUpdate(id, rk))
}

/// The key of the unversioned metadata entry for `k`.
pub open spec fn metadata_key(k: Seq<u8>) -> Seq<u8> {
    spec_encode(KeyModel::Metadata(k))
}

/// Distinct key models have distinct encodings.
pub proof fn lemma_distinct_keys(a: KeyModel, b: KeyModel)
    requires
        a != b,
    ensures
        spec_encode(a) != spec_encode(b),
{
    if spec_encode(a) == spec_encode(b) {
        lemma_encode_injective(a, b);
    }
}

/// The bookkeeping key families never collide: distinct variants get
/// distinct tags, and within a family distinct arguments encode distinctly.
/// Calling this once makes all those facts ambient.
pub proof fn lemma_families_distinct()
    ensures
        forall|x: u64, y: u64| x != y
            ==> #[trigger] active_key(x) != #[trigger] active_key(y),
        forall|x: u64, y: u64| x != y
            ==> #[trigger] snapshot_key(x) != #[trigger] snapshot_key(y),
        forall|k1: Seq<u8>, v1: u64, k2: Seq<u8>, v2: u64| (k1, v1) != (k2, v2)
            ==> #[trigger] record_key(k1, v1) != #[trigger] record_key(k2, v2),
        forall|i1: u64, r1: Seq<u8>, i2: u64, r2: Seq<u8>| (i1, r1) != (i2, r2)
            ==> #[trigger] update_key(i1, r1) != #[trigger] update_key(i2, r2),
        forall|k1: Seq<u8>, k2: Seq<u8>| k1 != k2
            ==> #[trigger] metadata_key(k1) != #[trigger] metadata_key(k2),
        forall|x: u64| #[trigger] active_key(x) != txn_next_key(),
        forall|x: u64| #[trigger] snapshot_key(x) != txn_next_key(),
        forall|k: Seq<u8>, v: u64| #[trigger] record_key(k, v) != txn_next_key(),
        forall|i: u64, r: Seq<u8>| #[trigger] update_key(i, r) != txn_next_key(),
        forall|k: Seq<u8>| #[trigger] metadata_key(k) != txn_next_key(),
        forall|x: u64, y: u64| #[trigger] active_key(x) != #[trigger] snapshot_key(y),
        forall|x: u64, k: Seq<u8>, v: u64|
            #[trigger] active_key(x) != #[trigger] record_key(k, v),
        forall|x: u64, i: u64, r: Seq<u8>|
            #[trigger] active_key(x) != #[trigger] update_key(i, r),
        forall|x: u64, k: Seq<u8>| #[trigger] active_key(x) != #[trigger] metadata_key(k),
        forall|x: u64, k: Seq<u8>, v: u64|
            #[trigger] snapshot_key(x) != #[trigger] record_key(k, v),
        forall|x: u64, i: u64, r: Seq<u8>|
            #[trigger] snapshot_key(x) != #[trigger] update_key(i, r),
        forall|x: u64, k: Seq<u8>| #[trigger] snapshot_key(x) != #[trigger] metadata_key(k),
        forall|k: Seq<u8>, v: u64, i: u64, r: Seq<u8>|
            #[trigger] record_key(k, v) != #[trigger] update_key(i, r),
        forall|k: Seq<u8>, v: u64, k2: Seq<u8>|
            #[trigger] record_key(k, v) != #[trigger] metadata_key(k2),
        forall|i: u64, r: Seq<u8>, k: Seq<u8>|
            #[trigger] update_key(i, r) != #[trigger] metadata_key(k),
{
    assert forall|x: u64, y: u64| x != y
        implies #[trigger] active_key(x) != #[trigger] active_key(y) by {
        lemma_distinct_keys(KeyModel::TxnActive(x), KeyModel::TxnActive(y));
    }
    assert forall|x: u64, y: u64| x != y
        implies #[trigger] snapshot_key(x) != #[trigger] snapshot_key(y) by {
        lemma_distinct_keys(KeyModel::TxnSnapshot(x), KeyModel::TxnSnapshot(y));
    }
    assert forall|k1: Seq<u8>, v1: u64, k2: Seq<u8>, v2: u64| (k1, v1) != (k2, v2)
        implies #[trigger] record_key(k1, v1) != #[trigger] record_key(k2, v2) by {
        lemma_distinct_keys(KeyModel::Record(k1, v1), KeyModel::Record(k2, v2));
    }
    assert forall|i1: u64, r1: Seq<u8>, i2: u64, r2: Seq<u8>| (i1, r1) != (i2, r2)
        implies #[trigger] update_key(i1, r1) != #[trigger] update_key(i2, r2) by {
        lemma_distinct_keys(KeyModel::TxnUpdate(i1, r1), KeyModel::TxnUpdate(i2, r2));
    }
    assert forall|k1: Seq<u8>, k2: Seq<u8>| k1 != k2
        implies #[trigger] metadata_key(k1) != #[trigger] metadata_key(k2) by {
        lemma_distinct_keys(KeyModel::Metadata(k1), KeyModel::Metadata(k2));
    }
    assert forall|x: u64| #[trigger] active_key(x) != txn_next_key() by {
        lemma_distinct_keys(KeyModel::TxnActive(x), KeyModel::TxnNext);
    }
    assert forall|x: u64| #[trigger] snapshot_key(x) != txn_next_key() by {
        lemma_distinct_keys(KeyModel::TxnSnapshot(x), KeyModel::TxnNext);
    }
    assert forall|k: Seq<u8>, v: u64| #[trigger] record_key(k, v) != txn_next_key() by {
        lemma_distinct_keys(KeyModel::Record(k, v), KeyModel::TxnNext);
    }
    assert forall|i: u64, r: Seq<u8>| #[trigger] update_key(i, r) != txn_next_key() by {
        lemma_distinct_keys(KeyModel::TxnUpdate(i, r), KeyModel::TxnNext);
    }
    assert forall|k: Seq<u8>| #[trigger] metadata_key(k) != txn_next_key() by {
        lemma_distinct_keys(KeyModel::Metadata(k), KeyModel::TxnNext);
    }
    assert forall|x: u64, y: u64|
        #[trigger] active_key(x) != #[trigger] snapshot_key(y) by {
        lemma_distinct_keys(KeyModel::TxnActive(x), KeyModel::TxnSnapshot(y));
    }
    assert forall|x: u64, k: Seq<u8>, v: u64|
        #[trigger] active_key(x) != #[trigger] record_key(k, v) by {
        lemma_distinct_keys(KeyModel::TxnActive(x), KeyModel::Record(k, v));
    }
    assert forall|x: u64, i: u64, r: Seq<u8>|
        #[trigger] active_key(x) != #[trigger] update_key(i, r) by {
        lemma_distinct_keys(KeyModel::TxnActive(x), KeyModel::TxnUpdate(i, r));
    }
    assert forall|x: u64, k: Seq<u8>|
        #[trigger] active_key(x) != #[trigger] metadata_key(k) by {
        lemma_distinct_keys(KeyModel::TxnActive(x), KeyModel::Metadata(k));
    }
    assert forall|x: u64, k: Seq<u8>, v: u64|
        #[trigger] snapshot_key(x) != #[trigger] record_key(k, v) by {
        lemma_distinct_keys(KeyModel::TxnSnapshot(x), KeyModel::Record(k, v));
    }
    assert forall|x: u64, i: u64, r: Seq<u8>|
        #[trigger] snapshot_key(x) != #[trigger] update_key(i, r) by {
        lemma_distinct_keys(KeyModel::TxnSnapshot(x), KeyModel::TxnUpdate(i, r));
    }
    assert forall|x: u64, k: Seq<u8>|
        #[trigger] snapshot_key(x) != #[trigger] metadata_key(k) by {
        lemma_distinct_keys(KeyModel::TxnSnapshot(x), KeyModel::Metadata(k));
    }
    assert forall|k: Seq<u8>, v: u64, i: u64, r: Seq<u8>|
        #[trigger] record_key(k, v) != #[trigger] update_key(i, r) by {
        lemma_distinct_keys(KeyModel::Record(k, v), KeyModel::TxnUpdate(i, r));
    }
    assert forall|k: Seq<u8>, v: u64, k2: Seq<u8>|
        #[trigger] record_key(k, v) != #[trigger] metadata_key(k2) by {
        lemma_distinct_keys(KeyModel::Record(k, v), KeyModel::Metadata(k2));
    }
    assert forall|i: u64, r: Seq<u8>, k: Seq<u8>|
        #[trigger] update_key(i, r) != #[trigger] metadata_key(k) by {
        lemma_distinct_keys(KeyModel::TxnUpdate(i, r), KeyModel::Metadata(k));
    }
}

// ---------------------------------------------------------------------------
// State read back from the store map
// ---------------------------------------------------------------------------

/// The stored `Option<bytes>`, read back from its encoding.
pub open spec fn stored_opt(b: Seq<u8>) -> Option<Seq<u8>> {
    choose|x: Option<Seq<u8>>| b == opt_bytes_enc(x)
}

/// Is `b` the encoding of some `Option<bytes>`?
pub open spec fn is_opt_enc(b: Seq<u8>) -> bool {
    exists|x: Option<Seq<u8>>| b == opt_bytes_enc(x)
}

/// The stored ID list, read back from its encoding.
pub open spec fn stored_ids(b: Seq<u8>) -> Seq<u64> {
    choose|x: Seq<u64>| b == ids_enc(x)
}

/// Is `b` the encoding of some ID list?
pub open spec fn is_ids_enc(b: Seq<u8>) -> bool {
    exists|x: Seq<u64>| b == ids_enc(x)
}

/// Reading an encoded option back gives the option.
pub proof fn lemma_stored_opt(x: Option<Seq<u8>>)
    ensures
        stored_opt(opt_bytes_enc(x)) == x,
        is_opt_enc(opt_bytes_enc(x)),
{
    let y = choose|y: Option<Seq<u8>>| opt_bytes_enc(x) == opt_bytes_enc(y);
    lemma_opt_bytes_enc_injective(x, y);
}

/// Reading an encoded ID list back gives the list.
pub proof fn lemma_stored_ids(x: Seq<u64>)
    ensures
        stored_ids(ids_enc(x)) == x,
        is_ids_enc(ids_enc(x)),
{
    let y = choose|y: Seq<u64>| ids_enc(x) == ids_enc(y);
    lemma_ids_enc_injective(x, y);
}

/// Inserting a canonical key whose value parses as its kind demands keeps
/// the store well formed.
pub proof fn lemma_wf_insert(m: Map<Seq<u8>, Seq<u8>>, km: KeyModel, b: Seq<u8>)
    requires
        wf_store(m),
        match km {
            KeyModel::TxnNext => b.len() == 8,
            KeyModel::TxnActive(_) => mode_dec(b) is Some,
            KeyModel::TxnSnapshot(v) => is_ids_enc(b) && ids_wf(stored_ids(b), v),
            KeyModel::Record(_, _) => is_opt_enc(b),
            _ => true,
        },
    ensures
        wf_store(m.insert(spec_encode(km), b)),
{
    let w0 = spec_encode(km);
    let m2 = m.insert(w0, b);
    lemma_families_distinct();
    lemma_key_roundtrip(km);
    assert forall|w: Seq<u8>| #[trigger] m2.dom().contains(w)
        implies (spec_decode(w) matches Some(km2) && spec_encode(km2) == w) by {
        if w != w0 {
            assert(m.dom().contains(w));
        }
    }
    assert(m2.dom().contains(txn_next_key()) ==> m2[txn_next_key()].len() == 8) by {
        if m2.dom().contains(txn_next_key()) && w0 != txn_next_key() {
            assert(m.dom().contains(txn_next_key()));
        }
    }
    assert forall|id: u64| #[trigger] is_active(m2, id)
        implies mode_dec(m2[active_key(id)]) is Some by {
        if w0 != active_key(id) {
            assert(is_active(m, id));
        } else {
            lemma_encode_injective(km, KeyModel::TxnActive(id));
        }
    }
    assert forall|v: u64| #[trigger] has_snapshot(m2, v)
        implies is_ids_enc(m2[snapshot_key(v)]) && ids_wf(snapshot_ids(m2, v), v) by {
        if w0 != snapshot_key(v) {
            assert(has_snapshot(m, v));
        } else {
            lemma_encode_injective(km, KeyModel::TxnSnapshot(v));
        }
    }
    assert forall|k: Seq<u8>, v: u64| #[trigger] has_record(m2, k, v)
        implies is_opt_enc(m2[record_key(k, v)]) by {
        if w0 != record_key(k, v) {
            assert(has_record(m, k, v));
        } else {
            lemma_encode_injective(km, KeyModel::Record(k, v));
        }
    }
}

/// Removing any entry keeps the store well formed.
pub proof fn lemma_wf_remove(m: Map<Seq<u8>, Seq<u8>>, w0: Seq<u8>)
    requires
        wf_store(m),
    ensures
        wf_store(m.remove(w0)),
{
    let m2 = m.remove(w0);
    assert forall|w: Seq<u8>| #[trigger] m2.dom().contains(w)
        implies (spec_decode(w) matches Some(km2) && spec_encode(km2) == w) by {
        assert(m.dom().contains(w));
    }
    assert(m2.dom().contains(txn_next_key()) ==> m2[txn_next_key()].len() == 8) by {
        if m2.dom().contains(txn_next_key()) {
            assert(m.dom().contains(txn_next_key()));
        }
    }
    assert forall|id: u64| #[trigger] is_active(m2, id)
        implies mode_dec(m2[active_key(id)]) is Some by {
        assert(is_active(m, id));
    }
    assert forall|v: u64| #[trigger] has_snapshot(m2, v)
        implies is_ids_enc(m2[snapshot_key(v)]) && ids_wf(snapshot_ids(m2, v), v) by {
        assert(has_snapshot(m, v));
    }
    assert forall|k: Seq<u8>, v: u64| #[trigger] has_record(m2, k, v)
        implies is_opt_enc(m2[record_key(k, v)]) by {
        assert(has_record(m, k, v));
    }
}

/// The next unused transaction ID: the stored counter, or 1 if none is
/// stored yet.
pub open spec fn txn_next(m: Map<Seq<u8>, Seq<u8>>) -> u64 {
    if m.dom().contains(txn_next_key()) {
        u64_of_le(m[txn_next_key()])
    } else {
        1
    }
}

/// Is transaction `id` active?
pub open spec fn is_active(m: Map<Seq<u8>, Seq<u8>>, id: u64) -> bool {
    m.dom().contains(active_key(id))
}

/// The mode stored in transaction `id`'s active marker.
pub open spec fn active_mode(m: Map<Seq<u8>, Seq<u8>>, id: u64) -> Mode {
    match mode_dec(m[active_key(id)]) {
        Some(mode) => mode,
        None => Mode::ReadWrite,
    }
}

/// Is a snapshot persisted for version `v`?
pub open spec fn has_snapshot(m: Map<Seq<u8>, Seq<u8>>, v: u64) -> bool {
    m.dom().contains(snapshot_key(v))
}

/// The invisible ID list persisted for version `v`.
pub open spec fn snapshot_ids(m: Map<Seq<u8>, Seq<u8>>, v: u64) -> Seq<u64> {
    stored_ids(m[snapshot_key(v)])
}

/// Is there a record for user key `k` at version `v`?
pub open spec fn has_record(m: Map<Seq<u8>, Seq<u8>>, k: Seq<u8>, v: u64) -> bool {
    m.dom().contains(record_key(k, v))
}

/// The record's stored value at (`k`, `v`): `Some` bytes for a set, `None`
/// for a tombstone.
pub open spec fn record_value(m: Map<Seq<u8>, Seq<u8>>, k: Seq<u8>, v: u64) -> Option<Seq<u8>> {
    stored_opt(m[record_key(k, v)])
}

/// An ID list strictly ascending and strictly below `v`.
pub open spec fn ids_wf(ids: Seq<u64>, v: u64) -> bool {
    &&& forall|i: int, j: int| 0 <= i < j < ids.len() ==> ids[i] < ids[j]
    &&& forall|i: int| 0 <= i < ids.len() ==> #[trigger] ids[i] < v
}

/// Store well-formedness: every key is a canonical encoding, and every
/// bookkeeping value parses as what its key demands.
pub open spec fn wf_store(m: Map<Seq<u8>, Seq<u8>>) -> bool {
    &&& forall|w: Seq<u8>| #[trigger] m.dom().contains(w)
        ==> (spec_decode(w) matches Some(km) && spec_encode(km) == w)
    &&& m.dom().contains(txn_next_key()) ==> m[txn_next_key()].len() == 8
    &&& forall|id: u64| #[trigger] is_active(m, id) ==> mode_dec(m[active_key(id)]) is Some
    &&& forall|v: u64| #[trigger] has_snapshot(m, v)
        ==> is_ids_enc(m[snapshot_key(v)]) && ids_wf(snapshot_ids(m, v), v)
    &&& forall|k: Seq<u8>, v: u64| #[trigger] has_record(m, k, v)
        ==> is_opt_enc(m[record_key(k, v)])
}

/// The MVCC bookkeeping invariant: IDs are handed out by the counter and
/// never reused, and every record of an active (uncommitted) transaction is
/// reachable from one of its rollback markers.
pub open spec fn mvcc_inv(m: Map<Seq<u8>, Seq<u8>>) -> bool {
    &&& txn_next(m) >= 1
    &&& forall|id: u64| #[trigger] is_active(m, id) ==> id < txn_next(m)
    &&& forall|k: Seq<u8>, v: u64| #[trigger] has_record(m, k, v) ==> v < txn_next(m)
    &&& forall|k: Seq<u8>, v: u64| #[trigger] has_record(m, k, v) && is_active(m, v)
        ==> m.dom().contains(update_key(v, record_key(k, v)))
    &&& forall|id: u64, rk: Seq<u8>| #[trigger] m.dom().contains(update_key(id, rk))
        ==> exists|k: Seq<u8>| rk == record_key(k, id)
    &&& forall|id: u64| #[trigger] is_active(m, id) ==> has_snapshot(m, id)
}

/// How many transaction IDs below `v` are active.
pub open spec fn count_active_below(m: Map<Seq<u8>, Seq<u8>>, v: u64) -> nat
    decreases v,
{
    if v == 0 {
        0
    } else {
        count_active_below(m, (v - 1) as u64) + if is_active(m, (v - 1) as u64) {
            1nat
        } else {
            0nat
        }
    }
}

/// The count is bounded by the range it counts over.
pub proof fn lemma_count_bound(m: Map<Seq<u8>, Seq<u8>>, v: u64)
    ensures
        count_active_below(m, v) <= v,
    decreases v,
{
    if v > 0 {
        lemma_count_bound(m, (v - 1) as u64);
    }
}

/// Counting over a range with no active IDs adds nothing.
pub proof fn lemma_count_flat(m: Map<Seq<u8>, Seq<u8>>, lo: u64, hi: u64)
    requires
        lo <= hi,
        forall|x: u64| lo <= x < hi ==> !is_active(m, x),
    ensures
        count_active_below(m, hi) == count_active_below(m, lo),
    decreases hi - lo,
{
    if hi > lo {
        lemma_count_flat(m, lo, (hi - 1) as u64);
    }
}


// ---------------------------------------------------------------------------
// Visibility
// ---------------------------------------------------------------------------

/// The greatest version at or below `v` of user key `k` that has a record
/// not masked by the invisible set, scanning downward.
pub open spec fn latest_visible_from(
    m: Map<Seq<u8>, Seq<u8>>,
    inv: Seq<u64>,
    k: Seq<u8>,
    v: u64,
) -> Option<u64>
    decreases v,
{
    if has_record(m, k, v) && !inv.contains(v) {
        Some(v)
    } else if v == 0 {
        None
    } else {
        latest_visible_from(m, inv, k, (v - 1) as u64)
    }
}

/// What a snapshot at `version` with invisible set `inv` reads for user key
/// `k`: the stored option at the latest visible version, or `None` if no
/// version is visible. A stored `None` is a tombstone, which reads as
/// absent.
pub open spec fn spec_get(
    m: Map<Seq<u8>, Seq<u8>>,
    version: u64,
    inv: Seq<u64>,
    k: Seq<u8>,
) -> Option<Seq<u8>> {
    match latest_visible_from(m, inv, k, version) {
        Some(v) => record_value(m, k, v),
        None => None,
    }
}

/// What the latest-visible scan finds, it finds correctly: the version has a
/// visible record, and nothing above it (up to the scan start) does.
pub proof fn lemma_lvf_some(m: Map<Seq<u8>, Seq<u8>>, inv: Seq<u64>, k: Seq<u8>, v: u64, w: u64)
    requires
        latest_visible_from(m, inv, k, v) == Some(w),
    ensures
        w <= v,
        has_record(m, k, w) && !inv.contains(w),
        forall|x: u64| w < x <= v ==> !(has_record(m, k, x) && !inv.contains(x)),
    decreases v,
{
    if !(has_record(m, k, v) && !inv.contains(v)) && v > 0 {
        lemma_lvf_some(m, inv, k, (v - 1) as u64, w);
    }
}


/// A gap with no visible record can be skipped.
pub proof fn lemma_lvf_skip(m: Map<Seq<u8>, Seq<u8>>, inv: Seq<u64>, k: Seq<u8>, v: u64, w: u64)
    requires
        w <= v,
        forall|x: u64| w < x <= v ==> !(has_record(m, k, x) && !inv.contains(x)),
    ensures
        latest_visible_from(m, inv, k, v) == latest_visible_from(m, inv, k, w),
    decreases v,
{
    if v > w {
        lemma_lvf_skip(m, inv, k, (v - 1) as u64, w);
    }
}


// ---------------------------------------------------------------------------
// Range characterization: which keys a scan between two encoded bounds can
// possibly see
// ---------------------------------------------------------------------------

/// A store key between two active markers is an active marker in between.
pub proof fn lemma_in_active_range(m: Map<Seq<u8>, Seq<u8>>, w: Seq<u8>, lo: u64, hi: u64)
    requires
        wf_store(m),
        m.dom().contains(w),
        !lex_lt(w, active_key(lo)),
        lex_lt(w, active_key(hi)),
    ensures
        exists|a: u64| lo <= a < hi && w == active_key(a),
{
    let km = spec_decode(w).unwrap();
    assert(spec_encode(km) == w);
    lemma_key_order(km, KeyModel::TxnActive(lo));
    lemma_key_order(km, KeyModel::TxnActive(hi));
    match km {
        KeyModel::TxnActive(a) => {
            assert(lo <= a < hi);
            assert(w == active_key(a));
        }
        _ => {
            assert(false);
        }
    }
}

/// A store key between two versions of one record key is a record of that
/// user key at a version in between (both endpoints included).
pub proof fn lemma_in_record_range(
    m: Map<Seq<u8>, Seq<u8>>,
    w: Seq<u8>,
    k: Seq<u8>,
    lo_v: u64,
    hi_v: u64,
)
    requires
        wf_store(m),
        m.dom().contains(w),
        !lex_lt(w, record_key(k, lo_v)),
        !lex_lt(record_key(k, hi_v), w),
    ensures
        exists|v: u64| lo_v <= v <= hi_v && w == record_key(k, v),
{
    let km = spec_decode(w).unwrap();
    assert(spec_encode(km) == w);
    lemma_key_order(km, KeyModel::Record(k, lo_v));
    lemma_key_order(KeyModel::Record(k, hi_v), km);
    match km {
        KeyModel::Record(k2, v2) => {
            lemma_lex_total(k2, k);
            assert(k2 == k);
            assert(lo_v <= v2 <= hi_v);
            assert(w == record_key(k, v2));
        }
        _ => {
            assert(false);
        }
    }
}

/// A store key in a transaction's update-marker range is one of that
/// transaction's markers. The upper bound is the next transaction's marker
/// range, or for the greatest ID the metadata space.
pub proof fn lemma_in_update_range(m: Map<Seq<u8>, Seq<u8>>, w: Seq<u8>, id: u64)
    requires
        wf_store(m),
        m.dom().contains(w),
        !lex_lt(w, update_key(id, Seq::<u8>::empty())),
        id < u64::MAX ==> lex_lt(w, update_key((id + 1) as u64, Seq::<u8>::empty())),
        id == u64::MAX ==> lex_lt(w, metadata_key(Seq::<u8>::empty())),
    ensures
        exists|rk: Seq<u8>| w == update_key(id, rk),
{
    let km = spec_decode(w).unwrap();
    assert(spec_encode(km) == w);
    lemma_key_order(km, KeyModel::TxnUpdate(id, Seq::<u8>::empty()));
    if id < u64::MAX {
        lemma_key_order(km, KeyModel::TxnUpdate((id + 1) as u64, Seq::<u8>::empty()));
    } else {
        lemma_key_order(km, KeyModel::Metadata(Seq::<u8>::empty()));
    }
    match km {
        KeyModel::TxnUpdate(id2, rk) => {
            assert(id2 == id);
            assert(w == update_key(id, rk));
        }
        _ => {
            assert(false);
        }
    }
}

// ---------------------------------------------------------------------------
// The engine
// ---------------------------------------------------------------------------

/// An MVCC-based transactional key-value store, owning the underlying
/// ordered store.
pub struct MVCC {
    store: Memory,
}

impl View for MVCC {
    type V = Map<Seq<u8>, Seq<u8>>;

    closed spec fn view(&self) -> Map<Seq<u8>, Seq<u8>> {
        self.store@
    }
}

impl MVCC {
    /// The store is sorted, its keys are canonical encodings, and the MVCC
    /// bookkeeping invariant holds.
    pub closed spec fn wf(&self) -> bool {
        &&& self.store.wf()
        &&& wf_store(self@)
        &&& mvcc_inv(self@)
    }

    /// A well-formed engine's store map satisfies the open predicates that
    /// the isolation laws of this crate are stated over.
    pub proof fn lemma_wf_parts(&self)
        requires
            self.wf(),
        ensures
            wf_store(self@),
            mvcc_inv(self@),
    {
    }

    /// Creates a new MVCC key-value store over the given ordered store.
    pub fn new(store: Memory) -> (r: MVCC)
        requires
            store.wf(),
            wf_store(store@),
            mvcc_inv(store@),
        ensures
            r.wf(),
            r@ == store@,
    {
        MVCC { store }
    }

    /// Fetches an unversioned metadata value.
    pub fn get_metadata(&self, key: &[u8]) -> (r: Result<Option<Vec<u8>>, Error>)
        requires
            self.wf(),
        ensures
            r matches Ok(v) && (match v {
                Some(b) => self@.contains_key(metadata_key(key@)) && b@ == self@[metadata_key(key@)],
                None => !self@.contains_key(metadata_key(key@)),
            }),
    {
        let k = Key::Metadata(vstd::slice::slice_to_vec(key)).encode();
        Ok(self.store.get(k.as_slice()))
    }

    /// Sets an unversioned metadata value.
    pub fn set_metadata(&mut self, key: &[u8], value: Vec<u8>) -> (r: Result<(), Error>)
        requires
            old(self).wf(),
        ensures
            final(self).wf(),
            final(self)@ == old(self)@.insert(metadata_key(key@), value@),
            r is Ok,
    {
        let k = Key::Metadata(vstd::slice::slice_to_vec(key)).encode();
        self.store.set(k.as_slice(), value);
        proof {
            lemma_metadata_insert_wf(old(self)@, key@, value@);
        }
        Ok(())
    }

    /// Returns engine status: how many transactions have been started, and
    /// how many are active right now.
    pub fn status(&self) -> (r: Result<Status, Error>)
        requires
            self.wf(),
        ensures
            r matches Ok(s) && s.txns == txn_next(self@) - 1
                && s.txns_active == count_active_below(self@, u64::MAX),
    {
        let ghost m = self@;
        let next = self.read_txn_next();
        let mut count: u64 = 0;
        let mut cur: u64 = 0;
        let hi_bound = Bound::Excluded(Key::TxnActive(u64::MAX).encode());
        proof {
            lemma_count_bound(m, u64::MAX);
        }
        while cur < u64::MAX
            invariant
                self.wf(),
                m == self@,
                next == txn_next(m),
                next >= 1,
                cur <= u64::MAX,
                hi_bound@ == BoundModel::Excluded(active_key(u64::MAX)),
                count == count_active_below(m, cur),
                count_active_below(m, cur) <= count_active_below(m, u64::MAX),
                count_active_below(m, u64::MAX) <= u64::MAX,
            decreases u64::MAX - cur,
        {
            let lo_bound = Bound::Included(Key::TxnActive(cur).encode());
            let found = self.store.first_in(&lo_bound, &hi_bound);
            match found {
                None => {
                    proof {
                        assert forall|x: u64| cur <= x < u64::MAX implies !is_active(m, x) by {
                            if is_active(m, x) {
                                lemma_key_order(KeyModel::TxnActive(x), KeyModel::TxnActive(cur));
                                lemma_key_order(KeyModel::TxnActive(x),
                                    KeyModel::TxnActive(u64::MAX));
                                assert(m.dom().contains(active_key(x)));
                                assert(in_bounds(lo_bound@, hi_bound@, active_key(x)));
                            }
                        }
                        lemma_count_flat(m, cur, u64::MAX);
                    }
                    return Ok(Status { txns: next - 1, txns_active: count });
                }
                Some(e) => {
                    proof {
                        lemma_in_active_range(m, e.0@, cur, u64::MAX);
                    }
                    let a = match Key::decode(e.0.as_slice()) {
                        Ok(Key::TxnActive(a)) => a,
                        _ => {
                            proof {
                                let aa = choose|aa: u64|
                                    cur <= aa < u64::MAX && e.0@ == active_key(aa);
                                lemma_key_roundtrip(KeyModel::TxnActive(aa));
                                assert(false);
                            }
                            return Err(Error::Internal(String::from_str(
                                "Expected TxnActive key")));
                        }
                    };
                    proof {
                        let aa = choose|aa: u64|
                            cur <= aa < u64::MAX && e.0@ == active_key(aa);
                        lemma_key_roundtrip(KeyModel::TxnActive(aa));
                        assert(spec_decode(e.0@) == Some(KeyModel::TxnActive(aa)));
                        assert(a == aa);
                        assert(is_active(m, a));
                        // nothing active between cur and a
                        assert forall|x: u64| cur <= x < a implies !is_active(m, x) by {
                            if is_active(m, x) {
                                lemma_key_order(KeyModel::TxnActive(x), KeyModel::TxnActive(cur));
                                lemma_key_order(KeyModel::TxnActive(x),
                                    KeyModel::TxnActive(u64::MAX));
                                lemma_key_order(KeyModel::TxnActive(x), KeyModel::TxnActive(a));
                                assert(m.dom().contains(active_key(x)));
                                assert(in_bounds(lo_bound@, hi_bound@, active_key(x)));
                                assert(lex_lt(active_key(x), e.0@));
                                assert(false);
                            }
                        }
                        lemma_count_flat(m, cur, a);
                        assert(count_active_below(m, (a + 1) as u64)
                            == count_active_below(m, a) + 1);
                        lemma_count_mono(m, (a + 1) as u64, u64::MAX);
                    }
                    count = count + 1;
                    cur = a + 1;
                }
            }
        }
        proof {
            lemma_count_flat(m, u64::MAX, u64::MAX);
        }
        Ok(Status { txns: next - 1, txns_active: count })
    }

    /// Reads the transaction counter, defaulting to 1.
    fn read_txn_next(&self) -> (r: u64)
        requires
            self.wf(),
        ensures
            r == txn_next(self@),
            r >= 1,
    {
        let k = Key::TxnNext.encode();
        match self.store.get(k.as_slice()) {
            Some(v) => {
                proof {
                    assert(self@[txn_next_key()].len() == 8);
                    lemma_le64_complete(v@);
                }
                match deserialize_u64(v.as_slice()) {
                    Some(n) => {
                        proof {
                            assert(v@.take(8) =~= v@);
                            lemma_le64_injective_view(n, v@);
                        }
                        n
                    }
                    None => {
                        proof {
                            assert(false);
                        }
                        1
                    }
                }
            }
            None => 1,
        }
    }
}

/// `le64(n) == s` with `u64_of_le(s)` known pins `n` down.
proof fn lemma_le64_injective_view(n: u64, s: Seq<u8>)
    requires
        s.len() == 8,
        le64(n) == s,
    ensures
        n == u64_of_le(s),
{
    lemma_u64_le_roundtrip(n);
}

/// Counting is monotone in the upper bound.
pub proof fn lemma_count_mono(m: Map<Seq<u8>, Seq<u8>>, lo: u64, hi: u64)
    requires
        lo <= hi,
    ensures
        count_active_below(m, lo) <= count_active_below(m, hi),
    decreases hi - lo,
{
    if hi > lo {
        lemma_count_mono(m, lo, (hi - 1) as u64);
    }
}

// ---------------------------------------------------------------------------
// Transactions
// ---------------------------------------------------------------------------

/// The IDs of the transactions active below `v`, in ascending order. This is
/// the invisible set a snapshot taken at version `v` records.
pub open spec fn active_ids_below(m: Map<Seq<u8>, Seq<u8>>, v: u64) -> Seq<u64>
    decreases v,
{
    if v == 0 {
        Seq::empty()
    } else {
        let prev = active_ids_below(m, (v - 1) as u64);
        if is_active(m, (v - 1) as u64) {
            prev.push((v - 1) as u64)
        } else {
            prev
        }
    }
}

/// The active-ID list is strictly ascending, below its version, and holds
/// exactly the active IDs below the version.
pub proof fn lemma_aib_props(m: Map<Seq<u8>, Seq<u8>>, v: u64)
    ensures
        ids_wf(active_ids_below(m, v), v),
        forall|x: u64| active_ids_below(m, v).contains(x) == (is_active(m, x) && x < v),
    decreases v,
{
    let ids = active_ids_below(m, v);
    if v == 0 {
        assert forall|x: u64| ids.contains(x) == (is_active(m, x) && x < v) by {
            if ids.contains(x) {
                let i = choose|i: int| 0 <= i < ids.len() && ids[i] == x;
            }
        }
    } else {
        let v1 = (v - 1) as u64;
        lemma_aib_props(m, v1);
        let prev = active_ids_below(m, v1);
        assert forall|x: u64| ids.contains(x) == (is_active(m, x) && x < v) by {
            if is_active(m, v1) {
                assert(ids == prev.push(v1));
                if ids.contains(x) {
                    let i = choose|i: int| 0 <= i < ids.len() && ids[i] == x;
                    if i < prev.len() {
                        assert(prev[i] == x);
                        assert(prev.contains(x));
                    } else {
                        assert(x == v1);
                    }
                }
                if is_active(m, x) && x < v {
                    if x < v1 {
                        assert(prev.contains(x));
                        let i = choose|i: int| 0 <= i < prev.len() && prev[i] == x;
                        assert(ids[i] == x);
                    } else {
                        assert(ids[prev.len() as int] == v1);
                    }
                }
            } else {
                assert(ids == prev);
                if is_active(m, x) && x < v {
                    assert(x != v1);
                }
            }
        }
        assert(ids_wf(ids, v)) by {
            if is_active(m, v1) {
                assert(ids == prev.push(v1));
                assert forall|i: int, j: int| 0 <= i < j < ids.len()
                    implies ids[i] < ids[j] by {
                    if j < prev.len() {
                    } else {
                        assert(ids[j] == v1);
                        assert(ids[i] == prev[i]);
                        assert(prev[i] < v1);
                    }
                }
                assert(forall|i: int| 0 <= i < ids.len() ==> #[trigger] ids[i] < v);
            }
        }
    }
}

/// Over a span with no active IDs the list does not grow.
pub proof fn lemma_aib_flat(m: Map<Seq<u8>, Seq<u8>>, lo: u64, hi: u64)
    requires
        lo <= hi,
        forall|x: u64| lo <= x < hi ==> !is_active(m, x),
    ensures
        active_ids_below(m, hi) == active_ids_below(m, lo),
    decreases hi - lo,
{
    if hi > lo {
        lemma_aib_flat(m, lo, (hi - 1) as u64);
    }
}

/// Two maps that agree on the active markers below `v` list the same IDs.
pub proof fn lemma_aib_congruent(m1: Map<Seq<u8>, Seq<u8>>, m2: Map<Seq<u8>, Seq<u8>>, v: u64)
    requires
        forall|x: u64| x < v ==> is_active(m1, x) == is_active(m2, x),
    ensures
        active_ids_below(m1, v) == active_ids_below(m2, v),
    decreases v,
{
    if v > 0 {
        lemma_aib_congruent(m1, m2, (v - 1) as u64);
    }
}

/// Collects the IDs of the transactions active below `version`, ascending,
/// by walking the active markers in key order.
fn take_snapshot_ids(store: &Memory, version: u64) -> (r: Vec<u64>)
    requires
        store.wf(),
        wf_store(store@),
    ensures
        r@ == active_ids_below(store@, version),
{
    let ghost m = store@;
    let mut out: Vec<u64> = Vec::new();
    let mut cur: u64 = 0;
    let hi_bound = Bound::Excluded(Key::TxnActive(version).encode());
    while cur < version
        invariant
            store.wf(),
            wf_store(m),
            m == store@,
            cur <= version,
            hi_bound@ == BoundModel::Excluded(active_key(version)),
            out@ == active_ids_below(m, cur),
        decreases version - cur,
    {
        let lo_bound = Bound::Included(Key::TxnActive(cur).encode());
        match store.first_in(&lo_bound, &hi_bound) {
            None => {
                proof {
                    assert forall|x: u64| cur <= x < version implies !is_active(m, x) by {
                        if is_active(m, x) {
                            lemma_key_order(KeyModel::TxnActive(x), KeyModel::TxnActive(cur));
                            lemma_key_order(KeyModel::TxnActive(x), KeyModel::TxnActive(version));
                            assert(m.dom().contains(active_key(x)));
                            assert(in_bounds(lo_bound@, hi_bound@, active_key(x)));
                        }
                    }
                    lemma_aib_flat(m, cur, version);
                }
                return out;
            }
            Some(e) => {
                proof {
                    lemma_in_active_range(m, e.0@, cur, version);
                }
                let a = match Key::decode(e.0.as_slice()) {
                    Ok(Key::TxnActive(a)) => a,
                    _ => {
                        proof {
                            let aa = choose|aa: u64|
                                cur <= aa < version && e.0@ == active_key(aa);
                            lemma_key_roundtrip(KeyModel::TxnActive(aa));
                            assert(false);
                        }
                        return out;
                    }
                };
                proof {
                    let aa = choose|aa: u64| cur <= aa < version && e.0@ == active_key(aa);
                    lemma_key_roundtrip(KeyModel::TxnActive(aa));
                    assert(spec_decode(e.0@) == Some(KeyModel::TxnActive(aa)));
                    assert(a == aa);
                    assert(is_active(m, a));
                    assert forall|x: u64| cur <= x < a implies !is_active(m, x) by {
                        if is_active(m, x) {
                            lemma_key_order(KeyModel::TxnActive(x), KeyModel::TxnActive(cur));
                            lemma_key_order(KeyModel::TxnActive(x), KeyModel::TxnActive(version));
                            lemma_key_order(KeyModel::TxnActive(x), KeyModel::TxnActive(a));
                            assert(m.dom().contains(active_key(x)));
                            assert(in_bounds(lo_bound@, hi_bound@, active_key(x)));
                            assert(lex_lt(active_key(x), e.0@));
                            assert(false);
                        }
                    }
                    lemma_aib_flat(m, cur, a);
                    assert(active_ids_below(m, (a + 1) as u64)
                        == active_ids_below(m, a).push(a));
                }
                out.push(a);
                cur = a + 1;
            }
        }
    }
    out
}

/// The entries a begin writes: the bumped counter, the new active marker,
/// and the persisted snapshot of currently active IDs.
pub open spec fn begin_writes(m: Map<Seq<u8>, Seq<u8>>, id: u64, mode: Mode)
    -> Map<Seq<u8>, Seq<u8>>
    recommends
        id < u64::MAX,
{
    m.insert(txn_next_key(), le64((id + 1) as u64))
        .insert(active_key(id), mode_enc(mode))
        .insert(snapshot_key(id), ids_enc(active_ids_below(m, id)))
}

/// How a begin changes the bookkeeping state.
pub proof fn lemma_begin_wf(m: Map<Seq<u8>, Seq<u8>>, id: u64, mode: Mode)
    requires
        wf_store(m),
        mvcc_inv(m),
        id == txn_next(m),
        id < u64::MAX,
    ensures
        wf_store(begin_writes(m, id, mode)),
        mvcc_inv(begin_writes(m, id, mode)),
        txn_next(begin_writes(m, id, mode)) == id + 1,
        forall|x: u64| is_active(begin_writes(m, id, mode), x) == (is_active(m, x) || x == id),
        active_mode(begin_writes(m, id, mode), id) == mode,
        forall|x: u64| x != id && is_active(m, x)
            ==> active_mode(begin_writes(m, id, mode), x) == active_mode(m, x),
        forall|x: u64| x != id
            ==> has_snapshot(begin_writes(m, id, mode), x) == has_snapshot(m, x),
        has_snapshot(begin_writes(m, id, mode), id),
        snapshot_ids(begin_writes(m, id, mode), id) == active_ids_below(m, id),
        forall|x: u64| x != id && has_snapshot(m, x)
            ==> snapshot_ids(begin_writes(m, id, mode), x) == snapshot_ids(m, x),
        forall|k: Seq<u8>, v: u64|
            has_record(begin_writes(m, id, mode), k, v) == has_record(m, k, v),
        forall|k: Seq<u8>, v: u64| has_record(m, k, v)
            ==> record_value(begin_writes(m, id, mode), k, v) == record_value(m, k, v),
        forall|id2: u64, rk: Seq<u8>|
            begin_writes(m, id, mode).dom().contains(update_key(id2, rk))
                == m.dom().contains(update_key(id2, rk)),
{
    let m2 = begin_writes(m, id, mode);
    let ids = active_ids_below(m, id);
    let ma = m.insert(txn_next_key(), le64((id + 1) as u64));
    let mb = ma.insert(active_key(id), mode_enc(mode));
    lemma_families_distinct();
    lemma_key_roundtrip(KeyModel::TxnNext);
    lemma_key_roundtrip(KeyModel::TxnActive(id));
    lemma_key_roundtrip(KeyModel::TxnSnapshot(id));
    lemma_aib_props(m, id);
    lemma_stored_ids(ids);
    lemma_mode_roundtrip(mode);
    lemma_u64_le_roundtrip((id + 1) as u64);
    lemma_wf_insert(m, KeyModel::TxnNext, le64((id + 1) as u64));
    lemma_wf_insert(ma, KeyModel::TxnActive(id), mode_enc(mode));
    lemma_wf_insert(mb, KeyModel::TxnSnapshot(id), ids_enc(ids));
    assert(wf_store(m2));
    assert(txn_next(m2) == id + 1);
    assert forall|x: u64| is_active(m2, x) == (is_active(m, x) || x == id) by {
        assert(active_key(x) != txn_next_key() && active_key(x) != snapshot_key(id));
        if x != id {
            assert(active_key(x) != active_key(id));
        }
    }
    assert(active_mode(m2, id) == mode);
    assert forall|x: u64| x != id && is_active(m, x)
        implies active_mode(m2, x) == active_mode(m, x) by {
        assert(active_key(x) != active_key(id));
    }
    assert forall|x: u64| x != id
        implies has_snapshot(m2, x) == has_snapshot(m, x) by {
        assert(snapshot_key(x) != snapshot_key(id));
        assert(snapshot_key(x) != txn_next_key() && snapshot_key(x) != active_key(id));
    }
    assert(has_snapshot(m2, id) && snapshot_ids(m2, id) == ids);
    assert forall|k: Seq<u8>, v: u64|
        has_record(m2, k, v) == has_record(m, k, v) by {
        assert(record_key(k, v) != txn_next_key() && record_key(k, v) != active_key(id)
            && record_key(k, v) != snapshot_key(id));
    }
    assert forall|k: Seq<u8>, v: u64| has_record(m, k, v)
        implies record_value(m2, k, v) == record_value(m, k, v) by {
        assert(record_key(k, v) != txn_next_key() && record_key(k, v) != active_key(id)
            && record_key(k, v) != snapshot_key(id));
    }
    assert forall|id2: u64, rk: Seq<u8>|
        m2.dom().contains(update_key(id2, rk)) == m.dom().contains(update_key(id2, rk)) by {
        assert(update_key(id2, rk) != txn_next_key() && update_key(id2, rk) != active_key(id)
            && update_key(id2, rk) != snapshot_key(id));
    }
    assert(mvcc_inv(m2)) by {
        assert forall|x: u64| #[trigger] is_active(m2, x) implies x < txn_next(m2) by {
            if x != id {
                assert(is_active(m, x));
            }
        }
        assert forall|k: Seq<u8>, v: u64| #[trigger] has_record(m2, k, v)
            implies v < txn_next(m2) by {
            assert(has_record(m, k, v));
        }
        assert forall|k: Seq<u8>, v: u64|
            #[trigger] has_record(m2, k, v) && is_active(m2, v)
                implies m2.dom().contains(update_key(v, record_key(k, v))) by {
            assert(has_record(m, k, v));
            assert(v < txn_next(m));
            assert(v != id);
            assert(is_active(m, v));
            assert(m.dom().contains(update_key(v, record_key(k, v))));
        }
        assert forall|id2: u64, rk: Seq<u8>| #[trigger] m2.dom().contains(update_key(id2, rk))
            implies exists|k: Seq<u8>| rk == record_key(k, id2) by {
            assert(m.dom().contains(update_key(id2, rk)));
        }
        assert forall|x: u64| #[trigger] is_active(m2, x) implies has_snapshot(m2, x) by {
            if x != id {
                assert(is_active(m, x));
                assert(has_snapshot(m, x));
            }
        }
    }
}

/// An MVCC transaction.
pub struct Transaction {
    id: u64,
    mode: Mode,
    snapshot: Snapshot,
}

impl Transaction {
    /// The transaction's ID.
    pub closed spec fn spec_id(&self) -> u64 {
        self.id
    }

    /// The transaction's mode.
    pub closed spec fn spec_mode(&self) -> Mode {
        self.mode
    }

    /// The snapshot the transaction reads from.
    pub closed spec fn spec_snapshot(&self) -> Snapshot {
        self.snapshot
    }

    /// The snapshot is well formed, and belongs to the transaction's own
    /// version, except that a snapshot-mode transaction reads at its named
    /// past version.
    pub open spec fn wf(&self) -> bool {
        &&& self.spec_snapshot().wf()
        &&& match self.spec_mode() {
            Mode::Snapshot { version } => self.spec_snapshot().spec_version() == version,
            _ => self.spec_snapshot().spec_version() == self.spec_id(),
        }
    }

    /// Returns the transaction ID.
    pub fn id(&self) -> (r: u64)
        ensures
            r == self.spec_id(),
    {
        self.id
    }

    /// Returns the transaction mode.
    pub fn mode(&self) -> (r: Mode)
        ensures
            r == self.spec_mode(),
    {
        self.mode
    }

    /// Begins a new transaction: allocates the next ID, bumps the counter,
    /// marks the transaction active, and persists a snapshot of the
    /// currently active IDs. A snapshot-mode transaction then restores the
    /// persisted snapshot of its named version; if there is none, the
    /// transaction fails (the counter, marker and snapshot stay written).
    #[verifier::rlimit(60)]
    fn begin(mvcc: &mut MVCC, mode: Mode) -> (r: Result<Transaction, Error>)
        requires
            old(mvcc).wf(),
            txn_next(old(mvcc)@) < u64::MAX,
        ensures
            final(mvcc).wf(),
            final(mvcc)@ == begin_writes(old(mvcc)@, txn_next(old(mvcc)@), mode),
            match r {
                Ok(txn) => {
                    &&& txn.wf()
                    &&& txn.spec_id() == txn_next(old(mvcc)@)
                    &&& txn.spec_mode() == mode
                    &&& match mode {
                        Mode::Snapshot { version } => {
                            &&& has_snapshot(final(mvcc)@, version)
                            &&& txn.spec_snapshot().spec_version() == version
                            &&& txn.spec_snapshot().spec_invisible()
                                == snapshot_ids(final(mvcc)@, version)
                        },
                        _ => {
                            &&& txn.spec_snapshot().spec_version() == txn_next(old(mvcc)@)
                            &&& txn.spec_snapshot().spec_invisible()
                                == active_ids_below(old(mvcc)@, txn_next(old(mvcc)@))
                        },
                    }
                },
                Err(e) => match mode {
                    Mode::Snapshot { version } => {
                        &&& !has_snapshot(final(mvcc)@, version)
                        &&& e matches Error::Value(msg)
                            && msg@ == snapshot_missing_message(version)
                    },
                    _ => false,
                },
            },
    {
        let ghost m = mvcc@;
        let id = mvcc.read_txn_next();
        let k_next = Key::TxnNext.encode();
        mvcc.store.set(k_next.as_slice(), serialize_u64(id + 1));
        let ghost m_a = mvcc.store@;
        let k_active = Key::TxnActive(id).encode();
        mvcc.store.set(k_active.as_slice(), encode_mode(&mode));
        let ghost m_b = mvcc.store@;
        proof {
            assert forall|x: u64| x < id implies is_active(m_b, x) == is_active(m, x) by {
                lemma_distinct_keys(KeyModel::TxnActive(x), KeyModel::TxnNext);
                lemma_distinct_keys(KeyModel::TxnActive(x), KeyModel::TxnActive(id));
            }
            lemma_aib_congruent(m_b, m, id);
            // the two writes keep every key canonical
            lemma_key_roundtrip(KeyModel::TxnNext);
            lemma_key_roundtrip(KeyModel::TxnActive(id));
            lemma_mode_roundtrip(mode);
            lemma_wf_insert(m, KeyModel::TxnNext, le64((id + 1) as u64));
            lemma_wf_insert(m_a, KeyModel::TxnActive(id), mode_enc(mode));
            assert(wf_store(m_b));
        }
        let ids = take_snapshot_ids(&mvcc.store, id);
        let k_snap = Key::TxnSnapshot(id).encode();
        mvcc.store.set(k_snap.as_slice(), serialize_ids(&ids));
        proof {
            lemma_begin_wf(m, id, mode);
            assert(mvcc.store@ =~= begin_writes(m, id, mode));
        }
        match mode {
            Mode::Snapshot { version } => {
                let k = Key::TxnSnapshot(version).encode();
                match mvcc.store.get(k.as_slice()) {
                    Some(b) => {
                        proof {
                            assert(has_snapshot(mvcc@, version));
                            let stored = snapshot_ids(mvcc@, version);
                            assert(is_ids_enc(b@) && ids_wf(stored, version));
                            let ids0 = choose|ids0: Seq<u64>| b@ == ids_enc(ids0);
                            lemma_stored_ids(ids0);
                            assert(stored == ids0);
                        }
                        match deserialize_ids(b.as_slice()) {
                            Some(inv) => {
                                proof {
                                    assert(inv@ == snapshot_ids(mvcc@, version));
                                    assert(ids_wf(inv@, version));
                                }
                                Ok(Transaction {
                                    id,
                                    mode,
                                    snapshot: Snapshot::new(version, inv),
                                })
                            }
                            None => {
                                proof {
                                    assert(false);
                                }
                                Err(Error::Internal(String::from_str(
                                    "Unreadable snapshot")))
                            }
                        }
                    }
                    None => Err(snapshot_missing_error(version)),
                }
            }
            _ => {
                proof {
                    lemma_aib_props(m, id);
                }
                Ok(Transaction {
                    id,
                    mode,
                    snapshot: Snapshot::new(id, ids),
                })
            }
        }
    }

    /// Resumes the active transaction with the given ID, restoring its mode
    /// and its snapshot. Fails if the transaction is not active.
    fn resume(mvcc: &MVCC, id: u64) -> (r: Result<Transaction, Error>)
        requires
            mvcc.wf(),
        ensures
            match r {
                Ok(txn) => {
                    &&& is_active(mvcc@, id)
                    &&& txn.wf()
                    &&& txn.spec_id() == id
                    &&& txn.spec_mode() == active_mode(mvcc@, id)
                    &&& {
                        let rv = match active_mode(mvcc@, id) {
                            Mode::Snapshot { version } => version,
                            _ => id,
                        };
                        &&& has_snapshot(mvcc@, rv)
                        &&& txn.spec_snapshot().spec_version() == rv
                        &&& txn.spec_snapshot().spec_invisible() == snapshot_ids(mvcc@, rv)
                    }
                },
                Err(e) => {
                    ||| (!is_active(mvcc@, id)
                        && (e matches Error::Value(msg) && msg@ == no_active_txn_message(id)))
                    ||| (is_active(mvcc@, id) && {
                        let rv = match active_mode(mvcc@, id) {
                            Mode::Snapshot { version } => version,
                            _ => id,
                        };
                        !has_snapshot(mvcc@, rv)
                            && (e matches Error::Value(msg)
                                && msg@ == snapshot_missing_message(rv))
                    })
                },
            },
    {
        let k_active = Key::TxnActive(id).encode();
        let mode = match mvcc.store.get(k_active.as_slice()) {
            Some(b) => {
                proof {
                    assert(is_active(mvcc@, id));
                }
                match decode_mode(b.as_slice()) {
                    Some(mode) => mode,
                    None => {
                        proof {
                            assert(false);
                        }
                        return Err(Error::Internal(String::from_str("Unreadable mode")));
                    }
                }
            }
            None => {
                return Err(no_active_txn_error(id));
            }
        };
        let rv = match mode {
            Mode::Snapshot { version } => version,
            _ => id,
        };
        let k_snap = Key::TxnSnapshot(rv).encode();
        match mvcc.store.get(k_snap.as_slice()) {
            Some(b) => {
                proof {
                    assert(has_snapshot(mvcc@, rv));
                    let stored = snapshot_ids(mvcc@, rv);
                    assert(is_ids_enc(b@) && ids_wf(stored, rv));
                    let ids0 = choose|ids0: Seq<u64>| b@ == ids_enc(ids0);
                    lemma_stored_ids(ids0);
                    assert(stored == ids0);
                }
                match deserialize_ids(b.as_slice()) {
                    Some(inv) => {
                        proof {
                            assert(inv@ == snapshot_ids(mvcc@, rv));
                            assert(ids_wf(inv@, rv));
                        }
                        Ok(Transaction {
                            id,
                            mode,
                            snapshot: Snapshot::new(rv, inv),
                        })
                    }
                    None => {
                        proof {
                            assert(false);
                        }
                        Err(Error::Internal(String::from_str("Unreadable snapshot")))
                    }
                }
            }
            None => Err(snapshot_missing_error(rv)),
        }
    }

    /// Commits the transaction by removing its active marker; its records
    /// remain.
    pub fn commit(self, mvcc: &mut MVCC) -> (r: Result<(), Error>)
        requires
            old(mvcc).wf(),
        ensures
            final(mvcc).wf(),
            final(mvcc)@ == old(mvcc)@.remove(active_key(self.spec_id())),
            r is Ok,
    {
        let k = Key::TxnActive(self.id).encode();
        mvcc.store.delete(k.as_slice());
        mvcc.store.flush();
        proof {
            lemma_remove_active_wf(old(mvcc)@, self.id);
        }
        Ok(())
    }
}

/// Removing an active marker preserves well-formedness: records of a
/// no-longer-active transaction need no rollback markers.
pub proof fn lemma_remove_active_wf(m: Map<Seq<u8>, Seq<u8>>, id: u64)
    requires
        wf_store(m),
        mvcc_inv(m),
    ensures
        wf_store(m.remove(active_key(id))),
        mvcc_inv(m.remove(active_key(id))),
        txn_next(m.remove(active_key(id))) == txn_next(m),
        forall|x: u64| is_active(m.remove(active_key(id)), x) == (is_active(m, x) && x != id),
        forall|x: u64|
            has_snapshot(m.remove(active_key(id)), x) == has_snapshot(m, x),
        forall|x: u64| has_snapshot(m, x)
            ==> snapshot_ids(m.remove(active_key(id)), x) == snapshot_ids(m, x),
        forall|k: Seq<u8>, v: u64|
            has_record(m.remove(active_key(id)), k, v) == has_record(m, k, v),
        forall|k: Seq<u8>, v: u64| has_record(m, k, v)
            ==> record_value(m.remove(active_key(id)), k, v) == record_value(m, k, v),
{
    let m2 = m.remove(active_key(id));
    lemma_families_distinct();
    lemma_wf_remove(m, active_key(id));
    assert(txn_next(m2) == txn_next(m));
    assert forall|x: u64| is_active(m2, x) == (is_active(m, x) && x != id) by {
        if x != id {
            assert(active_key(x) != active_key(id));
        }
    }
    assert forall|x: u64| has_snapshot(m2, x) == has_snapshot(m, x) by {
        assert(snapshot_key(x) != active_key(id));
    }
    assert forall|k: Seq<u8>, v: u64| has_record(m2, k, v) == has_record(m, k, v) by {
        assert(record_key(k, v) != active_key(id));
    }
    assert(mvcc_inv(m2)) by {
        assert forall|x: u64| #[trigger] is_active(m2, x) implies x < txn_next(m2) by {
            assert(is_active(m, x));
        }
        assert forall|k: Seq<u8>, v: u64| #[trigger] has_record(m2, k, v)
            implies v < txn_next(m2) by {
            assert(has_record(m, k, v));
        }
        assert forall|k: Seq<u8>, v: u64|
            #[trigger] has_record(m2, k, v) && is_active(m2, v)
                implies m2.dom().contains(update_key(v, record_key(k, v))) by {
            assert(has_record(m, k, v));
            assert(is_active(m, v));
            assert(m.dom().contains(update_key(v, record_key(k, v))));
            assert(update_key(v, record_key(k, v)) != active_key(id));
        }
        assert forall|id2: u64, rk: Seq<u8>| #[trigger] m2.dom().contains(update_key(id2, rk))
            implies exists|k: Seq<u8>| rk == record_key(k, id2) by {
            assert(m.dom().contains(update_key(id2, rk)));
        }
        assert forall|x: u64| #[trigger] is_active(m2, x) implies has_snapshot(m2, x) by {
            assert(is_active(m, x));
            assert(has_snapshot(m, x));
            assert(snapshot_key(x) != active_key(id));
        }
    }
}

impl MVCC {
    /// Begins a new transaction in read-write mode.
    pub fn begin(&mut self) -> (r: Result<Transaction, Error>)
        requires
            old(self).wf(),
            txn_next(old(self)@) < u64::MAX,
        ensures
            final(self).wf(),
            final(self)@ == begin_writes(old(self)@, txn_next(old(self)@), Mode::ReadWrite),
            r matches Ok(txn) && txn.wf() && txn.spec_id() == txn_next(old(self)@)
                && txn.spec_mode() == Mode::ReadWrite
                && txn.spec_snapshot().spec_version() == txn_next(old(self)@)
                && txn.spec_snapshot().spec_invisible()
                    == active_ids_below(old(self)@, txn_next(old(self)@)),
    {
        let r = Transaction::begin(self, Mode::ReadWrite);
        proof {
            if r is Err {
                assert(false);
            }
        }
        r
    }

    /// Begins a new transaction in the given mode.
    pub fn begin_with_mode(&mut self, mode: Mode) -> (r: Result<Transaction, Error>)
        requires
            old(self).wf(),
            txn_next(old(self)@) < u64::MAX,
        ensures
            final(self).wf(),
            final(self)@ == begin_writes(old(self)@, txn_next(old(self)@), mode),
            match r {
                Ok(txn) => {
                    &&& txn.wf()
                    &&& txn.spec_id() == txn_next(old(self)@)
                    &&& txn.spec_mode() == mode
                    &&& match mode {
                        Mode::Snapshot { version } => {
                            &&& has_snapshot(final(self)@, version)
                            &&& txn.spec_snapshot().spec_version() == version
                            &&& txn.spec_snapshot().spec_invisible()
                                == snapshot_ids(final(self)@, version)
                        },
                        _ => {
                            &&& txn.spec_snapshot().spec_version() == txn_next(old(self)@)
                            &&& txn.spec_snapshot().spec_invisible()
                                == active_ids_below(old(self)@, txn_next(old(self)@))
                        },
                    }
                },
                Err(e) => match mode {
                    Mode::Snapshot { version } => {
                        &&& !has_snapshot(final(self)@, version)
                        &&& e matches Error::Value(msg)
                            && msg@ == snapshot_missing_message(version)
                    },
                    _ => false,
                },
            },
    {
        Transaction::begin(self, mode)
    }

    /// Resumes a transaction with the given ID.
    pub fn resume(&self, id: u64) -> (r: Result<Transaction, Error>)
        requires
            self.wf(),
        ensures
            match r {
                Ok(txn) => {
                    &&& is_active(self@, id)
                    &&& txn.wf()
                    &&& txn.spec_id() == id
                    &&& txn.spec_mode() == active_mode(self@, id)
                    &&& {
                        let rv = match active_mode(self@, id) {
                            Mode::Snapshot { version } => version,
                            _ => id,
                        };
                        &&& has_snapshot(self@, rv)
                        &&& txn.spec_snapshot().spec_version() == rv
                        &&& txn.spec_snapshot().spec_invisible() == snapshot_ids(self@, rv)
                    }
                },
                Err(e) => {
                    ||| (!is_active(self@, id)
                        && (e matches Error::Value(msg) && msg@ == no_active_txn_message(id)))
                    ||| (is_active(self@, id) && {
                        let rv = match active_mode(self@, id) {
                            Mode::Snapshot { version } => version,
                            _ => id,
                        };
                        !has_snapshot(self@, rv)
                            && (e matches Error::Value(msg)
                                && msg@ == snapshot_missing_message(rv))
                    })
                },
            },
    {
        Transaction::resume(self, id)
    }
}

// ---------------------------------------------------------------------------
// Reads and writes
// ---------------------------------------------------------------------------

/// Reads the stored option at the latest version of `key` visible to the
/// snapshot, walking record versions downward from the snapshot version.
#[verifier::rlimit(80)]
fn read_visible(store: &Memory, snap: &Snapshot, key: &[u8]) -> (r: Option<Option<Vec<u8>>>)
    requires
        store.wf(),
        wf_store(store@),
    ensures
        match r {
            Some(stored) => {
                &&& latest_visible_from(store@, snap.spec_invisible(), key@,
                    snap.spec_version()) matches Some(v)
                    && stored.deep_view() == record_value(store@, key@, v)
            },
            None => latest_visible_from(store@, snap.spec_invisible(), key@,
                snap.spec_version()) is None,
        },
{
    let ghost m = store@;
    let ghost inv = snap.spec_invisible();
    let version = snap.version();
    let lo_bound = Bound::Included(
        Key::Record(vstd::slice::slice_to_vec(key), 0).encode());
    let mut cur: u64 = version;
    loop
        invariant
            store.wf(),
            wf_store(m),
            m == store@,
            inv == snap.spec_invisible(),
            version == snap.spec_version(),
            cur <= version,
            lo_bound@ == BoundModel::Included(record_key(key@, 0)),
            latest_visible_from(m, inv, key@, version)
                == latest_visible_from(m, inv, key@, cur),
        decreases cur,
    {
        let hi_bound = Bound::Included(
            Key::Record(vstd::slice::slice_to_vec(key), cur).encode());
        match store.last_in(&lo_bound, &hi_bound) {
            None => {
                proof {
                    assert forall|x: u64| x <= cur implies !has_record(m, key@, x) by {
                        if has_record(m, key@, x) {
                            lemma_lex_asymmetric(key@, key@);
                            lemma_key_order(KeyModel::Record(key@, x),
                                KeyModel::Record(key@, 0));
                            lemma_key_order(KeyModel::Record(key@, cur),
                                KeyModel::Record(key@, x));
                            assert(m.dom().contains(record_key(key@, x)));
                            assert(in_bounds(lo_bound@, hi_bound@, record_key(key@, x)));
                        }
                    }
                    lemma_lvf_skip(m, inv, key@, cur, 0);
                }
                return None;
            }
            Some(e) => {
                proof {
                    lemma_in_record_range(m, e.0@, key@, 0, cur);
                }
                let (v2, stored) = match Key::decode(e.0.as_slice()) {
                    Ok(Key::Record(_, v2)) => (v2, e.1),
                    _ => {
                        proof {
                            let vv = choose|vv: u64| 0 <= vv <= cur
                                && e.0@ == record_key(key@, vv);
                            lemma_key_roundtrip(KeyModel::Record(key@, vv));
                            assert(false);
                        }
                        return None;
                    }
                };
                proof {
                    let vv = choose|vv: u64| 0 <= vv <= cur && e.0@ == record_key(key@, vv);
                    lemma_key_roundtrip(KeyModel::Record(key@, vv));
                    assert(spec_decode(e.0@) == Some(KeyModel::Record(key@, vv)));
                    assert(v2 == vv);
                    assert(has_record(m, key@, v2));
                    // no record of this key strictly between v2 and cur
                    assert forall|x: u64| v2 < x <= cur
                        implies !has_record(m, key@, x) by {
                        if has_record(m, key@, x) {
                            lemma_lex_asymmetric(key@, key@);
                            lemma_key_order(KeyModel::Record(key@, x),
                                KeyModel::Record(key@, 0));
                            lemma_key_order(KeyModel::Record(key@, cur),
                                KeyModel::Record(key@, x));
                            assert(m.dom().contains(record_key(key@, x)));
                            assert(in_bounds(lo_bound@, hi_bound@, record_key(key@, x)));
                            lemma_key_order(KeyModel::Record(key@, v2),
                                KeyModel::Record(key@, x));
                            assert(lex_lt(e.0@, record_key(key@, x)));
                            assert(false);
                        }
                    }
                    lemma_lvf_skip(m, inv, key@, cur, v2);
                }
                if snap.is_visible(v2) {
                    proof {
                        assert(latest_visible_from(m, inv, key@, v2) == Some(v2));
                        let x0 = choose|x0: Option<Seq<u8>>| stored@ == opt_bytes_enc(x0);
                        lemma_stored_opt(x0);
                        assert(stored_opt(stored@) == x0);
                    }
                    match deserialize_opt_bytes(stored.as_slice()) {
                        Some(parsed) => {
                            return Some(parsed);
                        }
                        None => {
                            proof {
                                assert(false);
                            }
                            return None;
                        }
                    }
                } else {
                    proof {
                        assert(inv.contains(v2));
                    }
                    if v2 == 0 {
                        proof {
                            assert(latest_visible_from(m, inv, key@, 0u64) is None);
                        }
                        return None;
                    }
                    proof {
                        assert(latest_visible_from(m, inv, key@, v2)
                            == latest_visible_from(m, inv, key@, (v2 - 1) as u64));
                    }
                    cur = v2 - 1;
                }
            }
        }
    }
}

/// The view of an optional byte vector.
pub open spec fn opt_view(v: Option<Vec<u8>>) -> Option<Seq<u8>> {
    match v {
        Some(b) => Some(b@),
        None => None,
    }
}

/// Does some version of `k` invisible to the snapshot exist? If so, a write
/// of `k` must fail: the first writer wins.
pub open spec fn write_conflict(
    m: Map<Seq<u8>, Seq<u8>>,
    version: u64,
    inv: Seq<u64>,
    k: Seq<u8>,
) -> bool {
    exists|v: u64| has_record(m, k, v) && !visible(version, inv, v)
}

/// The entries a successful write adds: the rollback marker, then the
/// record.
pub open spec fn write_effect(
    m: Map<Seq<u8>, Seq<u8>>,
    id: u64,
    k: Seq<u8>,
    value: Option<Seq<u8>>,
) -> Map<Seq<u8>, Seq<u8>> {
    m.insert(update_key(id, record_key(k, id)), Seq::empty())
        .insert(record_key(k, id), opt_bytes_enc(value))
}

/// A successful write preserves well-formedness and changes exactly the
/// written record.
proof fn lemma_write_wf(m: Map<Seq<u8>, Seq<u8>>, id: u64, k: Seq<u8>, value: Option<Seq<u8>>)
    requires
        wf_store(m),
        mvcc_inv(m),
        is_active(m, id),
    ensures
        wf_store(write_effect(m, id, k, value)),
        mvcc_inv(write_effect(m, id, k, value)),
        txn_next(write_effect(m, id, k, value)) == txn_next(m),
        forall|x: u64| is_active(write_effect(m, id, k, value), x) == is_active(m, x),
        forall|x: u64| is_active(m, x) ==> active_mode(write_effect(m, id, k, value), x)
            == active_mode(m, x),
        forall|x: u64| has_snapshot(write_effect(m, id, k, value), x) == has_snapshot(m, x),
        forall|x: u64| has_snapshot(m, x)
            ==> snapshot_ids(write_effect(m, id, k, value), x) == snapshot_ids(m, x),
        forall|k2: Seq<u8>, v: u64| has_record(write_effect(m, id, k, value), k2, v)
            == (has_record(m, k2, v) || (k2 == k && v == id)),
        record_value(write_effect(m, id, k, value), k, id) == value,
        forall|k2: Seq<u8>, v: u64| has_record(m, k2, v) && !(k2 == k && v == id)
            ==> record_value(write_effect(m, id, k, value), k2, v) == record_value(m, k2, v),
{
    let m2 = write_effect(m, id, k, value);
    let ma = m.insert(update_key(id, record_key(k, id)), Seq::empty());
    lemma_families_distinct();
    lemma_key_roundtrip(KeyModel::TxnUpdate(id, record_key(k, id)));
    lemma_key_roundtrip(KeyModel::Record(k, id));
    lemma_stored_opt(value);
    lemma_wf_insert(m, KeyModel::TxnUpdate(id, record_key(k, id)), Seq::empty());
    lemma_wf_insert(ma, KeyModel::Record(k, id), opt_bytes_enc(value));
    assert(wf_store(m2));
    assert(txn_next(m2) == txn_next(m));
    assert forall|x: u64| is_active(m2, x) == is_active(m, x) by {
        assert(active_key(x) != update_key(id, record_key(k, id)));
        assert(active_key(x) != record_key(k, id));
    }
    assert forall|x: u64| has_snapshot(m2, x) == has_snapshot(m, x) by {
        assert(snapshot_key(x) != update_key(id, record_key(k, id)));
        assert(snapshot_key(x) != record_key(k, id));
    }
    assert forall|k2: Seq<u8>, v: u64| has_record(m2, k2, v)
        == (has_record(m, k2, v) || (k2 == k && v == id)) by {
        assert(record_key(k2, v) != update_key(id, record_key(k, id)));
        if !(k2 == k && v == id) {
            assert(record_key(k2, v) != record_key(k, id));
        }
    }
    assert forall|k2: Seq<u8>, v: u64| has_record(m, k2, v) && !(k2 == k && v == id)
        implies record_value(m2, k2, v) == record_value(m, k2, v) by {
        assert(record_key(k2, v) != update_key(id, record_key(k, id)));
        assert(record_key(k2, v) != record_key(k, id));
    }
    assert(mvcc_inv(m2)) by {
        assert forall|x: u64| #[trigger] is_active(m2, x) implies x < txn_next(m2) by {
            assert(is_active(m, x));
        }
        assert forall|k2: Seq<u8>, v: u64| #[trigger] has_record(m2, k2, v)
            implies v < txn_next(m2) by {
            if !(k2 == k && v == id) {
                assert(has_record(m, k2, v));
            }
        }
        assert forall|k2: Seq<u8>, v: u64|
            #[trigger] has_record(m2, k2, v) && is_active(m2, v)
                implies m2.dom().contains(update_key(v, record_key(k2, v))) by {
            if k2 == k && v == id {
                assert(m2.dom().contains(update_key(id, record_key(k, id)))) by {
                    assert(update_key(id, record_key(k, id)) != record_key(k, id));
                }
            } else {
                assert(has_record(m, k2, v));
                assert(is_active(m, v));
                assert(m.dom().contains(update_key(v, record_key(k2, v))));
                assert(update_key(v, record_key(k2, v)) != record_key(k, id));
                if (v, record_key(k2, v)) != (id, record_key(k, id)) {
                    assert(update_key(v, record_key(k2, v))
                        != update_key(id, record_key(k, id)));
                }
            }
        }
        assert forall|id2: u64, rk: Seq<u8>| #[trigger] m2.dom().contains(update_key(id2, rk))
            implies exists|k2: Seq<u8>| rk == record_key(k2, id2) by {
            assert(update_key(id2, rk) != record_key(k, id));
            if (id2, rk) != (id, record_key(k, id)) {
                assert(update_key(id2, rk) != update_key(id, record_key(k, id)));
                assert(m.dom().contains(update_key(id2, rk)));
            } else {
                assert(rk == record_key(k, id2));
            }
        }
        assert forall|x: u64| #[trigger] is_active(m2, x) implies has_snapshot(m2, x) by {
            assert(is_active(m, x));
        }
    }
}

impl Transaction {
    /// Fetches the value of a key as of this transaction's snapshot: the
    /// latest visible version wins, and a tombstone reads as absent.
    pub fn get(&self, mvcc: &MVCC, key: &[u8]) -> (r: Result<Option<Vec<u8>>, Error>)
        requires
            mvcc.wf(),
        ensures
            r matches Ok(opt) && opt.deep_view() == spec_get(mvcc@,
                self.spec_snapshot().spec_version(),
                self.spec_snapshot().spec_invisible(), key@),
    {
        match read_visible(&mvcc.store, &self.snapshot, key) {
            Some(stored) => Ok(stored),
            None => Ok(None),
        }
    }

    /// Sets a key to a value.
    pub fn set(&self, mvcc: &mut MVCC, key: &[u8], value: Vec<u8>) -> (r: Result<(), Error>)
        requires
            old(mvcc).wf(),
            self.wf(),
            self.spec_mode().spec_mutable() ==> is_active(old(mvcc)@, self.spec_id()),
        ensures
            final(mvcc).wf(),
            !self.spec_mode().spec_mutable() ==> r == Err::<(), Error>(Error::ReadOnly)
                && final(mvcc)@ == old(mvcc)@,
            self.spec_mode().spec_mutable() ==> {
                let conflict = write_conflict(old(mvcc)@,
                    self.spec_snapshot().spec_version(),
                    self.spec_snapshot().spec_invisible(), key@);
                &&& conflict ==> r == Err::<(), Error>(Error::Serialization)
                    && final(mvcc)@ == old(mvcc)@
                &&& !conflict ==> r == Ok::<(), Error>(())
                    && final(mvcc)@ == write_effect(old(mvcc)@, self.spec_id(), key@,
                        Some(value@))
            },
    {
        self.write(mvcc, key, Some(value))
    }

    /// Deletes a key by writing a tombstone.
    pub fn delete(&self, mvcc: &mut MVCC, key: &[u8]) -> (r: Result<(), Error>)
        requires
            old(mvcc).wf(),
            self.wf(),
            self.spec_mode().spec_mutable() ==> is_active(old(mvcc)@, self.spec_id()),
        ensures
            final(mvcc).wf(),
            !self.spec_mode().spec_mutable() ==> r == Err::<(), Error>(Error::ReadOnly)
                && final(mvcc)@ == old(mvcc)@,
            self.spec_mode().spec_mutable() ==> {
                let conflict = write_conflict(old(mvcc)@,
                    self.spec_snapshot().spec_version(),
                    self.spec_snapshot().spec_invisible(), key@);
                &&& conflict ==> r == Err::<(), Error>(Error::Serialization)
                    && final(mvcc)@ == old(mvcc)@
                &&& !conflict ==> r == Ok::<(), Error>(())
                    && final(mvcc)@ == write_effect(old(mvcc)@, self.spec_id(), key@,
                        None)
            },
    {
        self.write(mvcc, key, None)
    }

    /// Writes a value (or a tombstone) for a key at this transaction's own
    /// version, unless some version of the key is invisible to the snapshot,
    /// in which case the write loses the first-writer-wins race. A mutable
    /// transaction still has its active marker in place: only commit and
    /// rollback remove it, and both consume the transaction.
    #[verifier::rlimit(80)]
    fn write(&self, mvcc: &mut MVCC, key: &[u8], value: Option<Vec<u8>>)
        -> (r: Result<(), Error>)
        requires
            old(mvcc).wf(),
            self.wf(),
            self.spec_mode().spec_mutable() ==> is_active(old(mvcc)@, self.spec_id()),
        ensures
            final(mvcc).wf(),
            !self.spec_mode().spec_mutable() ==> r == Err::<(), Error>(Error::ReadOnly)
                && final(mvcc)@ == old(mvcc)@,
            self.spec_mode().spec_mutable() ==> {
                let conflict = write_conflict(old(mvcc)@,
                    self.spec_snapshot().spec_version(),
                    self.spec_snapshot().spec_invisible(), key@);
                &&& conflict ==> r == Err::<(), Error>(Error::Serialization)
                    && final(mvcc)@ == old(mvcc)@
                &&& !conflict ==> r == Ok::<(), Error>(())
                    && final(mvcc)@ == write_effect(old(mvcc)@, self.spec_id(), key@,
                        opt_view(value))
            },
    {
        let ghost m = mvcc@;
        let ghost inv = self.spec_snapshot().spec_invisible();
        let ghost version = self.spec_snapshot().spec_version();
        if !self.mode.mutable() {
            return Err(Error::ReadOnly);
        }
        // in read-write mode the snapshot is the transaction's own version
        proof {
            assert(version == self.spec_id());
            assert(self.spec_id() < txn_next(m));
        }
        let min = self.snapshot.min_invisible_or(self.id + 1);
        proof {
            // every invisible version is at least `min`
            assert forall|v: u64| has_record(m, key@, v) && !visible(version, inv, v)
                implies min <= v <= u64::MAX by {
                if inv.contains(v) {
                    let i = choose|i: int| 0 <= i < inv.len() && inv[i] == v;
                    assert(inv[0] <= inv[i]);
                } else {
                    assert(v > version);
                    if inv.len() > 0 {
                        assert(inv[0] < version);
                    }
                }
            }
        }
        let lo_bound = Bound::Included(
            Key::Record(vstd::slice::slice_to_vec(key), min).encode());
        let mut cur: u64 = u64::MAX;
        let mut done = min > cur;
        while !done
            invariant
                mvcc.wf(),
                m == mvcc@,
                m == old(mvcc)@,
                self.wf(),
                self.spec_mode().spec_mutable(),
                inv == self.spec_snapshot().spec_invisible(),
                version == self.spec_snapshot().spec_version(),
                lo_bound@ == BoundModel::Included(record_key(key@, min)),
                min <= cur || done,
                forall|x: u64| cur < x ==> has_record(m, key@, x)
                    ==> visible(version, inv, x),
                done ==> forall|x: u64| min <= x
                    ==> has_record(m, key@, x) ==> visible(version, inv, x),
            decreases cur, (if done { 0int } else { 1int }),
        {
            let hi_bound = Bound::Included(
                Key::Record(vstd::slice::slice_to_vec(key), cur).encode());
            match mvcc.store.last_in(&lo_bound, &hi_bound) {
                None => {
                    proof {
                        assert forall|x: u64| min <= x && has_record(m, key@, x)
                            implies visible(version, inv, x) by {
                            if x <= cur {
                                lemma_lex_asymmetric(key@, key@);
                                lemma_key_order(KeyModel::Record(key@, x),
                                    KeyModel::Record(key@, min));
                                lemma_key_order(KeyModel::Record(key@, cur),
                                    KeyModel::Record(key@, x));
                                assert(m.dom().contains(record_key(key@, x)));
                                assert(in_bounds(lo_bound@, hi_bound@,
                                    record_key(key@, x)));
                                assert(false);
                            }
                        }
                    }
                    done = true;
                }
                Some(e) => {
                    proof {
                        lemma_in_record_range(m, e.0@, key@, min, cur);
                    }
                    let v2 = match Key::decode(e.0.as_slice()) {
                        Ok(Key::Record(_, v2)) => v2,
                        _ => {
                            proof {
                                let vv = choose|vv: u64| min <= vv <= cur
                                    && e.0@ == record_key(key@, vv);
                                lemma_key_roundtrip(KeyModel::Record(key@, vv));
                                assert(false);
                            }
                            return Err(Error::Internal(String::from_str(
                                "Expected Record key")));
                        }
                    };
                    proof {
                        let vv = choose|vv: u64| min <= vv <= cur
                            && e.0@ == record_key(key@, vv);
                        lemma_key_roundtrip(KeyModel::Record(key@, vv));
                        assert(spec_decode(e.0@) == Some(KeyModel::Record(key@, vv)));
                        assert(v2 == vv);
                        assert(has_record(m, key@, v2));
                        assert forall|x: u64| v2 < x <= cur
                            implies !has_record(m, key@, x) by {
                            if has_record(m, key@, x) {
                                lemma_lex_asymmetric(key@, key@);
                                lemma_key_order(KeyModel::Record(key@, x),
                                    KeyModel::Record(key@, min));
                                lemma_key_order(KeyModel::Record(key@, cur),
                                    KeyModel::Record(key@, x));
                                assert(m.dom().contains(record_key(key@, x)));
                                assert(in_bounds(lo_bound@, hi_bound@,
                                    record_key(key@, x)));
                                lemma_key_order(KeyModel::Record(key@, v2),
                                    KeyModel::Record(key@, x));
                                assert(lex_lt(e.0@, record_key(key@, x)));
                                assert(false);
                            }
                        }
                    }
                    if !self.snapshot.is_visible(v2) {
                        proof {
                            assert(write_conflict(m, version, inv, key@));
                        }
                        return Err(Error::Serialization);
                    }
                    if v2 == min {
                        done = true;
                    } else {
                        cur = v2 - 1;
                    }
                }
            }
        }
        proof {
            assert(!write_conflict(m, version, inv, key@)) by {
                if write_conflict(m, version, inv, key@) {
                    let v = choose|v: u64| has_record(m, key@, v)
                        && !visible(version, inv, v);
                    assert(min <= v);
                }
            }
        }
        let rec_key = Key::Record(vstd::slice::slice_to_vec(key), self.id).encode();
        let upd_key = Key::TxnUpdate(self.id, copy_bytes(&rec_key)).encode();
        mvcc.store.set(upd_key.as_slice(), Vec::new());
        mvcc.store.set(rec_key.as_slice(), serialize_opt_bytes(&value));
        proof {
            assert(value.deep_view() == opt_view(value)) by {
                match value {
                    Some(b) => {
                        assert(b.deep_view() =~= b@);
                    }
                    None => {}
                }
            }
            lemma_write_wf(m, self.spec_id(), key@, opt_view(value));
            assert(mvcc.store@ =~= write_effect(m, self.spec_id(), key@,
                opt_view(value)));
        }
        Ok(())
    }
}

// ---------------------------------------------------------------------------
// Rollback
// ---------------------------------------------------------------------------

/// Is `w` a rollback marker of transaction `id`?
pub open spec fn is_marker_of(id: u64, w: Seq<u8>) -> bool {
    exists|rk: Seq<u8>| w == update_key(id, rk)
}

/// The keys a rollback of `id` erases: every rollback marker of `id`, and
/// every key such a marker points at.
pub open spec fn rollback_removed(m: Map<Seq<u8>, Seq<u8>>, id: u64) -> Set<Seq<u8>> {
    Set::new(|w: Seq<u8>| is_marker_of(id, w) || m.dom().contains(update_key(id, w)))
}

/// The store after a rollback: for a mutable transaction all its markers and
/// marked records are erased; either way the active marker goes.
pub open spec fn rollback_effect(m: Map<Seq<u8>, Seq<u8>>, id: u64, mode: Mode)
    -> Map<Seq<u8>, Seq<u8>> {
    if mode.spec_mutable() {
        m.remove_keys(rollback_removed(m, id)).remove(active_key(id))
    } else {
        m.remove(active_key(id))
    }
}

/// A key a rollback erases is a marker of `id` or a record at version `id`.
proof fn lemma_removed_shape(m: Map<Seq<u8>, Seq<u8>>, id: u64, w: Seq<u8>)
    requires
        mvcc_inv(m),
        rollback_removed(m, id).contains(w),
    ensures
        is_marker_of(id, w) || (exists|k: Seq<u8>| w == record_key(k, id)),
{
    if !is_marker_of(id, w) {
        assert(m.dom().contains(update_key(id, w)));
    }
}

/// After a mutable rollback the bookkeeping invariant still holds: only the
/// transaction's own markers and records went away.
proof fn lemma_rollback_inv(m: Map<Seq<u8>, Seq<u8>>, id: u64)
    requires
        wf_store(m),
        mvcc_inv(m),
    ensures
        mvcc_inv(m.remove_keys(rollback_removed(m, id)).remove(active_key(id))),
        txn_next(m.remove_keys(rollback_removed(m, id)).remove(active_key(id)))
            == txn_next(m),
{
    let m2 = m.remove_keys(rollback_removed(m, id)).remove(active_key(id));
    lemma_families_distinct();
    assert(txn_next(m2) == txn_next(m)) by {
        if m.dom().contains(txn_next_key()) {
            if rollback_removed(m, id).contains(txn_next_key()) {
                lemma_removed_shape(m, id, txn_next_key());
                assert(false);
            }
            assert(m2.dom().contains(txn_next_key()));
        }
    }
    assert forall|x: u64| is_active(m2, x) == (is_active(m, x) && x != id) by {
        if rollback_removed(m, id).contains(active_key(x)) {
            lemma_removed_shape(m, id, active_key(x));
            assert(false);
        }
        if x != id {
            assert(active_key(x) != active_key(id));
        }
    }
    assert(mvcc_inv(m2)) by {
        assert forall|x: u64| #[trigger] is_active(m2, x) implies x < txn_next(m2) by {
            assert(is_active(m, x));
        }
        assert forall|k: Seq<u8>, v: u64| #[trigger] has_record(m2, k, v)
            implies v < txn_next(m2) by {
            assert(m.dom().contains(record_key(k, v)));
            assert(has_record(m, k, v));
        }
        assert forall|k: Seq<u8>, v: u64|
            #[trigger] has_record(m2, k, v) && is_active(m2, v)
                implies m2.dom().contains(update_key(v, record_key(k, v))) by {
            assert(has_record(m, k, v));
            assert(is_active(m, v));
            assert(v != id);
            let mk = update_key(v, record_key(k, v));
            assert(m.dom().contains(mk));
            if rollback_removed(m, id).contains(mk) {
                lemma_removed_shape(m, id, mk);
                assert(false);
            }
            assert(mk != active_key(id));
        }
        assert forall|id2: u64, rk: Seq<u8>| #[trigger] m2.dom().contains(update_key(id2, rk))
            implies exists|k: Seq<u8>| rk == record_key(k, id2) by {
            assert(m.dom().contains(update_key(id2, rk)));
        }
        assert forall|x: u64| #[trigger] is_active(m2, x) implies has_snapshot(m2, x) by {
            assert(is_active(m, x));
            assert(has_snapshot(m, x));
            if rollback_removed(m, id).contains(snapshot_key(x)) {
                lemma_removed_shape(m, id, snapshot_key(x));
                assert(false);
            }
            assert(snapshot_key(x) != active_key(id));
        }
    }
}

impl Transaction {
    /// Rolls the transaction back: a mutable transaction walks its rollback
    /// markers and erases each marked record along with the marker; then the
    /// active marker is removed.
    #[verifier::rlimit(80)]
    pub fn rollback(self, mvcc: &mut MVCC) -> (r: Result<(), Error>)
        requires
            old(mvcc).wf(),
        ensures
            final(mvcc).wf(),
            final(mvcc)@ == rollback_effect(old(mvcc)@, self.spec_id(), self.spec_mode()),
            r is Ok,
    {
        let ghost m0 = mvcc@;
        let ghost id = self.spec_id();
        if self.mode.mutable() {
            let lo_bound = Bound::Included(Key::TxnUpdate(self.id, Vec::new()).encode());
            let hi_bound = if self.id < u64::MAX {
                Bound::Excluded(Key::TxnUpdate(self.id + 1, Vec::new()).encode())
            } else {
                Bound::Excluded(Key::Metadata(Vec::new()).encode())
            };
            proof {
                assert(lo_bound@ == BoundModel::Included(update_key(id, Seq::<u8>::empty())));
            }
            loop
                invariant_except_break
                    mvcc.store.wf(),
                    wf_store(mvcc@),
                    wf_store(m0),
                    mvcc_inv(m0),
                    id == self.spec_id(),
                    lo_bound@ == BoundModel::Included(update_key(id, Seq::<u8>::empty())),
                    id < u64::MAX ==> hi_bound@
                        == BoundModel::Excluded(update_key((id + 1) as u64,
                            Seq::<u8>::empty())),
                    id == u64::MAX ==> hi_bound@
                        == BoundModel::Excluded(metadata_key(Seq::<u8>::empty())),
                    forall|w: Seq<u8>| #[trigger] mvcc@.dom().contains(w)
                        ==> m0.dom().contains(w) && mvcc@[w] == m0[w],
                    forall|w: Seq<u8>| #[trigger] m0.dom().contains(w)
                        ==> mvcc@.dom().contains(w) || rollback_removed(m0, id).contains(w),
                    forall|rk: Seq<u8>| m0.dom().contains(#[trigger] update_key(id, rk))
                        && !mvcc@.dom().contains(update_key(id, rk))
                        ==> !mvcc@.dom().contains(rk),
                ensures
                    mvcc.store.wf(),
                    wf_store(mvcc@),
                    forall|w: Seq<u8>| #[trigger] mvcc@.dom().contains(w)
                        ==> m0.dom().contains(w) && mvcc@[w] == m0[w],
                    forall|w: Seq<u8>| #[trigger] m0.dom().contains(w)
                        ==> mvcc@.dom().contains(w) || rollback_removed(m0, id).contains(w),
                    forall|rk: Seq<u8>| m0.dom().contains(#[trigger] update_key(id, rk))
                        && !mvcc@.dom().contains(update_key(id, rk))
                        ==> !mvcc@.dom().contains(rk),
                    forall|rk: Seq<u8>| !mvcc@.dom().contains(#[trigger] update_key(id, rk)),
                decreases mvcc@.dom().len(),
            {
                let found = mvcc.store.first_in(&lo_bound, &hi_bound);
                match found {
                    None => {
                        proof {
                            lemma_families_distinct();
                            assert forall|rk: Seq<u8>|
                                !mvcc@.dom().contains(#[trigger] update_key(id, rk)) by {
                                if mvcc@.dom().contains(update_key(id, rk)) {
                                    let w = update_key(id, rk);
                                    lemma_key_order(KeyModel::TxnUpdate(id, rk),
                                        KeyModel::TxnUpdate(id, Seq::<u8>::empty()));
                                    lemma_key_order(KeyModel::TxnUpdate(id,
                                        Seq::<u8>::empty()), KeyModel::TxnUpdate(id, rk));
                                    if id < u64::MAX {
                                        lemma_key_order(KeyModel::TxnUpdate(id, rk),
                                            KeyModel::TxnUpdate((id + 1) as u64,
                                                Seq::<u8>::empty()));
                                    } else {
                                        lemma_key_order(KeyModel::TxnUpdate(id, rk),
                                            KeyModel::Metadata(Seq::<u8>::empty()));
                                    }
                                    assert(in_bounds(lo_bound@, hi_bound@, w));
                                    assert(false);
                                }
                            }
                        }
                        break;
                    }
                    Some(e) => {
                        proof {
                            mvcc.store.lemma_dom_finite();
                            lemma_in_update_range(mvcc@, e.0@, id);
                        }
                        let rec_key = match Key::decode(e.0.as_slice()) {
                            Ok(Key::TxnUpdate(_, rec_key)) => rec_key,
                            _ => {
                                proof {
                                    let rk = choose|rk: Seq<u8>| e.0@ == update_key(id, rk);
                                    lemma_key_roundtrip(KeyModel::TxnUpdate(id, rk));
                                    assert(false);
                                }
                                return Err(Error::Internal(String::from_str(
                                    "Expected TxnUpdate key")));
                            }
                        };
                        proof {
                            let rk = choose|rk: Seq<u8>| e.0@ == update_key(id, rk);
                            lemma_key_roundtrip(KeyModel::TxnUpdate(id, rk));
                            assert(spec_decode(e.0@) == Some(KeyModel::TxnUpdate(id, rk)));
                            assert(rec_key@ == rk);
                            assert(e.0@.len() >= 9 + rec_key@.len());
                            assert(e.0@ != rec_key@);
                        }
                        let ghost m_pre = mvcc@;
                        mvcc.store.delete(rec_key.as_slice());
                        mvcc.store.delete(e.0.as_slice());
                        proof {
                            lemma_wf_remove(m_pre, rec_key@);
                            lemma_wf_remove(m_pre.remove(rec_key@), e.0@);
                            assert(m0.dom().contains(e.0@));
                            assert(rollback_removed(m0, id).contains(e.0@));
                            assert(rollback_removed(m0, id).contains(rec_key@)) by {
                                assert(m0.dom().contains(update_key(id, rec_key@)));
                            }
                            assert forall|rk2: Seq<u8>|
                                m0.dom().contains(#[trigger] update_key(id, rk2))
                                    && !mvcc@.dom().contains(update_key(id, rk2))
                                    implies !mvcc@.dom().contains(rk2) by {
                                if update_key(id, rk2) == e.0@ {
                                    assert(rk2 == rec_key@) by {
                                        lemma_families_distinct();
                                    }
                                } else {
                                    if m_pre.dom().contains(update_key(id, rk2)) {
                                        assert(update_key(id, rk2) != rec_key@) by {
                                            assert(update_key(id, rk2).len()
                                                >= 9 + rk2.len());
                                            if update_key(id, rk2) == rec_key@ {
                                                assert(m_pre.dom().contains(rec_key@));
                                                assert(m0.dom().contains(
                                                    update_key(id, rec_key@)));
                                            }
                                        }
                                        assert(false);
                                    }
                                    assert(!m_pre.dom().contains(rk2));
                                }
                            }
                            // the marker was present, so the domain shrank
                            assert(m_pre.dom().contains(e.0@));
                            assert(mvcc@.dom().len() < m_pre.dom().len()) by {
                                assert(mvcc@.dom() =~= if m_pre.dom().contains(rec_key@) {
                                    m_pre.dom().remove(rec_key@).remove(e.0@)
                                } else {
                                    m_pre.dom().remove(e.0@)
                                });
                                vstd::set_lib::lemma_len_subset(mvcc@.dom(),
                                    m_pre.dom().remove(e.0@));
                            }
                        }
                    }
                }
            }
            let ghost m_exit = mvcc@;
            let k_active = Key::TxnActive(self.id).encode();
            mvcc.store.delete(k_active.as_slice());
            proof {
                lemma_wf_remove(m_exit, active_key(id));
                let swept = m0.remove_keys(rollback_removed(m0, id));
                assert(m_exit =~= swept) by {
                    assert forall|w: Seq<u8>| #[trigger] m_exit.dom().contains(w)
                        implies swept.dom().contains(w) && swept[w] == m_exit[w] by {
                        assert(m0.dom().contains(w) && m_exit[w] == m0[w]);
                        if rollback_removed(m0, id).contains(w) {
                            if is_marker_of(id, w) {
                                let rk = choose|rk: Seq<u8>| w == update_key(id, rk);
                                assert(!m_exit.dom().contains(update_key(id, rk)));
                                assert(false);
                            } else {
                                assert(m0.dom().contains(update_key(id, w)));
                                assert(!m_exit.dom().contains(update_key(id, w)));
                                assert(false);
                            }
                        }
                    }
                    assert forall|w: Seq<u8>| #[trigger] swept.dom().contains(w)
                        implies m_exit.dom().contains(w) by {
                        assert(m0.dom().contains(w));
                        assert(!rollback_removed(m0, id).contains(w));
                    }
                }
                assert(mvcc@ == m_exit.remove(active_key(id)));
                assert(mvcc@ == rollback_effect(m0, id, self.spec_mode()));
                lemma_rollback_inv(m0, id);
            }
            Ok(())
        } else {
            let k_active = Key::TxnActive(self.id).encode();
            mvcc.store.delete(k_active.as_slice());
            proof {
                lemma_remove_active_wf(m0, id);
            }
            Ok(())
        }
    }
}

// ---------------------------------------------------------------------------
// Scans
// ---------------------------------------------------------------------------

/// The raw store bound a user-key lower bound translates to: from the first
/// version of an included key, from past the last version of an excluded
/// key, and from the first possible record otherwise.
pub open spec fn enc_lo(lo: BoundModel) -> BoundModel {
    match lo {
        BoundModel::Included(k) => BoundModel::Included(record_key(k, 0)),
        BoundModel::Excluded(k) => BoundModel::Excluded(record_key(k, u64::MAX)),
        BoundModel::Unbounded => BoundModel::Included(record_key(Seq::empty(), 0)),
    }
}

/// The raw store bound a user-key upper bound translates to.
pub open spec fn enc_hi(hi: BoundModel) -> BoundModel {
    match hi {
        BoundModel::Included(k) => BoundModel::Included(record_key(k, u64::MAX)),
        BoundModel::Excluded(k) => BoundModel::Excluded(record_key(k, 0)),
        BoundModel::Unbounded => BoundModel::Unbounded,
    }
}

/// Builds the raw lower bound for a user-key lower bound.
fn make_enc_lo(lo: &Bound) -> (r: Bound)
    ensures
        r@ == enc_lo(lo@),
{
    match lo {
        Bound::Included(k) => Bound::Included(
            Key::Record(copy_bytes(k), 0).encode()),
        Bound::Excluded(k) => Bound::Excluded(
            Key::Record(copy_bytes(k), u64::MAX).encode()),
        Bound::Unbounded => Bound::Included(Key::Record(Vec::new(), 0).encode()),
    }
}

/// Builds the raw upper bound for a user-key upper bound.
fn make_enc_hi(hi: &Bound) -> (r: Bound)
    ensures
        r@ == enc_hi(hi@),
{
    match hi {
        Bound::Included(k) => Bound::Included(
            Key::Record(copy_bytes(k), u64::MAX).encode()),
        Bound::Excluded(k) => Bound::Excluded(
            Key::Record(copy_bytes(k), 0).encode()),
        Bound::Unbounded => Bound::Unbounded,
    }
}

/// A store key within a translated range is a record whose user key is
/// within the user range.
proof fn lemma_scan_range(m: Map<Seq<u8>, Seq<u8>>, w: Seq<u8>, lo: BoundModel, hi: BoundModel)
    requires
        wf_store(m),
        m.dom().contains(w),
        in_bounds(enc_lo(lo), enc_hi(hi), w),
    ensures
        exists|k: Seq<u8>, v: u64| w == record_key(k, v) && in_bounds(lo, hi, k),
{
    let km = spec_decode(w).unwrap();
    assert(spec_encode(km) == w);
    match lo {
        BoundModel::Included(a) => {
            lemma_key_order(km, KeyModel::Record(a, 0));
        }
        BoundModel::Excluded(a) => {
            lemma_key_order(KeyModel::Record(a, u64::MAX), km);
        }
        BoundModel::Unbounded => {
            lemma_key_order(km, KeyModel::Record(Seq::empty(), 0));
        }
    }
    match km {
        KeyModel::Record(k, v) => {
            assert(above_lo(lo, k)) by {
                match lo {
                    BoundModel::Included(a) => {}
                    BoundModel::Excluded(a) => {}
                    BoundModel::Unbounded => {}
                }
            }
            assert(below_hi(hi, k)) by {
                match hi {
                    BoundModel::Included(b) => {
                        lemma_key_order(KeyModel::Record(b, u64::MAX), km);
                    }
                    BoundModel::Excluded(b) => {
                        lemma_key_order(km, KeyModel::Record(b, 0));
                    }
                    BoundModel::Unbounded => {}
                }
            }
            assert(w == record_key(k, v) && in_bounds(lo, hi, k));
        }
        _ => {
            match hi {
                BoundModel::Included(b) => {
                    lemma_key_order(KeyModel::Record(b, u64::MAX), km);
                }
                BoundModel::Excluded(b) => {
                    lemma_key_order(km, KeyModel::Record(b, 0));
                }
                BoundModel::Unbounded => {}
            }
            assert(false);
        }
    }
}

/// Any record of a user key within the user range lies within the
/// translated range.
proof fn lemma_scan_range_complete(lo: BoundModel, hi: BoundModel, k: Seq<u8>, v: u64)
    requires
        in_bounds(lo, hi, k),
    ensures
        in_bounds(enc_lo(lo), enc_hi(hi), record_key(k, v)),
{
    lemma_lex_asymmetric(k, k);
    match lo {
        BoundModel::Included(a) => {
            lemma_key_order(KeyModel::Record(k, v), KeyModel::Record(a, 0));
        }
        BoundModel::Excluded(a) => {
            lemma_key_order(KeyModel::Record(a, u64::MAX), KeyModel::Record(k, v));
        }
        BoundModel::Unbounded => {
            lemma_key_order(KeyModel::Record(k, v), KeyModel::Record(Seq::empty(), 0));
            if lex_lt(record_key(k, v), record_key(Seq::empty(), 0)) {
                assert(lex_lt(k, Seq::empty()));
            }
        }
    }
    match hi {
        BoundModel::Included(b) => {
            lemma_key_order(KeyModel::Record(b, u64::MAX), KeyModel::Record(k, v));
        }
        BoundModel::Excluded(b) => {
            lemma_key_order(KeyModel::Record(k, v), KeyModel::Record(b, 0));
        }
        BoundModel::Unbounded => {}
    }
}

/// A user key with no record at any version reads as absent.
proof fn lemma_no_records_none(
    m: Map<Seq<u8>, Seq<u8>>,
    version: u64,
    inv: Seq<u64>,
    k: Seq<u8>,
)
    requires
        forall|v: u64| !has_record(m, k, v),
    ensures
        spec_get(m, version, inv, k) is None,
{
    lemma_lvf_skip(m, inv, k, version, 0);
}

/// A range scan over the latest visible versions of the keys in a range.
/// Each call to `next` or `next_back` re-derives its position from the
/// remaining bounds; the two ends may be interleaved, and iteration ends
/// when they cross.
pub struct Scan {
    snapshot: Snapshot,
    lo: Bound,
    hi: Bound,
    done: bool,
}

impl Scan {
    /// The snapshot the scan reads from.
    pub closed spec fn spec_snapshot(&self) -> Snapshot {
        self.snapshot
    }

    /// The remaining lower bound on user keys.
    pub closed spec fn spec_lo(&self) -> BoundModel {
        self.lo@
    }

    /// The remaining upper bound on user keys.
    pub closed spec fn spec_hi(&self) -> BoundModel {
        self.hi@
    }

    /// Has iteration finished?
    pub closed spec fn spec_done(&self) -> bool {
        self.done
    }

    /// What this scan reads for user key `k`.
    pub open spec fn spec_read(&self, m: Map<Seq<u8>, Seq<u8>>, k: Seq<u8>) -> Option<Seq<u8>> {
        spec_get(m, self.spec_snapshot().spec_version(),
            self.spec_snapshot().spec_invisible(), k)
    }

    /// The next visible key-value pair in ascending key order: the least
    /// user key in the remaining range whose latest visible version is a
    /// live value. Tombstoned and invisible keys are skipped. The emitted
    /// key is excluded from the remaining range.
    #[verifier::rlimit(100)]
    pub fn next(&mut self, mvcc: &MVCC) -> (r: Result<Option<(Vec<u8>, Vec<u8>)>, Error>)
        requires
            mvcc.wf(),
        ensures
            final(self).spec_snapshot() == old(self).spec_snapshot(),
            final(self).spec_hi() == old(self).spec_hi(),
            r matches Ok(item) && match item {
                Some(e) => {
                    &&& !old(self).spec_done() && !final(self).spec_done()
                    &&& in_bounds(old(self).spec_lo(), old(self).spec_hi(), e.0@)
                    &&& old(self).spec_read(mvcc@, e.0@) == Some(e.1@)
                    &&& forall|k2: Seq<u8>|
                        in_bounds(old(self).spec_lo(), old(self).spec_hi(), k2)
                            && lex_lt(k2, e.0@)
                            ==> old(self).spec_read(mvcc@, k2) is None
                    &&& final(self).spec_lo() == BoundModel::Excluded(e.0@)
                },
                None => {
                    &&& final(self).spec_done()
                    &&& old(self).spec_done() || forall|k2: Seq<u8>|
                        in_bounds(old(self).spec_lo(), old(self).spec_hi(), k2)
                            ==> old(self).spec_read(mvcc@, k2) is None
                },
            },
    {
        if self.done {
            return Ok(None);
        }
        let ghost m = mvcc@;
        let ghost version = self.snapshot.spec_version();
        let ghost inv = self.snapshot.spec_invisible();
        let ghost lo0 = self.lo@;
        let ghost hi0 = self.hi@;
        proof {
            mvcc.store.lemma_dom_finite();
            m.dom().lemma_len_filter(|w: Seq<u8>| in_bounds(enc_lo(self.lo@),
                enc_hi(self.hi@), w));
        }
        loop
            invariant
                mvcc.wf(),
                m == mvcc@,
                version == self.snapshot.spec_version(),
                inv == self.snapshot.spec_invisible(),
                self.snapshot == old(self).spec_snapshot(),
                hi0 == self.hi@,
                hi0 == old(self).spec_hi(),
                lo0 == old(self).spec_lo(),
                !old(self).spec_done(),
                !self.done,
                // keys already passed over read as absent
                forall|k2: Seq<u8>| in_bounds(lo0, hi0, k2) && !above_lo(self.lo@, k2)
                    ==> spec_get(m, version, inv, k2) is None,
                // the remaining range only narrows
                forall|k2: Seq<u8>| above_lo(self.lo@, k2) ==> above_lo(lo0, k2),
                keys_in_range(m, enc_lo(self.lo@), enc_hi(hi0)).finite(),
                m.dom().finite(),
            decreases keys_in_range(m, enc_lo(self.lo@), enc_hi(hi0)).len(),
        {
            let raw_lo = make_enc_lo(&self.lo);
            let raw_hi = make_enc_hi(&self.hi);
            let found = mvcc.store.first_in(&raw_lo, &raw_hi);
            match found {
                None => {
                    proof {
                        assert forall|k2: Seq<u8>| in_bounds(lo0, hi0, k2)
                            implies spec_get(m, version, inv, k2) is None by {
                            if above_lo(self.lo@, k2) {
                                assert forall|v: u64| !has_record(m, k2, v) by {
                                    if has_record(m, k2, v) {
                                        lemma_scan_range_complete(self.lo@, hi0, k2, v);
                                        assert(m.dom().contains(record_key(k2, v)));
                                        assert(in_bounds(raw_lo@, raw_hi@,
                                            record_key(k2, v)));
                                        assert(false);
                                    }
                                }
                                lemma_no_records_none(m, version, inv, k2);
                            }
                        }
                    }
                    self.done = true;
                    return Ok(None);
                }
                Some(e) => {
                    proof {
                        lemma_scan_range(m, e.0@, self.lo@, self.hi@);
                    }
                    let user_key = match Key::decode(e.0.as_slice()) {
                        Ok(Key::Record(user_key, _)) => user_key,
                        _ => {
                            proof {
                                let (kk, vv) = choose|kk: Seq<u8>, vv: u64|
                                    e.0@ == record_key(kk, vv) && in_bounds(self.lo@,
                                        self.hi@, kk);
                                lemma_key_roundtrip(KeyModel::Record(kk, vv));
                                assert(false);
                            }
                            return Err(Error::Internal(String::from_str(
                                "Expected Record key")));
                        }
                    };
                    let ghost vv0 = choose|vv: u64| #![auto] e.0@ == record_key(user_key@, vv);
                    proof {
                        let (kk, vv) = choose|kk: Seq<u8>, vv: u64|
                            e.0@ == record_key(kk, vv) && in_bounds(self.lo@, self.hi@, kk);
                        lemma_key_roundtrip(KeyModel::Record(kk, vv));
                        assert(spec_decode(e.0@) == Some(KeyModel::Record(kk, vv)));
                        assert(user_key@ == kk);
                        assert(e.0@ == record_key(user_key@, vv));
                        assert(in_bounds(self.lo@, self.hi@, user_key@));
                        // no key below user_key in the remaining range has any record
                        assert forall|k2: Seq<u8>|
                            above_lo(self.lo@, k2) && lex_lt(k2, user_key@)
                                implies spec_get(m, version, inv, k2) is None by {
                            assert forall|v: u64| !has_record(m, k2, v) by {
                                if has_record(m, k2, v) {
                                    assert(below_hi(hi0, k2)) by {
                                        match hi0 {
                                            BoundModel::Included(b) => {
                                                if lex_lt(b, k2) {
                                                    lemma_lex_transitive(b, k2, user_key@);
                                                    lemma_lex_asymmetric(b, user_key@);
                                                }
                                            }
                                            BoundModel::Excluded(b) => {
                                                lemma_lex_transitive(k2, user_key@, b);
                                            }
                                            BoundModel::Unbounded => {}
                                        }
                                    }
                                    lemma_scan_range_complete(self.lo@, hi0, k2, v);
                                    assert(m.dom().contains(record_key(k2, v)));
                                    assert(in_bounds(raw_lo@, raw_hi@, record_key(k2, v)));
                                    assert(!lex_lt(record_key(k2, v), e.0@));
                                    lemma_key_order(KeyModel::Record(k2, v),
                                        KeyModel::Record(user_key@, vv));
                                    assert(false);
                                }
                            }
                            lemma_no_records_none(m, version, inv, k2);
                        }
                    }
                    let resolved = read_visible(&mvcc.store, &self.snapshot,
                        user_key.as_slice());
                    // move the lower bound past this key, whatever it held
                    let ghost pre_lo = self.lo@;
                    let ghost old_set = keys_in_range(m, enc_lo(pre_lo), enc_hi(hi0));
                    self.lo = Bound::Excluded(copy_bytes(&user_key));
                    proof {
                        // the range narrows and loses the found raw key
                        assert forall|k2: Seq<u8>| above_lo(self.lo@, k2)
                            implies above_lo(pre_lo, k2) by {
                            assert(lex_lt(user_key@, k2));
                            match pre_lo {
                                BoundModel::Included(a) => {
                                    if lex_lt(k2, a) {
                                        lemma_lex_transitive(user_key@, k2, a);
                                        lemma_lex_asymmetric(user_key@, a);
                                        assert(false);
                                    }
                                }
                                BoundModel::Excluded(a) => {
                                    lemma_lex_transitive(a, user_key@, k2);
                                }
                                BoundModel::Unbounded => {}
                            }
                        }
                        let new_set = keys_in_range(m, enc_lo(self.lo@), enc_hi(hi0));
                        m.dom().lemma_len_filter(|w: Seq<u8>| in_bounds(enc_lo(self.lo@),
                            enc_hi(hi0), w));
                        assert(new_set.subset_of(old_set.remove(e.0@))) by {
                            assert forall|w2: Seq<u8>| new_set.contains(w2)
                                implies old_set.remove(e.0@).contains(w2) by {
                                lemma_scan_range(m, w2, self.lo@, hi0);
                                let (kk2, vv2) = choose|kk2: Seq<u8>, vv2: u64|
                                    w2 == record_key(kk2, vv2) && in_bounds(self.lo@,
                                        hi0, kk2);
                                assert(lex_lt(user_key@, kk2));
                                lemma_lex_asymmetric(user_key@, kk2);
                                lemma_scan_range_complete(pre_lo, hi0, kk2, vv2);
                                lemma_key_order(KeyModel::Record(user_key@, vv0),
                                    KeyModel::Record(kk2, vv2));
                                lemma_lex_asymmetric(e.0@, w2);
                            }
                        }
                        assert(old_set.contains(e.0@)) by {
                            assert(in_bounds(raw_lo@, raw_hi@, e.0@));
                        }
                        assert(old_set.remove(e.0@).len() == old_set.len() - 1);
                        vstd::set_lib::lemma_len_subset(new_set, old_set.remove(e.0@));
                    }
                    match resolved {
                        Some(stored) => {
                            match stored {
                                Some(val) => {
                                    proof {
                                        assert(spec_get(m, version, inv, user_key@)
                                            == Some(val@));
                                    }
                                    return Ok(Some((user_key, val)));
                                }
                                None => {
                                    proof {
                                        assert(spec_get(m, version, inv, user_key@)
                                            is None);
                                    }
                                }
                            }
                        }
                        None => {
                            proof {
                                assert(spec_get(m, version, inv, user_key@) is None);
                            }
                        }
                    }
                    // this key read as absent; fold it into the passed-over zone
                    proof {
                        assert forall|k2: Seq<u8>|
                            in_bounds(lo0, hi0, k2) && !above_lo(self.lo@, k2)
                                implies spec_get(m, version, inv, k2) is None by {
                            if above_lo(pre_lo, k2) {
                                lemma_lex_total(k2, user_key@);
                            }
                        }
                    }
                }
            }
        }
    }
}

impl Scan {
    /// The next visible key-value pair in descending key order: the greatest
    /// user key in the remaining range whose latest visible version is a
    /// live value. Tombstoned and invisible keys are skipped. The emitted
    /// key is excluded from the remaining range.
    #[verifier::rlimit(100)]
    pub fn next_back(&mut self, mvcc: &MVCC) -> (r: Result<Option<(Vec<u8>, Vec<u8>)>, Error>)
        requires
            mvcc.wf(),
        ensures
            final(self).spec_snapshot() == old(self).spec_snapshot(),
            final(self).spec_lo() == old(self).spec_lo(),
            r matches Ok(item) && match item {
                Some(e) => {
                    &&& !old(self).spec_done() && !final(self).spec_done()
                    &&& in_bounds(old(self).spec_lo(), old(self).spec_hi(), e.0@)
                    &&& old(self).spec_read(mvcc@, e.0@) == Some(e.1@)
                    &&& forall|k2: Seq<u8>|
                        in_bounds(old(self).spec_lo(), old(self).spec_hi(), k2)
                            && lex_lt(e.0@, k2)
                            ==> old(self).spec_read(mvcc@, k2) is None
                    &&& final(self).spec_hi() == BoundModel::Excluded(e.0@)
                },
                None => {
                    &&& final(self).spec_done()
                    &&& old(self).spec_done() || forall|k2: Seq<u8>|
                        in_bounds(old(self).spec_lo(), old(self).spec_hi(), k2)
                            ==> old(self).spec_read(mvcc@, k2) is None
                },
            },
    {
        if self.done {
            return Ok(None);
        }
        let ghost m = mvcc@;
        let ghost version = self.snapshot.spec_version();
        let ghost inv = self.snapshot.spec_invisible();
        let ghost lo0 = self.lo@;
        let ghost hi0 = self.hi@;
        proof {
            mvcc.store.lemma_dom_finite();
            m.dom().lemma_len_filter(|w: Seq<u8>| in_bounds(enc_lo(lo0),
                enc_hi(self.hi@), w));
        }
        loop
            invariant
                mvcc.wf(),
                m == mvcc@,
                version == self.snapshot.spec_version(),
                inv == self.snapshot.spec_invisible(),
                self.snapshot == old(self).spec_snapshot(),
                lo0 == self.lo@,
                lo0 == old(self).spec_lo(),
                hi0 == old(self).spec_hi(),
                !old(self).spec_done(),
                !self.done,
                // keys already passed over read as absent
                forall|k2: Seq<u8>| in_bounds(lo0, hi0, k2) && !below_hi(self.hi@, k2)
                    ==> spec_get(m, version, inv, k2) is None,
                // the remaining range only narrows
                forall|k2: Seq<u8>| below_hi(self.hi@, k2) ==> below_hi(hi0, k2),
                keys_in_range(m, enc_lo(lo0), enc_hi(self.hi@)).finite(),
                m.dom().finite(),
            decreases keys_in_range(m, enc_lo(lo0), enc_hi(self.hi@)).len(),
        {
            let raw_lo = make_enc_lo(&self.lo);
            let raw_hi = make_enc_hi(&self.hi);
            let found = mvcc.store.last_in(&raw_lo, &raw_hi);
            match found {
                None => {
                    proof {
                        assert forall|k2: Seq<u8>| in_bounds(lo0, hi0, k2)
                            implies spec_get(m, version, inv, k2) is None by {
                            if below_hi(self.hi@, k2) {
                                assert forall|v: u64| !has_record(m, k2, v) by {
                                    if has_record(m, k2, v) {
                                        lemma_scan_range_complete(lo0, self.hi@, k2, v);
                                        assert(m.dom().contains(record_key(k2, v)));
                                        assert(in_bounds(raw_lo@, raw_hi@,
                                            record_key(k2, v)));
                                        assert(false);
                                    }
                                }
                                lemma_no_records_none(m, version, inv, k2);
                            }
                        }
                    }
                    self.done = true;
                    return Ok(None);
                }
                Some(e) => {
                    proof {
                        lemma_scan_range(m, e.0@, self.lo@, self.hi@);
                    }
                    let user_key = match Key::decode(e.0.as_slice()) {
                        Ok(Key::Record(user_key, _)) => user_key,
                        _ => {
                            proof {
                                let (kk, vv) = choose|kk: Seq<u8>, vv: u64|
                                    e.0@ == record_key(kk, vv) && in_bounds(self.lo@,
                                        self.hi@, kk);
                                lemma_key_roundtrip(KeyModel::Record(kk, vv));
                                assert(false);
                            }
                            return Err(Error::Internal(String::from_str(
                                "Expected Record key")));
                        }
                    };
                    let ghost vv0 = choose|vv: u64| #![auto] e.0@ == record_key(user_key@, vv);
                    proof {
                        let (kk, vv) = choose|kk: Seq<u8>, vv: u64|
                            e.0@ == record_key(kk, vv) && in_bounds(self.lo@, self.hi@, kk);
                        lemma_key_roundtrip(KeyModel::Record(kk, vv));
                        assert(spec_decode(e.0@) == Some(KeyModel::Record(kk, vv)));
                        assert(user_key@ == kk);
                        assert(e.0@ == record_key(user_key@, vv));
                        assert(in_bounds(self.lo@, self.hi@, user_key@));
                        // no key above user_key in the remaining range has any record
                        assert forall|k2: Seq<u8>|
                            below_hi(self.hi@, k2) && lex_lt(user_key@, k2)
                                implies spec_get(m, version, inv, k2) is None by {
                            assert forall|v: u64| !has_record(m, k2, v) by {
                                if has_record(m, k2, v) {
                                    assert(above_lo(lo0, k2)) by {
                                        match lo0 {
                                            BoundModel::Included(a) => {
                                                if lex_lt(k2, a) {
                                                    lemma_lex_transitive(user_key@, k2, a);
                                                    lemma_lex_asymmetric(user_key@, a);
                                                }
                                            }
                                            BoundModel::Excluded(a) => {
                                                lemma_lex_transitive(a, user_key@, k2);
                                            }
                                            BoundModel::Unbounded => {}
                                        }
                                    }
                                    lemma_scan_range_complete(lo0, self.hi@, k2, v);
                                    assert(m.dom().contains(record_key(k2, v)));
                                    assert(in_bounds(raw_lo@, raw_hi@, record_key(k2, v)));
                                    assert(!lex_lt(e.0@, record_key(k2, v)));
                                    lemma_key_order(KeyModel::Record(user_key@, vv),
                                        KeyModel::Record(k2, v));
                                    assert(false);
                                }
                            }
                            lemma_no_records_none(m, version, inv, k2);
                        }
                    }
                    let resolved = read_visible(&mvcc.store, &self.snapshot,
                        user_key.as_slice());
                    // move the upper bound past this key, whatever it held
                    let ghost pre_hi = self.hi@;
                    let ghost old_set = keys_in_range(m, enc_lo(lo0), enc_hi(pre_hi));
                    self.hi = Bound::Excluded(copy_bytes(&user_key));
                    proof {
                        // the range narrows and loses the found raw key
                        assert forall|k2: Seq<u8>| below_hi(self.hi@, k2)
                            implies below_hi(pre_hi, k2) by {
                            assert(lex_lt(k2, user_key@));
                            match pre_hi {
                                BoundModel::Included(b) => {
                                    if lex_lt(b, k2) {
                                        lemma_lex_transitive(b, k2, user_key@);
                                        lemma_lex_asymmetric(b, user_key@);
                                        assert(false);
                                    }
                                }
                                BoundModel::Excluded(b) => {
                                    lemma_lex_transitive(k2, user_key@, b);
                                }
                                BoundModel::Unbounded => {}
                            }
                        }
                        let new_set = keys_in_range(m, enc_lo(lo0), enc_hi(self.hi@));
                        m.dom().lemma_len_filter(|w: Seq<u8>| in_bounds(enc_lo(lo0),
                            enc_hi(self.hi@), w));
                        assert(new_set.subset_of(old_set.remove(e.0@))) by {
                            assert forall|w2: Seq<u8>| new_set.contains(w2)
                                implies old_set.remove(e.0@).contains(w2) by {
                                lemma_scan_range(m, w2, lo0, self.hi@);
                                let (kk2, vv2) = choose|kk2: Seq<u8>, vv2: u64|
                                    w2 == record_key(kk2, vv2) && in_bounds(lo0,
                                        self.hi@, kk2);
                                assert(lex_lt(kk2, user_key@));
                                lemma_lex_asymmetric(kk2, user_key@);
                                lemma_scan_range_complete(lo0, pre_hi, kk2, vv2);
                                lemma_key_order(KeyModel::Record(kk2, vv2),
                                    KeyModel::Record(user_key@, vv0));
                                lemma_lex_asymmetric(w2, e.0@);
                            }
                        }
                        assert(old_set.contains(e.0@)) by {
                            assert(in_bounds(raw_lo@, raw_hi@, e.0@));
                        }
                        assert(old_set.remove(e.0@).len() == old_set.len() - 1);
                        vstd::set_lib::lemma_len_subset(new_set, old_set.remove(e.0@));
                    }
                    match resolved {
                        Some(stored) => {
                            match stored {
                                Some(val) => {
                                    proof {
                                        assert(spec_get(m, version, inv, user_key@)
                                            == Some(val@));
                                    }
                                    return Ok(Some((user_key, val)));
                                }
                                None => {
                                    proof {
                                        assert(spec_get(m, version, inv, user_key@)
                                            is None);
                                    }
                                }
                            }
                        }
                        None => {
                            proof {
                                assert(spec_get(m, version, inv, user_key@) is None);
                            }
                        }
                    }
                    // this key read as absent; fold it into the passed-over zone
                    proof {
                        assert forall|k2: Seq<u8>|
                            in_bounds(lo0, hi0, k2) && !below_hi(self.hi@, k2)
                                implies spec_get(m, version, inv, k2) is None by {
                            if below_hi(pre_hi, k2) {
                                lemma_lex_total(k2, user_key@);
                            }
                        }
                    }
                }
            }
        }
    }
}

/// Everything in a prefix's byte string is `0xff`, so it has no successor.
pub open spec fn all_ff(p: Seq<u8>) -> bool {
    forall|i: int| 0 <= i < p.len() ==> p[i] == 0xff
}

/// The least byte string of the same length above every string that starts
/// with `p`: the last non-`0xff` byte is bumped and the tail zeroed.
pub open spec fn prefix_successor(p: Seq<u8>) -> Seq<u8>
    decreases p.len(),
{
    if p.len() == 0 {
        Seq::empty()
    } else if p.last() == 0xff {
        prefix_successor(p.drop_last()).push(0u8)
    } else {
        p.drop_last().push((p.last() + 1) as u8)
    }
}

impl Transaction {
    /// Opens a scan over the user keys in the given range, reading at this
    /// transaction's snapshot.
    pub fn scan(&self, start: Bound, end: Bound) -> (r: Result<Scan, Error>)
        ensures
            r matches Ok(s) && {
                &&& s.spec_snapshot().spec_version() == self.spec_snapshot().spec_version()
                &&& s.spec_snapshot().spec_invisible()
                    == self.spec_snapshot().spec_invisible()
                &&& s.spec_lo() == start@
                &&& s.spec_hi() == end@
                &&& !s.spec_done()
            },
    {
        Ok(Scan {
            snapshot: self.snapshot.duplicate(),
            lo: start,
            hi: end,
            done: false,
        })
    }

    /// Opens a scan over all keys that start with `prefix`: from the prefix
    /// itself up to (but excluding) the prefix's successor. An empty prefix
    /// is refused, and so is an all-`0xff` prefix, whose range would have no
    /// upper bound.
    pub fn scan_prefix(&self, prefix: &[u8]) -> (r: Result<Scan, Error>)
        ensures
            match r {
                Ok(s) => {
                    &&& prefix@.len() > 0 && !all_ff(prefix@)
                    &&& s.spec_snapshot().spec_version() == self.spec_snapshot().spec_version()
                    &&& s.spec_snapshot().spec_invisible()
                        == self.spec_snapshot().spec_invisible()
                    &&& s.spec_lo() == BoundModel::Included(prefix@)
                    &&& s.spec_hi() == BoundModel::Excluded(prefix_successor(prefix@))
                    &&& !s.spec_done()
                },
                Err(e) => {
                    &&& (prefix@.len() == 0 || all_ff(prefix@))
                    &&& (e matches Error::Value(m)
                        && (prefix@.len() == 0 ==> m@ == "Scan prefix cannot be empty"@)
                        && (prefix@.len() > 0 ==> m@ == "Invalid prefix scan range"@))
                },
            },
    {
        if prefix.len() == 0 {
            return Err(Error::Value(String::from_str("Scan prefix cannot be empty")));
        }
        let mut end = vstd::slice::slice_to_vec(prefix);
        let n: usize = end.len();
        let mut i: usize = n;
        loop
            invariant
                0 < i <= n,
                n == prefix@.len(),
                end@.len() == n,
                forall|j: int| 0 <= j < i ==> end@[j] == prefix@[j],
                forall|j: int| i <= j < n ==> prefix@[j] == 0xff && end@[j] == 0,
            decreases i,
        {
            i = i - 1;
            let b = end[i];
            if b == 0xff {
                if i == 0 {
                    proof {
                        assert(all_ff(prefix@));
                    }
                    return Err(Error::Value(String::from_str(
                        "Invalid prefix scan range")));
                }
                end.set(i, 0);
            } else {
                end.set(i, b + 1);
                proof {
                    lemma_prefix_successor_shape(prefix@, i as int);
                    assert(end@ =~= prefix@.take(i as int).push((prefix@[i as int] + 1) as u8)
                        + Seq::new((n - 1 - i) as nat, |j: int| 0u8));
                }
                return Ok(Scan {
                    snapshot: self.snapshot.duplicate(),
                    lo: Bound::Included(vstd::slice::slice_to_vec(prefix)),
                    hi: Bound::Excluded(end),
                    done: false,
                });
            }
        }
    }
}

/// When everything after position `i` is `0xff` and position `i` is not,
/// the prefix successor bumps position `i` and zeroes the tail.
proof fn lemma_prefix_successor_shape(p: Seq<u8>, i: int)
    requires
        0 <= i < p.len(),
        p[i] != 0xff,
        forall|j: int| i < j < p.len() ==> p[j] == 0xff,
    ensures
        prefix_successor(p) == p.take(i).push((p[i] + 1) as u8)
            + Seq::new((p.len() - 1 - i) as nat, |j: int| 0u8),
    decreases p.len(),
{
    if i == p.len() - 1 {
        assert(p.drop_last() =~= p.take(i));
        assert(prefix_successor(p) =~= p.take(i).push((p[i] + 1) as u8)
            + Seq::new(0, |j: int| 0u8));
    } else {
        assert(p.last() == 0xff);
        lemma_prefix_successor_shape(p.drop_last(), i);
        assert(p.drop_last().take(i) =~= p.take(i));
        assert(prefix_successor(p) == prefix_successor(p.drop_last()).push(0u8));
        assert(prefix_successor(p.drop_last()).push(0u8)
            =~= p.take(i).push((p[i] + 1) as u8)
                + Seq::new((p.len() - 1 - i) as nat, |j: int| 0u8));
    }
}

/// Inserting a metadata entry preserves well-formedness and touches no
/// bookkeeping state.
proof fn lemma_metadata_insert_wf(m: Map<Seq<u8>, Seq<u8>>, k: Seq<u8>, v: Seq<u8>)
    requires
        wf_store(m),
        mvcc_inv(m),
    ensures
        wf_store(m.insert(metadata_key(k), v)),
        mvcc_inv(m.insert(metadata_key(k), v)),
        txn_next(m.insert(metadata_key(k), v)) == txn_next(m),
{
    let m2 = m.insert(metadata_key(k), v);
    lemma_families_distinct();
    lemma_key_roundtrip(KeyModel::Metadata(k));
    lemma_wf_insert(m, KeyModel::Metadata(k), v);
    assert forall|id: u64| is_active(m2, id) == is_active(m, id) by {
        assert(active_key(id) != metadata_key(k));
    }
    assert forall|v2: u64| has_snapshot(m2, v2) == has_snapshot(m, v2) by {
        assert(snapshot_key(v2) != metadata_key(k));
    }
    assert forall|k2: Seq<u8>, v2: u64| has_record(m2, k2, v2) == has_record(m, k2, v2) by {
        assert(record_key(k2, v2) != metadata_key(k));
    }
    assert(mvcc_inv(m2)) by {
        assert forall|id: u64| #[trigger] is_active(m2, id) implies id < txn_next(m2) by {
            assert(is_active(m, id));
        }
        assert forall|k2: Seq<u8>, v2: u64| #[trigger] has_record(m2, k2, v2)
            implies v2 < txn_next(m2) by {
            assert(has_record(m, k2, v2));
        }
        assert forall|k2: Seq<u8>, v2: u64|
            #[trigger] has_record(m2, k2, v2) && is_active(m2, v2)
                implies m2.dom().contains(update_key(v2, record_key(k2, v2))) by {
            assert(has_record(m, k2, v2));
            assert(is_active(m, v2));
            assert(m.dom().contains(update_key(v2, record_key(k2, v2))));
            assert(update_key(v2, record_key(k2, v2)) != metadata_key(k));
        }
        assert forall|id2: u64, rk: Seq<u8>| #[trigger] m2.dom().contains(update_key(id2, rk))
            implies exists|k2: Seq<u8>| rk == record_key(k2, id2) by {
            assert(update_key(id2, rk) != metadata_key(k));
            assert(m.dom().contains(update_key(id2, rk)));
        }
        assert forall|id: u64| #[trigger] is_active(m2, id) implies has_snapshot(m2, id) by {
            assert(is_active(m, id));
            assert(has_snapshot(m, id));
            assert(snapshot_key(id) != metadata_key(k));
        }
    }
}

} // verus!
