//! Transaction lifecycle, isolation and scan behaviour of the MVCC engine.

use mvcc::{Bound, Error, Memory, Mode, Scan, Status, MVCC};

fn setup() -> MVCC {
    MVCC::new(Memory::new())
}

fn collect_fwd(mvcc: &MVCC, scan: &mut Scan) -> Result<Vec<(Vec<u8>, Vec<u8>)>, Error> {
    let mut out = Vec::new();
    while let Some(item) = scan.next(mvcc)? {
        out.push(item);
    }
    Ok(out)
}

fn collect_rev(mvcc: &MVCC, scan: &mut Scan) -> Result<Vec<(Vec<u8>, Vec<u8>)>, Error> {
    let mut out = Vec::new();
    while let Some(item) = scan.next_back(mvcc)? {
        out.push(item);
    }
    Ok(out)
}

#[test]
fn test_begin() -> Result<(), Error> {
    let mut mvcc = setup();

    let txn = mvcc.begin()?;
    assert_eq!(1, txn.id());
    assert_eq!(Mode::ReadWrite, txn.mode());
    txn.commit(&mut mvcc)?;

    let txn = mvcc.begin()?;
    assert_eq!(2, txn.id());
    txn.rollback(&mut mvcc)?;

    let txn = mvcc.begin()?;
    assert_eq!(3, txn.id());
    txn.commit(&mut mvcc)?;

    Ok(())
}

#[test]
fn test_begin_with_mode_readonly() -> Result<(), Error> {
    let mut mvcc = setup();
    let txn = mvcc.begin_with_mode(Mode::ReadOnly)?;
    assert_eq!(1, txn.id());
    assert_eq!(Mode::ReadOnly, txn.mode());
    txn.commit(&mut mvcc)?;
    Ok(())
}

#[test]
fn test_begin_with_mode_readwrite() -> Result<(), Error> {
    let mut mvcc = setup();
    let txn = mvcc.begin_with_mode(Mode::ReadWrite)?;
    assert_eq!(1, txn.id());
    assert_eq!(Mode::ReadWrite, txn.mode());
    txn.commit(&mut mvcc)?;
    Ok(())
}

#[test]
fn test_begin_with_mode_snapshot() -> Result<(), Error> {
    let mut mvcc = setup();

    // Write a couple of versions for a key
    let txn = mvcc.begin_with_mode(Mode::ReadWrite)?;
    txn.set(&mut mvcc, b"key", vec![0x01])?;
    txn.commit(&mut mvcc)?;
    let txn = mvcc.begin_with_mode(Mode::ReadWrite)?;
    txn.set(&mut mvcc, b"key", vec![0x02])?;
    txn.commit(&mut mvcc)?;

    // Check that we can start a snapshot in version 1
    let txn = mvcc.begin_with_mode(Mode::Snapshot { version: 1 })?;
    assert_eq!(3, txn.id());
    assert_eq!(Mode::Snapshot { version: 1 }, txn.mode());
    assert_eq!(Some(vec![0x01]), txn.get(&mvcc, b"key")?);
    txn.commit(&mut mvcc)?;

    // Check that we can start a snapshot in a past snapshot transaction
    let txn = mvcc.begin_with_mode(Mode::Snapshot { version: 3 })?;
    assert_eq!(4, txn.id());
    assert_eq!(Mode::Snapshot { version: 3 }, txn.mode());
    assert_eq!(Some(vec![0x02]), txn.get(&mvcc, b"key")?);
    txn.commit(&mut mvcc)?;

    // Check that the current transaction ID is valid as a snapshot version
    let txn = mvcc.begin_with_mode(Mode::Snapshot { version: 5 })?;
    assert_eq!(5, txn.id());
    assert_eq!(Mode::Snapshot { version: 5 }, txn.mode());
    txn.commit(&mut mvcc)?;

    // Check that any future transaction IDs are invalid
    assert_eq!(
        mvcc.begin_with_mode(Mode::Snapshot { version: 9 }).err(),
        Some(Error::Value("Snapshot not found for version 9".into()))
    );

    // Check that concurrent transactions are hidden from snapshots of snapshot
    // transactions. This is because any transaction, including a snapshot
    // transaction, allocates a new transaction ID, and we need to make sure
    // concurrent transactions at the time the transaction began are hidden
    // from future snapshot transactions.
    let txn_active = mvcc.begin()?;
    let txn_snapshot = mvcc.begin_with_mode(Mode::Snapshot { version: 1 })?;
    assert_eq!(7, txn_active.id());
    assert_eq!(8, txn_snapshot.id());
    txn_active.set(&mut mvcc, b"key", vec![0x07])?;
    assert_eq!(Some(vec![0x01]), txn_snapshot.get(&mvcc, b"key")?);
    txn_active.commit(&mut mvcc)?;
    txn_snapshot.commit(&mut mvcc)?;

    let txn = mvcc.begin_with_mode(Mode::Snapshot { version: 8 })?;
    assert_eq!(9, txn.id());
    assert_eq!(Some(vec![0x02]), txn.get(&mvcc, b"key")?);
    txn.commit(&mut mvcc)?;

    Ok(())
}

#[test]
fn test_resume() -> Result<(), Error> {
    let mut mvcc = setup();

    // We first write a set of values that should be visible
    let t1 = mvcc.begin()?;
    t1.set(&mut mvcc, b"a", b"t1".to_vec())?;
    t1.set(&mut mvcc, b"b", b"t1".to_vec())?;
    t1.commit(&mut mvcc)?;

    // We then start three transactions, of which we will resume t3.
    // We commit t2 and t4's changes, which should not be visible,
    // and write a change for t3 which should be visible.
    let t2 = mvcc.begin()?;
    let t3 = mvcc.begin()?;
    let t4 = mvcc.begin()?;

    t2.set(&mut mvcc, b"a", b"t2".to_vec())?;
    t3.set(&mut mvcc, b"b", b"t3".to_vec())?;
    t4.set(&mut mvcc, b"c", b"t4".to_vec())?;

    t2.commit(&mut mvcc)?;
    t4.commit(&mut mvcc)?;

    // We now resume t3, who should see its own changes but none of the others'
    let id = t3.id();
    std::mem::drop(t3);
    let tr = mvcc.resume(id)?;
    assert_eq!(3, tr.id());
    assert_eq!(Mode::ReadWrite, tr.mode());

    assert_eq!(Some(b"t1".to_vec()), tr.get(&mvcc, b"a")?);
    assert_eq!(Some(b"t3".to_vec()), tr.get(&mvcc, b"b")?);
    assert_eq!(None, tr.get(&mvcc, b"c")?);

    // A separate transaction should not see t3's changes, but should see the others
    let t = mvcc.begin()?;
    assert_eq!(Some(b"t2".to_vec()), t.get(&mvcc, b"a")?);
    assert_eq!(Some(b"t1".to_vec()), t.get(&mvcc, b"b")?);
    assert_eq!(Some(b"t4".to_vec()), t.get(&mvcc, b"c")?);
    t.rollback(&mut mvcc)?;

    // Once tr commits, a separate transaction should see t3's changes
    tr.commit(&mut mvcc)?;

    let t = mvcc.begin()?;
    assert_eq!(Some(b"t2".to_vec()), t.get(&mvcc, b"a")?);
    assert_eq!(Some(b"t3".to_vec()), t.get(&mvcc, b"b")?);
    assert_eq!(Some(b"t4".to_vec()), t.get(&mvcc, b"c")?);
    t.rollback(&mut mvcc)?;

    // It should also be possible to start a snapshot transaction and resume it.
    let ts = mvcc.begin_with_mode(Mode::Snapshot { version: 1 })?;
    assert_eq!(7, ts.id());
    assert_eq!(Some(b"t1".to_vec()), ts.get(&mvcc, b"a")?);

    let id = ts.id();
    std::mem::drop(ts);
    let ts = mvcc.resume(id)?;
    assert_eq!(7, ts.id());
    assert_eq!(Mode::Snapshot { version: 1 }, ts.mode());
    assert_eq!(Some(b"t1".to_vec()), ts.get(&mvcc, b"a")?);
    ts.commit(&mut mvcc)?;

    // Resuming an inactive transaction should error.
    assert_eq!(mvcc.resume(7).err(), Some(Error::Value("No active transaction 7".into())));

    Ok(())
}

#[test]
fn test_txn_delete_conflict() -> Result<(), Error> {
    let mut mvcc = setup();

    let txn = mvcc.begin()?;
    txn.set(&mut mvcc, b"key", vec![0x00])?;
    txn.commit(&mut mvcc)?;

    let t1 = mvcc.begin()?;
    let t2 = mvcc.begin()?;
    let t3 = mvcc.begin()?;

    t2.delete(&mut mvcc, b"key")?;
    assert_eq!(Err(Error::Serialization), t1.delete(&mut mvcc, b"key"));
    assert_eq!(Err(Error::Serialization), t3.delete(&mut mvcc, b"key"));
    t2.commit(&mut mvcc)?;

    Ok(())
}

#[test]
fn test_txn_delete_idempotent() -> Result<(), Error> {
    let mut mvcc = setup();

    let txn = mvcc.begin()?;
    txn.delete(&mut mvcc, b"key")?;
    txn.commit(&mut mvcc)?;

    Ok(())
}

#[test]
fn test_txn_get() -> Result<(), Error> {
    let mut mvcc = setup();

    let txn = mvcc.begin()?;
    assert_eq!(None, txn.get(&mvcc, b"a")?);
    txn.set(&mut mvcc, b"a", vec![0x01])?;
    assert_eq!(Some(vec![0x01]), txn.get(&mvcc, b"a")?);
    txn.set(&mut mvcc, b"a", vec![0x02])?;
    assert_eq!(Some(vec![0x02]), txn.get(&mvcc, b"a")?);
    txn.commit(&mut mvcc)?;

    Ok(())
}

#[test]
fn test_txn_get_deleted() -> Result<(), Error> {
    let mut mvcc = setup();
    let txn = mvcc.begin()?;
    txn.set(&mut mvcc, b"a", vec![0x01])?;
    txn.commit(&mut mvcc)?;

    let txn = mvcc.begin()?;
    txn.delete(&mut mvcc, b"a")?;
    txn.commit(&mut mvcc)?;

    let txn = mvcc.begin()?;
    assert_eq!(None, txn.get(&mvcc, b"a")?);
    txn.commit(&mut mvcc)?;

    Ok(())
}

#[test]
fn test_txn_get_hides_newer() -> Result<(), Error> {
    let mut mvcc = setup();

    let t1 = mvcc.begin()?;
    let t2 = mvcc.begin()?;
    let t3 = mvcc.begin()?;

    t1.set(&mut mvcc, b"a", vec![0x01])?;
    t1.commit(&mut mvcc)?;
    t3.set(&mut mvcc, b"c", vec![0x03])?;
    t3.commit(&mut mvcc)?;

    assert_eq!(None, t2.get(&mvcc, b"a")?);
    assert_eq!(None, t2.get(&mvcc, b"c")?);

    Ok(())
}

#[test]
fn test_txn_get_hides_uncommitted() -> Result<(), Error> {
    let mut mvcc = setup();

    let t1 = mvcc.begin()?;
    t1.set(&mut mvcc, b"a", vec![0x01])?;
    let t2 = mvcc.begin()?;
    let t3 = mvcc.begin()?;
    t3.set(&mut mvcc, b"c", vec![0x03])?;

    assert_eq!(None, t2.get(&mvcc, b"a")?);
    assert_eq!(None, t2.get(&mvcc, b"c")?);

    Ok(())
}

#[test]
fn test_txn_get_readonly_historical() -> Result<(), Error> {
    let mut mvcc = setup();

    let txn = mvcc.begin()?;
    txn.set(&mut mvcc, b"a", vec![0x01])?;
    txn.commit(&mut mvcc)?;

    let txn = mvcc.begin()?;
    txn.set(&mut mvcc, b"b", vec![0x02])?;
    txn.commit(&mut mvcc)?;

    let txn = mvcc.begin()?;
    txn.set(&mut mvcc, b"c", vec![0x03])?;
    txn.commit(&mut mvcc)?;

    let tr = mvcc.begin_with_mode(Mode::Snapshot { version: 2 })?;
    assert_eq!(Some(vec![0x01]), tr.get(&mvcc, b"a")?);
    assert_eq!(Some(vec![0x02]), tr.get(&mvcc, b"b")?);
    assert_eq!(None, tr.get(&mvcc, b"c")?);

    Ok(())
}

#[test]
fn test_txn_get_serial() -> Result<(), Error> {
    let mut mvcc = setup();

    let txn = mvcc.begin()?;
    txn.set(&mut mvcc, b"a", vec![0x01])?;
    txn.commit(&mut mvcc)?;

    let txn = mvcc.begin()?;
    assert_eq!(Some(vec![0x01]), txn.get(&mvcc, b"a")?);

    Ok(())
}

#[test]
fn test_txn_scan() -> Result<(), Error> {
    let mut mvcc = setup();
    let txn = mvcc.begin()?;

    txn.set(&mut mvcc, b"a", vec![0x01])?;

    txn.delete(&mut mvcc, b"b")?;

    txn.set(&mut mvcc, b"c", vec![0x01])?;
    txn.set(&mut mvcc, b"c", vec![0x02])?;
    txn.delete(&mut mvcc, b"c")?;
    txn.set(&mut mvcc, b"c", vec![0x03])?;

    txn.set(&mut mvcc, b"d", vec![0x01])?;
    txn.set(&mut mvcc, b"d", vec![0x02])?;
    txn.set(&mut mvcc, b"d", vec![0x03])?;
    txn.set(&mut mvcc, b"d", vec![0x04])?;
    txn.delete(&mut mvcc, b"d")?;

    txn.set(&mut mvcc, b"e", vec![0x01])?;
    txn.set(&mut mvcc, b"e", vec![0x02])?;
    txn.set(&mut mvcc, b"e", vec![0x03])?;
    txn.delete(&mut mvcc, b"e")?;
    txn.set(&mut mvcc, b"e", vec![0x04])?;
    txn.set(&mut mvcc, b"e", vec![0x05])?;
    txn.commit(&mut mvcc)?;

    // Forward scan
    let txn = mvcc.begin()?;
    let mut scan = txn.scan(Bound::Unbounded, Bound::Unbounded)?;
    assert_eq!(
        vec![
            (b"a".to_vec(), vec![0x01]),
            (b"c".to_vec(), vec![0x03]),
            (b"e".to_vec(), vec![0x05]),
        ],
        collect_fwd(&mvcc, &mut scan)?
    );

    // Reverse scan
    let mut scan = txn.scan(Bound::Unbounded, Bound::Unbounded)?;
    assert_eq!(
        vec![
            (b"e".to_vec(), vec![0x05]),
            (b"c".to_vec(), vec![0x03]),
            (b"a".to_vec(), vec![0x01]),
        ],
        collect_rev(&mvcc, &mut scan)?
    );

    // Alternate forward/backward scan
    let mut scan = txn.scan(Bound::Unbounded, Bound::Unbounded)?;
    assert_eq!(Some((b"a".to_vec(), vec![0x01])), scan.next(&mvcc)?);
    assert_eq!(Some((b"e".to_vec(), vec![0x05])), scan.next_back(&mvcc)?);
    assert_eq!(Some((b"c".to_vec(), vec![0x03])), scan.next_back(&mvcc)?);
    assert_eq!(None, scan.next(&mvcc)?);
    std::mem::drop(scan);

    txn.commit(&mut mvcc)?;
    Ok(())
}

#[test]
fn test_txn_scan_key_version_overlap() -> Result<(), Error> {
    // The idea here is that with a naive key/version concatenation
    // we get overlapping entries that mess up scans. For example:
    //
    // 00|00 00 00 00 00 00 00 01
    // 00 00 00 00 00 00 00 00 02|00 00 00 00 00 00 00 02
    // 00|00 00 00 00 00 00 00 03
    //
    // The key encoding should be resistant to this.
    let mut mvcc = setup();

    let txn = mvcc.begin()?;
    txn.set(&mut mvcc, &[0], vec![0])?; // v0
    txn.set(&mut mvcc, &[0], vec![1])?; // v1
    txn.set(&mut mvcc, &[0, 0, 0, 0, 0, 0, 0, 0, 2], vec![2])?; // v2
    txn.set(&mut mvcc, &[0], vec![3])?; // v3
    txn.commit(&mut mvcc)?;

    let txn = mvcc.begin()?;
    let mut scan = txn.scan(Bound::Unbounded, Bound::Unbounded)?;
    assert_eq!(
        vec![(vec![0].to_vec(), vec![3]), (vec![0, 0, 0, 0, 0, 0, 0, 0, 2].to_vec(), vec![2]),],
        collect_fwd(&mvcc, &mut scan)?
    );
    Ok(())
}

#[test]
fn test_txn_scan_prefix() -> Result<(), Error> {
    let mut mvcc = setup();
    let txn = mvcc.begin()?;

    txn.set(&mut mvcc, b"a", vec![0x01])?;
    txn.set(&mut mvcc, b"az", vec![0x01, 0x1a])?;
    txn.set(&mut mvcc, b"b", vec![0x02])?;
    txn.set(&mut mvcc, b"ba", vec![0x02, 0x01])?;
    txn.set(&mut mvcc, b"bb", vec![0x02, 0x02])?;
    txn.set(&mut mvcc, b"bc", vec![0x02, 0x03])?;
    txn.set(&mut mvcc, b"c", vec![0x03])?;
    txn.commit(&mut mvcc)?;

    // Forward scan
    let txn = mvcc.begin()?;
    let mut scan = txn.scan_prefix(b"b")?;
    assert_eq!(
        vec![
            (b"b".to_vec(), vec![0x02]),
            (b"ba".to_vec(), vec![0x02, 0x01]),
            (b"bb".to_vec(), vec![0x02, 0x02]),
            (b"bc".to_vec(), vec![0x02, 0x03]),
        ],
        collect_fwd(&mvcc, &mut scan)?
    );

    // Reverse scan
    let mut scan = txn.scan_prefix(b"b")?;
    assert_eq!(
        vec![
            (b"bc".to_vec(), vec![0x02, 0x03]),
            (b"bb".to_vec(), vec![0x02, 0x02]),
            (b"ba".to_vec(), vec![0x02, 0x01]),
            (b"b".to_vec(), vec![0x02]),
        ],
        collect_rev(&mvcc, &mut scan)?
    );

    // Alternate forward/backward scan
    let mut scan = txn.scan_prefix(b"b")?;
    assert_eq!(Some((b"b".to_vec(), vec![0x02])), scan.next(&mvcc)?);
    assert_eq!(Some((b"bc".to_vec(), vec![0x02, 0x03])), scan.next_back(&mvcc)?);
    assert_eq!(Some((b"bb".to_vec(), vec![0x02, 0x02])), scan.next_back(&mvcc)?);
    assert_eq!(Some((b"ba".to_vec(), vec![0x02, 0x01])), scan.next(&mvcc)?);
    assert_eq!(None, scan.next_back(&mvcc)?);
    std::mem::drop(scan);

    txn.commit(&mut mvcc)?;
    Ok(())
}

#[test]
fn test_txn_set_conflict() -> Result<(), Error> {
    let mut mvcc = setup();

    let t1 = mvcc.begin()?;
    let t2 = mvcc.begin()?;
    let t3 = mvcc.begin()?;

    t2.set(&mut mvcc, b"key", vec![0x02])?;
    assert_eq!(Err(Error::Serialization), t1.set(&mut mvcc, b"key", vec![0x01]));
    assert_eq!(Err(Error::Serialization), t3.set(&mut mvcc, b"key", vec![0x03]));
    t2.commit(&mut mvcc)?;

    Ok(())
}

#[test]
fn test_txn_set_conflict_committed() -> Result<(), Error> {
    let mut mvcc = setup();

    let t1 = mvcc.begin()?;
    let t2 = mvcc.begin()?;
    let t3 = mvcc.begin()?;

    t2.set(&mut mvcc, b"key", vec![0x02])?;
    t2.commit(&mut mvcc)?;
    assert_eq!(Err(Error::Serialization), t1.set(&mut mvcc, b"key", vec![0x01]));
    assert_eq!(Err(Error::Serialization), t3.set(&mut mvcc, b"key", vec![0x03]));

    Ok(())
}

#[test]
fn test_txn_set_rollback() -> Result<(), Error> {
    let mut mvcc = setup();

    let txn = mvcc.begin()?;
    txn.set(&mut mvcc, b"key", vec![0x00])?;
    txn.commit(&mut mvcc)?;

    let t1 = mvcc.begin()?;
    let t2 = mvcc.begin()?;
    let t3 = mvcc.begin()?;

    t2.set(&mut mvcc, b"key", vec![0x02])?;
    t2.rollback(&mut mvcc)?;
    assert_eq!(Some(vec![0x00]), t1.get(&mvcc, b"key")?);
    t1.commit(&mut mvcc)?;
    t3.set(&mut mvcc, b"key", vec![0x03])?;
    t3.commit(&mut mvcc)?;

    Ok(())
}

#[test]
// A dirty write is when t2 overwrites an uncommitted value written by t1.
fn test_txn_anomaly_dirty_write() -> Result<(), Error> {
    let mut mvcc = setup();

    let t1 = mvcc.begin()?;
    let t2 = mvcc.begin()?;

    t1.set(&mut mvcc, b"key", b"t1".to_vec())?;
    assert_eq!(t2.set(&mut mvcc, b"key", b"t2".to_vec()), Err(Error::Serialization));

    Ok(())
}

#[test]
// A dirty read is when t2 can read an uncommitted value set by t1.
fn test_txn_anomaly_dirty_read() -> Result<(), Error> {
    let mut mvcc = setup();

    let t1 = mvcc.begin()?;
    let t2 = mvcc.begin()?;

    t1.set(&mut mvcc, b"key", b"t1".to_vec())?;
    assert_eq!(None, t2.get(&mvcc, b"key")?);

    Ok(())
}

#[test]
// A lost update is when t1 and t2 both read a value and update it, where t2's
// update replaces t1.
fn test_txn_anomaly_lost_update() -> Result<(), Error> {
    let mut mvcc = setup();

    let t0 = mvcc.begin()?;
    t0.set(&mut mvcc, b"key", b"t0".to_vec())?;
    t0.commit(&mut mvcc)?;

    let t1 = mvcc.begin()?;
    let t2 = mvcc.begin()?;

    t1.get(&mvcc, b"key")?;
    t2.get(&mvcc, b"key")?;

    t1.set(&mut mvcc, b"key", b"t1".to_vec())?;
    assert_eq!(t2.set(&mut mvcc, b"key", b"t2".to_vec()), Err(Error::Serialization));

    Ok(())
}

#[test]
// A fuzzy (or unrepeatable) read is when t2 sees a value change after t1
// updates it.
fn test_txn_anomaly_fuzzy_read() -> Result<(), Error> {
    let mut mvcc = setup();

    let t0 = mvcc.begin()?;
    t0.set(&mut mvcc, b"key", b"t0".to_vec())?;
    t0.commit(&mut mvcc)?;

    let t1 = mvcc.begin()?;
    let t2 = mvcc.begin()?;

    assert_eq!(Some(b"t0".to_vec()), t2.get(&mvcc, b"key")?);
    t1.set(&mut mvcc, b"key", b"t1".to_vec())?;
    t1.commit(&mut mvcc)?;
    assert_eq!(Some(b"t0".to_vec()), t2.get(&mvcc, b"key")?);

    Ok(())
}

#[test]
// Read skew is when t1 reads a and b, but t2 modifies b in between the reads.
fn test_txn_anomaly_read_skew() -> Result<(), Error> {
    let mut mvcc = setup();

    let t0 = mvcc.begin()?;
    t0.set(&mut mvcc, b"a", b"t0".to_vec())?;
    t0.set(&mut mvcc, b"b", b"t0".to_vec())?;
    t0.commit(&mut mvcc)?;

    let t1 = mvcc.begin()?;
    let t2 = mvcc.begin()?;

    assert_eq!(Some(b"t0".to_vec()), t1.get(&mvcc, b"a")?);
    t2.set(&mut mvcc, b"a", b"t2".to_vec())?;
    t2.set(&mut mvcc, b"b", b"t2".to_vec())?;
    t2.commit(&mut mvcc)?;
    assert_eq!(Some(b"t0".to_vec()), t1.get(&mvcc, b"b")?);

    Ok(())
}

#[test]
// A phantom read is when t1 reads entries matching some predicate, but a
// modification by t2 changes the entries that match the predicate such that a
// later read by t1 returns them.
fn test_txn_anomaly_phantom_read() -> Result<(), Error> {
    let mut mvcc = setup();

    let t0 = mvcc.begin()?;
    t0.set(&mut mvcc, b"a", b"true".to_vec())?;
    t0.set(&mut mvcc, b"b", b"false".to_vec())?;
    t0.commit(&mut mvcc)?;

    let t1 = mvcc.begin()?;
    let t2 = mvcc.begin()?;

    assert_eq!(Some(b"true".to_vec()), t1.get(&mvcc, b"a")?);
    assert_eq!(Some(b"false".to_vec()), t1.get(&mvcc, b"b")?);

    t2.set(&mut mvcc, b"b", b"true".to_vec())?;
    t2.commit(&mut mvcc)?;

    assert_eq!(Some(b"true".to_vec()), t1.get(&mvcc, b"a")?);
    assert_eq!(Some(b"false".to_vec()), t1.get(&mvcc, b"b")?);

    Ok(())
}

#[test]
fn test_metadata() -> Result<(), Error> {
    let mut mvcc = setup();

    mvcc.set_metadata(b"foo", b"bar".to_vec())?;
    assert_eq!(Some(b"bar".to_vec()), mvcc.get_metadata(b"foo")?);

    assert_eq!(None, mvcc.get_metadata(b"x")?);

    mvcc.set_metadata(b"foo", b"baz".to_vec())?;
    assert_eq!(Some(b"baz".to_vec()), mvcc.get_metadata(b"foo")?);
    Ok(())
}

#[test]
// After a begin the engine reports one more active transaction; a matching
// commit or rollback brings the count back down.
fn test_status_active_counts() -> Result<(), Error> {
    let mut mvcc = setup();
    assert_eq!(Status { txns: 0, txns_active: 0 }, mvcc.status()?);

    let t1 = mvcc.begin()?;
    assert_eq!(Status { txns: 1, txns_active: 1 }, mvcc.status()?);

    let t2 = mvcc.begin()?;
    assert_eq!(Status { txns: 2, txns_active: 2 }, mvcc.status()?);

    t1.commit(&mut mvcc)?;
    assert_eq!(Status { txns: 2, txns_active: 1 }, mvcc.status()?);

    t2.rollback(&mut mvcc)?;
    assert_eq!(Status { txns: 2, txns_active: 0 }, mvcc.status()?);

    Ok(())
}

#[test]
// A read-only or snapshot transaction never mutates: every set and delete
// fails with ReadOnly.
fn test_txn_readonly_rejected() -> Result<(), Error> {
    let mut mvcc = setup();

    let t = mvcc.begin()?;
    t.set(&mut mvcc, b"key", vec![0x01])?;
    t.commit(&mut mvcc)?;

    let ro = mvcc.begin_with_mode(Mode::ReadOnly)?;
    assert!(!ro.mode().mutable());
    assert_eq!(Err(Error::ReadOnly), ro.set(&mut mvcc, b"key", vec![0x02]));
    assert_eq!(Err(Error::ReadOnly), ro.delete(&mut mvcc, b"key"));
    assert_eq!(Some(vec![0x01]), ro.get(&mvcc, b"key")?);
    ro.commit(&mut mvcc)?;

    let snap = mvcc.begin_with_mode(Mode::Snapshot { version: 1 })?;
    assert!(!snap.mode().mutable());
    assert_eq!(Err(Error::ReadOnly), snap.set(&mut mvcc, b"key", vec![0x02]));
    assert_eq!(Err(Error::ReadOnly), snap.delete(&mut mvcc, b"key"));
    snap.commit(&mut mvcc)?;

    Ok(())
}

#[test]
fn test_mode_satisfies() {
    assert!(Mode::ReadWrite.satisfies(&Mode::ReadOnly));
    assert!(Mode::ReadWrite.satisfies(&Mode::ReadWrite));
    assert!(Mode::ReadOnly.satisfies(&Mode::ReadOnly));
    assert!(Mode::Snapshot { version: 3 }.satisfies(&Mode::ReadOnly));
    assert!(Mode::Snapshot { version: 3 }.satisfies(&Mode::Snapshot { version: 3 }));
    assert!(!Mode::ReadOnly.satisfies(&Mode::ReadWrite));
    assert!(!Mode::ReadOnly.satisfies(&Mode::Snapshot { version: 3 }));
    assert!(!Mode::Snapshot { version: 3 }.satisfies(&Mode::Snapshot { version: 4 }));
    assert!(!Mode::Snapshot { version: 3 }.satisfies(&Mode::ReadWrite));

    assert!(Mode::ReadWrite.mutable());
    assert!(!Mode::ReadOnly.mutable());
    assert!(!Mode::Snapshot { version: 3 }.mutable());
}

#[test]
// Scans on an empty or all-0xff prefix are refused.
fn test_txn_scan_prefix_invalid() -> Result<(), Error> {
    let mut mvcc = setup();
    let txn = mvcc.begin()?;
    assert_eq!(
        Some(Error::Value("Scan prefix cannot be empty".into())),
        txn.scan_prefix(b"").err()
    );
    assert_eq!(
        Some(Error::Value("Invalid prefix scan range".into())),
        txn.scan_prefix(&[0xff]).err()
    );
    assert_eq!(
        Some(Error::Value("Invalid prefix scan range".into())),
        txn.scan_prefix(&[0xff, 0xff]).err()
    );
    // a prefix ending in 0xff is fine as long as some byte can carry
    txn.set(&mut mvcc, &[0x01, 0xff], vec![0x07])?;
    txn.commit(&mut mvcc)?;
    let txn = mvcc.begin()?;
    let mut scan = txn.scan_prefix(&[0x01, 0xff])?;
    assert_eq!(Some((vec![0x01, 0xff], vec![0x07])), scan.next(&mvcc)?);
    assert_eq!(None, scan.next(&mvcc)?);
    Ok(())
}

#[test]
// Bounded range scans honour included and excluded endpoints.
fn test_txn_scan_bounded() -> Result<(), Error> {
    let mut mvcc = setup();
    let txn = mvcc.begin()?;
    txn.set(&mut mvcc, b"a", vec![1])?;
    txn.set(&mut mvcc, b"b", vec![2])?;
    txn.set(&mut mvcc, b"c", vec![3])?;
    txn.set(&mut mvcc, b"d", vec![4])?;
    txn.commit(&mut mvcc)?;

    let txn = mvcc.begin()?;
    let mut scan = txn.scan(Bound::Included(b"b".to_vec()), Bound::Excluded(b"d".to_vec()))?;
    assert_eq!(
        vec![(b"b".to_vec(), vec![2]), (b"c".to_vec(), vec![3])],
        collect_fwd(&mvcc, &mut scan)?
    );

    let mut scan = txn.scan(Bound::Excluded(b"a".to_vec()), Bound::Included(b"c".to_vec()))?;
    assert_eq!(
        vec![(b"b".to_vec(), vec![2]), (b"c".to_vec(), vec![3])],
        collect_fwd(&mvcc, &mut scan)?
    );
    Ok(())
}
