use mvcc::error::Error;
use mvcc::keycode::{Key, KeyPrefix};
use mvcc::memory::{Bound, Memory};
use mvcc::mvcc::MVCC;
use mvcc::scan::Scan;

fn setup() -> MVCC {
    MVCC::new(Memory::new())
}

fn reversed(scan: &Scan) -> Result<Vec<(Vec<u8>, Vec<u8>)>, Error> {
    let mut iter = scan.iter();
    let mut out = Vec::new();
    while let Some(item) = iter.next_back() {
        out.push(item?);
    }
    Ok(out)
}

#[test]
/// Tests that key prefixes are actually prefixes of keys.
fn test_key_prefix() -> Result<(), Error> {
    let cases = vec![
        (KeyPrefix::NextVersion, Key::NextVersion),
        (KeyPrefix::TxnActive, Key::TxnActive(1)),
        (KeyPrefix::TxnActiveSnapshot, Key::TxnActiveSnapshot(1)),
        (KeyPrefix::TxnWrite(1), Key::TxnWrite(1, b"foo".to_vec())),
        (KeyPrefix::Version(b"foo".to_vec()), Key::Version(b"foo".to_vec(), 1)),
        (KeyPrefix::Unversioned, Key::Unversioned(b"foo".to_vec())),
    ];

    for (prefix, key) in cases {
        let prefix = prefix.encode();
        let key = key.encode();
        assert_eq!(prefix, key[..prefix.len()])
    }
    Ok(())
}

#[test]
fn test_begin() -> Result<(), Error> {
    let mut mvcc = setup();

    let txn = mvcc.begin()?;
    assert_eq!(1, txn.version());
    assert!(!txn.read_only());
    txn.commit(&mut mvcc)?;

    let txn = mvcc.begin()?;
    assert_eq!(2, txn.version());
    txn.rollback(&mut mvcc)?;

    let txn = mvcc.begin()?;
    assert_eq!(3, txn.version());
    txn.commit(&mut mvcc)?;

    Ok(())
}

#[test]
fn test_begin_read_only() -> Result<(), Error> {
    let mut mvcc = setup();
    let txn = mvcc.begin_read_only()?;
    assert_eq!(txn.version(), 1);
    assert!(txn.read_only());
    txn.commit(&mut mvcc)?;
    Ok(())
}

#[test]
fn test_begin_as_of() -> Result<(), Error> {
    let mut mvcc = setup();

    // Start a concurrent transaction that should be invisible.
    let mut t1 = mvcc.begin()?;
    t1.set(&mut mvcc, b"other", vec![1])?;

    // Write a couple of versions for a key. Commit the concurrent one in between.
    let mut t2 = mvcc.begin()?;
    t2.set(&mut mvcc, b"key", vec![2])?;
    t2.commit(&mut mvcc)?;

    let mut t3 = mvcc.begin()?;
    t3.set(&mut mvcc, b"key", vec![3])?;
    t3.commit(&mut mvcc)?;

    t1.commit(&mut mvcc)?;

    let mut t4 = mvcc.begin()?;
    t4.set(&mut mvcc, b"key", vec![4])?;
    t4.commit(&mut mvcc)?;

    // Check that we can start a snapshot as of version 3. It should see
    // key=2 and other=None (because it hadn't committed yet).
    let txn = mvcc.begin_as_of(3)?;
    assert_eq!(txn.version(), 3);
    assert!(txn.read_only());
    assert_eq!(txn.get(&mvcc, b"key")?, Some(vec![2]));
    assert_eq!(txn.get(&mvcc, b"other")?, None);
    txn.commit(&mut mvcc)?;

    // A snapshot as of version 4 should see key=3 and Other=2.
    let txn = mvcc.begin_as_of(4)?;
    assert_eq!(txn.version(), 4);
    assert!(txn.read_only());
    assert_eq!(txn.get(&mvcc, b"key")?, Some(vec![3]));
    assert_eq!(txn.get(&mvcc, b"other")?, Some(vec![1]));
    txn.commit(&mut mvcc)?;

    // Check that any future versions are invalid.
    assert_eq!(mvcc.begin_as_of(9).err(), Some(Error::Value("Version 9 does not exist".into())));

    Ok(())
}

#[test]
fn test_resume() -> Result<(), Error> {
    let mut mvcc = setup();

    // We first write a set of values that should be visible
    let mut t1 = mvcc.begin()?;
    t1.set(&mut mvcc, b"a", b"t1".to_vec())?;
    t1.set(&mut mvcc, b"b", b"t1".to_vec())?;
    t1.commit(&mut mvcc)?;

    // We then start three transactions, of which we will resume t3.
    // We commit t2 and t4's changes, which should not be visible,
    // and write a change for t3 which should be visible.
    let mut t2 = mvcc.begin()?;
    let mut t3 = mvcc.begin()?;
    let mut t4 = mvcc.begin()?;

    t2.set(&mut mvcc, b"a", b"t2".to_vec())?;
    t3.set(&mut mvcc, b"b", b"t3".to_vec())?;
    t4.set(&mut mvcc, b"c", b"t4".to_vec())?;

    t2.commit(&mut mvcc)?;
    t4.commit(&mut mvcc)?;

    // We now resume t3, who should see it's own changes but none
    // of the others'
    let state = t3.state().clone();
    std::mem::drop(t3);
    let tr = mvcc.resume(state.clone())?;
    assert_eq!(3, tr.version());
    assert!(!tr.read_only());

    assert_eq!(Some(b"t1".to_vec()), tr.get(&mvcc, b"a")?);
    assert_eq!(Some(b"t3".to_vec()), tr.get(&mvcc, b"b")?);
    assert_eq!(None, tr.get(&mvcc, b"c")?);

    // A separate transaction should not see t3's changes, but should see the others
    let t = mvcc.begin()?;
    assert_eq!(Some(b"t2".to_vec()), t.get(&mvcc, b"a")?);
    assert_eq!(Some(b"t1".to_vec()), t.get(&mvcc, b"b")?);
    assert_eq!(Some(b"t4".to_vec()), t.get(&mvcc, b"c")?);
    t.rollback(&mut mvcc)?;

    // Once tr commits, a separate transaction should see t3's changes
    tr.commit(&mut mvcc)?;

    // Resuming an inactive transaction should error.
    assert_eq!(
        mvcc.resume(state).err(),
        Some(Error::Internal("No active transaction at version 3".into()))
    );

    let t = mvcc.begin()?;
    assert_eq!(Some(b"t2".to_vec()), t.get(&mvcc, b"a")?);
    assert_eq!(Some(b"t3".to_vec()), t.get(&mvcc, b"b")?);
    assert_eq!(Some(b"t4".to_vec()), t.get(&mvcc, b"c")?);
    t.rollback(&mut mvcc)?;

    // It should also be possible to start a snapshot transaction and resume it.
    let ts = mvcc.begin_as_of(2)?;
    assert_eq!(2, ts.version());
    assert_eq!(Some(b"t1".to_vec()), ts.get(&mvcc, b"a")?);

    let state = ts.state().clone();
    std::mem::drop(ts);
    let ts = mvcc.resume(state)?;
    assert_eq!(2, ts.version());
    assert!(ts.read_only());
    assert_eq!(Some(b"t1".to_vec()), ts.get(&mvcc, b"a")?);
    ts.commit(&mut mvcc)?;

    Ok(())
}

#[test]
fn test_txn_delete_conflict() -> Result<(), Error> {
    let mut mvcc = setup();

    let mut txn = mvcc.begin()?;
    txn.set(&mut mvcc, b"key", vec![0x00])?;
    txn.commit(&mut mvcc)?;

    let mut t1 = mvcc.begin()?;
    let mut t2 = mvcc.begin()?;
    let mut t3 = mvcc.begin()?;

    t2.delete(&mut mvcc, b"key")?;
    assert_eq!(Err(Error::Serialization), t1.delete(&mut mvcc, b"key"));
    assert_eq!(Err(Error::Serialization), t3.delete(&mut mvcc, b"key"));
    t2.commit(&mut mvcc)?;

    Ok(())
}

#[test]
fn test_txn_delete_idempotent() -> Result<(), Error> {
    let mut mvcc = setup();

    let mut txn = mvcc.begin()?;
    txn.delete(&mut mvcc, b"key")?;
    txn.commit(&mut mvcc)?;

    Ok(())
}

#[test]
fn test_txn_get() -> Result<(), Error> {
    let mut mvcc = setup();

    let mut txn = mvcc.begin()?;
    assert_eq!(None, txn.get(&mvcc, b"a")?);
    txn.set(&mut mvcc, b"a", vec![0x01])?;
    assert_eq!(Some(vec![0x01]), txn.get(&mvcc, b"a")?);
    txn.set(&mut mvcc, b"a", vec![0x02])?;
    assert_eq!(Some(vec![0x02]), txn.get(&mvcc, b"a")?);
    txn.commit(&mut mvcc)?;

    Ok(())
}

#[test]
fn test_txn_get_deleted() -> Result<(), Error> {
    let mut mvcc = setup();
    let mut txn = mvcc.begin()?;
    txn.set(&mut mvcc, b"a", vec![0x01])?;
    txn.commit(&mut mvcc)?;

    let mut txn = mvcc.begin()?;
    txn.delete(&mut mvcc, b"a")?;
    txn.commit(&mut mvcc)?;

    let txn = mvcc.begin()?;
    assert_eq!(None, txn.get(&mvcc, b"a")?);
    txn.commit(&mut mvcc)?;

    Ok(())
}

#[test]
fn test_txn_get_hides_newer() -> Result<(), Error> {
    let mut mvcc = setup();

    let mut t1 = mvcc.begin()?;
    let t2 = mvcc.begin()?;
    let mut t3 = mvcc.begin()?;

    t1.set(&mut mvcc, b"a", vec![0x01])?;
    t1.commit(&mut mvcc)?;
    t3.set(&mut mvcc, b"c", vec![0x03])?;
    t3.commit(&mut mvcc)?;

    assert_eq!(None, t2.get(&mvcc, b"a")?);
    assert_eq!(None, t2.get(&mvcc, b"c")?);

    Ok(())
}

#[test]
fn test_txn_get_hides_uncommitted() -> Result<(), Error> {
    let mut mvcc = setup();

    let mut t1 = mvcc.begin()?;
    t1.set(&mut mvcc, b"a", vec![0x01])?;
    let t2 = mvcc.begin()?;
    let mut t3 = mvcc.begin()?;
    t3.set(&mut mvcc, b"c", vec![0x03])?;

    assert_eq!(None, t2.get(&mvcc, b"a")?);
    assert_eq!(None, t2.get(&mvcc, b"c")?);

    Ok(())
}

#[test]
fn test_txn_get_readonly_historical() -> Result<(), Error> {
    let mut mvcc = setup();

    let mut txn = mvcc.begin()?;
    txn.set(&mut mvcc, b"a", vec![0x01])?;
    txn.commit(&mut mvcc)?;

    let mut txn = mvcc.begin()?;
    txn.set(&mut mvcc, b"b", vec![0x02])?;
    txn.commit(&mut mvcc)?;

    let mut txn = mvcc.begin()?;
    txn.set(&mut mvcc, b"c", vec![0x03])?;
    txn.commit(&mut mvcc)?;

    let tr = mvcc.begin_as_of(3)?;
    assert_eq!(Some(vec![0x01]), tr.get(&mvcc, b"a")?);
    assert_eq!(Some(vec![0x02]), tr.get(&mvcc, b"b")?);
    assert_eq!(None, tr.get(&mvcc, b"c")?);

    Ok(())
}

#[test]
fn test_txn_get_serial() -> Result<(), Error> {
    let mut mvcc = setup();

    let mut txn = mvcc.begin()?;
    txn.set(&mut mvcc, b"a", vec![0x01])?;
    txn.commit(&mut mvcc)?;

    let txn = mvcc.begin()?;
    assert_eq!(Some(vec![0x01]), txn.get(&mvcc, b"a")?);

    Ok(())
}

#[test]
fn test_txn_scan() -> Result<(), Error> {
    let mut mvcc = setup();

    let mut txn = mvcc.begin()?;
    txn.set(&mut mvcc, b"a", vec![0x01])?;
    txn.delete(&mut mvcc, b"b")?;
    txn.set(&mut mvcc, b"c", vec![0x01])?;
    txn.set(&mut mvcc, b"d", vec![0x01])?;
    txn.set(&mut mvcc, b"e", vec![0x01])?;
    txn.commit(&mut mvcc)?;

    let mut txn = mvcc.begin()?;
    txn.set(&mut mvcc, b"c", vec![0x02])?;
    txn.set(&mut mvcc, b"d", vec![0x02])?;
    txn.set(&mut mvcc, b"e", vec![0x02])?;
    txn.commit(&mut mvcc)?;

    let mut txn = mvcc.begin()?;
    txn.delete(&mut mvcc, b"c")?;
    txn.set(&mut mvcc, b"d", vec![0x03])?;
    txn.set(&mut mvcc, b"e", vec![0x03])?;
    txn.commit(&mut mvcc)?;

    let mut txn = mvcc.begin()?;
    txn.set(&mut mvcc, b"c", vec![0x04])?;
    txn.set(&mut mvcc, b"d", vec![0x04])?;
    txn.delete(&mut mvcc, b"e")?;
    txn.commit(&mut mvcc)?;

    let mut txn = mvcc.begin()?;
    txn.delete(&mut mvcc, b"d")?;
    txn.set(&mut mvcc, b"e", vec![0x05])?;
    txn.commit(&mut mvcc)?;

    // Forward scan
    let txn = mvcc.begin()?;
    assert_eq!(
        vec![
            (b"a".to_vec(), vec![0x01]),
            (b"c".to_vec(), vec![0x04]),
            (b"e".to_vec(), vec![0x05]),
        ],
        txn.scan(&mvcc, Bound::Unbounded, Bound::Unbounded)?.to_vec()?
    );

    // Reverse scan
    assert_eq!(
        vec![
            (b"e".to_vec(), vec![0x05]),
            (b"c".to_vec(), vec![0x04]),
            (b"a".to_vec(), vec![0x01]),
        ],
        reversed(&txn.scan(&mvcc, Bound::Unbounded, Bound::Unbounded)?)?
    );

    // Alternate forward/backward scan
    let scan = txn.scan(&mvcc, Bound::Unbounded, Bound::Unbounded)?;
    let mut iter = scan.iter();
    assert_eq!(Some((b"a".to_vec(), vec![0x01])), iter.next().transpose()?);
    assert_eq!(Some((b"e".to_vec(), vec![0x05])), iter.next_back().transpose()?);
    assert_eq!(Some((b"c".to_vec(), vec![0x04])), iter.next_back().transpose()?);
    assert_eq!(None, iter.next().transpose()?);
    drop(scan);

    txn.commit(&mut mvcc)?;
    Ok(())
}

#[test]
fn test_txn_scan_key_version_overlap() -> Result<(), Error> {
    // The idea here is that with a naive key/version concatenation
    // we get overlapping entries that mess up scans. For example:
    //
    // 00|00 00 00 00 00 00 00 01
    // 00 00 00 00 00 00 00 00 02|00 00 00 00 00 00 00 02
    // 00|00 00 00 00 00 00 00 03
    //
    // The key encoding should be resistant to this.
    let mut mvcc = setup();

    let mut txn = mvcc.begin()?;
    txn.set(&mut mvcc, &[0], vec![0])?; // v0
    txn.set(&mut mvcc, &[0], vec![1])?; // v1
    txn.set(&mut mvcc, &[0, 0, 0, 0, 0, 0, 0, 0, 2], vec![2])?; // v2
    txn.set(&mut mvcc, &[0], vec![3])?; // v3
    txn.commit(&mut mvcc)?;

    let txn = mvcc.begin()?;
    assert_eq!(
        vec![(vec![0].to_vec(), vec![3]), (vec![0, 0, 0, 0, 0, 0, 0, 0, 2].to_vec(), vec![2]),],
        txn.scan(&mvcc, Bound::Unbounded, Bound::Unbounded)?.to_vec()?,
    );
    Ok(())
}

#[test]
fn test_txn_scan_prefix() -> Result<(), Error> {
    let mut mvcc = setup();
    let mut txn = mvcc.begin()?;

    txn.set(&mut mvcc, b"a", vec![0x01])?;
    txn.set(&mut mvcc, b"az", vec![0x01, 0x1a])?;
    txn.set(&mut mvcc, b"b", vec![0x02])?;
    txn.set(&mut mvcc, b"ba", vec![0x02, 0x01])?;
    txn.set(&mut mvcc, b"bb", vec![0x02, 0x02])?;
    txn.set(&mut mvcc, b"bc", vec![0x02, 0x03])?;
    txn.set(&mut mvcc, b"c", vec![0x03])?;
    txn.commit(&mut mvcc)?;

    // Forward scan
    let txn = mvcc.begin()?;
    assert_eq!(
        vec![
            (b"b".to_vec(), vec![0x02]),
            (b"ba".to_vec(), vec![0x02, 0x01]),
            (b"bb".to_vec(), vec![0x02, 0x02]),
            (b"bc".to_vec(), vec![0x02, 0x03]),
        ],
        txn.scan_prefix(&mvcc, b"b")?.to_vec()?,
    );

    // Reverse scan
    assert_eq!(
        vec![
            (b"bc".to_vec(), vec![0x02, 0x03]),
            (b"bb".to_vec(), vec![0x02, 0x02]),
            (b"ba".to_vec(), vec![0x02, 0x01]),
            (b"b".to_vec(), vec![0x02]),
        ],
        reversed(&txn.scan_prefix(&mvcc, b"b")?)?
    );

    // Alternate forward/backward scan
    let scan = txn.scan_prefix(&mvcc, b"b")?;
    let mut iter = scan.iter();
    assert_eq!(Some((b"b".to_vec(), vec![0x02])), iter.next().transpose()?);
    assert_eq!(Some((b"bc".to_vec(), vec![0x02, 0x03])), iter.next_back().transpose()?);
    assert_eq!(Some((b"bb".to_vec(), vec![0x02, 0x02])), iter.next_back().transpose()?);
    assert_eq!(Some((b"ba".to_vec(), vec![0x02, 0x01])), iter.next().transpose()?);
    assert_eq!(None, iter.next().transpose()?);
    drop(scan);

    txn.commit(&mut mvcc)?;
    Ok(())
}

#[test]
fn test_txn_set_conflict() -> Result<(), Error> {
    let mut mvcc = setup();

    let mut t1 = mvcc.begin()?;
    let mut t2 = mvcc.begin()?;
    let mut t3 = mvcc.begin()?;

    t2.set(&mut mvcc, b"key", vec![0x02])?;
    assert_eq!(Err(Error::Serialization), t1.set(&mut mvcc, b"key", vec![0x01]));
    assert_eq!(Err(Error::Serialization), t3.set(&mut mvcc, b"key", vec![0x03]));
    t2.commit(&mut mvcc)?;

    Ok(())
}

#[test]
fn test_txn_set_conflict_committed() -> Result<(), Error> {
    let mut mvcc = setup();

    let mut t1 = mvcc.begin()?;
    let mut t2 = mvcc.begin()?;
    let mut t3 = mvcc.begin()?;

    t2.set(&mut mvcc, b"key", vec![0x02])?;
    t2.commit(&mut mvcc)?;
    assert_eq!(Err(Error::Serialization), t1.set(&mut mvcc, b"key", vec![0x01]));
    assert_eq!(Err(Error::Serialization), t3.set(&mut mvcc, b"key", vec![0x03]));

    Ok(())
}

#[test]
fn test_txn_set_rollback() -> Result<(), Error> {
    let mut mvcc = setup();

    let mut txn = mvcc.begin()?;
    txn.set(&mut mvcc, b"key", vec![0x00])?;
    txn.commit(&mut mvcc)?;

    let t1 = mvcc.begin()?;
    let mut t2 = mvcc.begin()?;
    let mut t3 = mvcc.begin()?;

    t2.set(&mut mvcc, b"key", vec![0x02])?;
    t2.rollback(&mut mvcc)?;
    assert_eq!(Some(vec![0x00]), t1.get(&mvcc, b"key")?);
    t1.commit(&mut mvcc)?;
    t3.set(&mut mvcc, b"key", vec![0x03])?;
    t3.commit(&mut mvcc)?;

    Ok(())
}

#[test]
// A dirty write is when t2 overwrites an uncommitted value written by t1.
fn test_txn_anomaly_dirty_write() -> Result<(), Error> {
    let mut mvcc = setup();

    let mut t1 = mvcc.begin()?;
    let mut t2 = mvcc.begin()?;

    t1.set(&mut mvcc, b"key", b"t1".to_vec())?;
    assert_eq!(t2.set(&mut mvcc, b"key", b"t2".to_vec()), Err(Error::Serialization));

    Ok(())
}

#[test]
// A dirty read is when t2 can read an uncommitted value set by t1.
fn test_txn_anomaly_dirty_read() -> Result<(), Error> {
    let mut mvcc = setup();

    let mut t1 = mvcc.begin()?;
    let t2 = mvcc.begin()?;

    t1.set(&mut mvcc, b"key", b"t1".to_vec())?;
    assert_eq!(None, t2.get(&mvcc, b"key")?);

    Ok(())
}

#[test]
// A lost update is when t1 and t2 both read a value and update it, where t2's update replaces t1.
fn test_txn_anomaly_lost_update() -> Result<(), Error> {
    let mut mvcc = setup();

    let mut t0 = mvcc.begin()?;
    t0.set(&mut mvcc, b"key", b"t0".to_vec())?;
    t0.commit(&mut mvcc)?;

    let mut t1 = mvcc.begin()?;
    let mut t2 = mvcc.begin()?;

    t1.get(&mvcc, b"key")?;
    t2.get(&mvcc, b"key")?;

    t1.set(&mut mvcc, b"key", b"t1".to_vec())?;
    assert_eq!(t2.set(&mut mvcc, b"key", b"t2".to_vec()), Err(Error::Serialization));

    Ok(())
}

#[test]
// A fuzzy (or unrepeatable) read is when t2 sees a value change after t1 updates it.
fn test_txn_anomaly_fuzzy_read() -> Result<(), Error> {
    let mut mvcc = setup();

    let mut t0 = mvcc.begin()?;
    t0.set(&mut mvcc, b"key", b"t0".to_vec())?;
    t0.commit(&mut mvcc)?;

    let mut t1 = mvcc.begin()?;
    let t2 = mvcc.begin()?;

    assert_eq!(Some(b"t0".to_vec()), t2.get(&mvcc, b"key")?);
    t1.set(&mut mvcc, b"key", b"t1".to_vec())?;
    t1.commit(&mut mvcc)?;
    assert_eq!(Some(b"t0".to_vec()), t2.get(&mvcc, b"key")?);

    Ok(())
}

#[test]
// Read skew is when t1 reads a and b, but t2 modifies b in between the reads.
fn test_txn_anomaly_read_skew() -> Result<(), Error> {
    let mut mvcc = setup();

    let mut t0 = mvcc.begin()?;
    t0.set(&mut mvcc, b"a", b"t0".to_vec())?;
    t0.set(&mut mvcc, b"b", b"t0".to_vec())?;
    t0.commit(&mut mvcc)?;

    let t1 = mvcc.begin()?;
    let mut t2 = mvcc.begin()?;

    assert_eq!(Some(b"t0".to_vec()), t1.get(&mvcc, b"a")?);
    t2.set(&mut mvcc, b"a", b"t2".to_vec())?;
    t2.set(&mut mvcc, b"b", b"t2".to_vec())?;
    t2.commit(&mut mvcc)?;
    assert_eq!(Some(b"t0".to_vec()), t1.get(&mvcc, b"b")?);

    Ok(())
}

#[test]
// A phantom read is when t1 reads entries matching some predicate, but a modification by
// t2 changes the entries that match the predicate such that a later read by t1 returns them.
fn test_txn_anomaly_phantom_read() -> Result<(), Error> {
    let mut mvcc = setup();

    let mut t0 = mvcc.begin()?;
    t0.set(&mut mvcc, b"a", b"true".to_vec())?;
    t0.set(&mut mvcc, b"b", b"false".to_vec())?;
    t0.commit(&mut mvcc)?;

    let t1 = mvcc.begin()?;
    let mut t2 = mvcc.begin()?;

    assert_eq!(Some(b"true".to_vec()), t1.get(&mvcc, b"a")?);
    assert_eq!(Some(b"false".to_vec()), t1.get(&mvcc, b"b")?);

    t2.set(&mut mvcc, b"b", b"true".to_vec())?;
    t2.commit(&mut mvcc)?;

    assert_eq!(Some(b"true".to_vec()), t1.get(&mvcc, b"a")?);
    assert_eq!(Some(b"false".to_vec()), t1.get(&mvcc, b"b")?);

    Ok(())
}

#[test]
/// Tests unversioned key/value pairs, via set/get_unversioned().
fn test_unversioned() -> Result<(), Error> {
    let mut m = setup();

    // Unversioned keys should not interact with versioned keys.
    let mut txn = m.begin()?;
    txn.set(&mut m, b"foo", b"bar".to_vec())?;
    txn.commit(&mut m)?;

    // The unversioned key should return None.
    assert_eq!(m.get_unversioned(b"foo")?, None);

    // Setting and then fetching the unversioned key should return its value.
    m.set_unversioned(b"foo", b"bar".to_vec())?;
    assert_eq!(m.get_unversioned(b"foo")?, Some(b"bar".to_vec()));

    // Replacing it should return the new value.
    m.set_unversioned(b"foo", b"baz".to_vec())?;
    assert_eq!(m.get_unversioned(b"foo")?, Some(b"baz".to_vec()));

    // The versioned key should remain unaffected.
    let txn = m.begin_read_only()?;
    assert_eq!(txn.get(&m, b"foo")?, Some(b"bar".to_vec()));

    Ok(())
}
