use mvcc::encoding::{
    decode_u64, decode_value, decode_versions, encode_u64, encode_value, encode_versions,
};
use mvcc::error::Error;
use mvcc::keycode::{Key, KeyPrefix};
use mvcc::memory::{Bound, Memory};
use mvcc::mvcc::{TransactionState, MVCC};
use mvcc::order::compare_bytes;

fn setup() -> MVCC {
    MVCC::new(Memory::new())
}

#[test]
fn key_encodings_are_exact() {
    assert_eq!(Key::NextVersion.encode(), vec![0x00]);
    assert_eq!(Key::TxnActive(1).encode(), vec![0x01, 0, 0, 0, 0, 0, 0, 0, 1]);
    assert_eq!(Key::TxnActiveSnapshot(258).encode(), vec![0x02, 0, 0, 0, 0, 0, 0, 1, 2]);
    assert_eq!(
        Key::TxnWrite(1, vec![0x61, 0x00]).encode(),
        vec![0x03, 0, 0, 0, 0, 0, 0, 0, 1, 0x61, 0x00, 0xff, 0x00, 0x00]
    );
    assert_eq!(
        Key::Version(vec![0x00], 7).encode(),
        vec![0x04, 0x00, 0xff, 0x00, 0x00, 0, 0, 0, 0, 0, 0, 0, 7]
    );
    assert_eq!(Key::Unversioned(vec![]).encode(), vec![0x05, 0x00, 0x00]);
    assert_eq!(KeyPrefix::TxnWrite(2).encode(), vec![0x03, 0, 0, 0, 0, 0, 0, 0, 2]);
    assert_eq!(KeyPrefix::Unversioned.encode(), vec![0x05]);
}

#[test]
fn key_decoding_inverts_encoding() {
    let keys = vec![
        Key::NextVersion,
        Key::TxnActive(u64::MAX),
        Key::TxnActiveSnapshot(0),
        Key::TxnWrite(3, vec![0, 0, 1, 0xff]),
        Key::Version(vec![], 9),
        Key::Version(vec![0, 1, 0], 1),
        Key::Unversioned(b"foo".to_vec()),
    ];
    for key in keys {
        let bytes = key.encode();
        let back = Key::decode(&bytes).unwrap();
        assert_eq!(back.encode(), bytes);
    }
}

#[test]
fn key_decoding_rejects_malformed_bytes() {
    for bytes in [
        vec![],
        vec![0x00, 0x00],
        vec![0x01, 0, 0],
        vec![0x04, 0x61],
        vec![0x04, 0x00, 0x01],
        vec![0x05, 0x61, 0x00, 0x00, 0x01],
        vec![0x06],
    ] {
        assert!(matches!(Key::decode(&bytes), Err(Error::Internal(_))));
    }
}

#[test]
fn family_prefixes_are_prefixes_of_keys() {
    for key in [vec![], vec![0], vec![0, 0xff], b"zz".to_vec()] {
        let cases = vec![
            (KeyPrefix::TxnWrite(5), Key::TxnWrite(5, key.clone())),
            (KeyPrefix::Version(key.clone()), Key::Version(key.clone(), u64::MAX)),
            (KeyPrefix::Unversioned, Key::Unversioned(key.clone())),
        ];
        for (prefix, full) in cases {
            let p = prefix.encode();
            let k = full.encode();
            assert!(k.starts_with(&p));
        }
    }
}

#[test]
fn version_keys_order_by_user_key_then_version() {
    let a = Key::Version(vec![0], u64::MAX).encode();
    let b = Key::Version(vec![0, 0], 0).encode();
    let c = Key::Version(vec![1], 0).encode();
    assert!(compare_bytes(&a, &b) < 0);
    assert!(compare_bytes(&b, &c) < 0);
    let v1 = Key::Version(b"k".to_vec(), 255).encode();
    let v2 = Key::Version(b"k".to_vec(), 256).encode();
    assert!(compare_bytes(&v1, &v2) < 0);
    assert_eq!(compare_bytes(&v1, &v1), 0);
    assert!(compare_bytes(&v2, &v1) > 0);
}

#[test]
fn memory_engine_sets_gets_and_deletes() {
    let mut m = Memory::new();
    assert_eq!(m.get(b"a"), None);
    m.set(b"b", vec![2]);
    m.set(b"a", vec![1]);
    m.set(b"b", vec![3]);
    assert_eq!(m.len(), 2);
    assert_eq!(m.get(b"b"), Some(vec![3]));
    assert_eq!(m.key_at(0), &b"a".to_vec());
    m.delete(b"a");
    m.delete(b"x");
    assert_eq!(m.get(b"a"), None);
    assert_eq!(m.len(), 1);
    assert_eq!(m.description(), "memory".to_string());
}

#[test]
fn memory_engine_ranges_and_prefixes() {
    let mut m = Memory::new();
    for k in [b"a".to_vec(), b"ab".to_vec(), b"b".to_vec(), b"c".to_vec()] {
        m.set(&k, vec![]);
    }
    let r = m.range_positions(&Bound::Excluded(b"a".to_vec()), &Bound::Included(b"b".to_vec()));
    assert_eq!(r, (1, 3));
    let r = m.range_positions(&Bound::Included(b"c".to_vec()), &Bound::Excluded(b"a".to_vec()));
    assert_eq!(r.0, r.1);
    assert_eq!(m.prefix_positions(b"a"), (0, 2));
    assert_eq!(m.prefix_positions(b"d"), (4, 4));
}

#[test]
fn stored_values_use_bincode_layout() {
    assert_eq!(encode_u64(258).unwrap(), vec![2, 1, 0, 0, 0, 0, 0, 0]);
    assert_eq!(decode_u64(&[2, 1, 0, 0, 0, 0, 0, 0, 9]).unwrap(), 258);
    assert!(matches!(decode_u64(&[1, 2, 3]), Err(Error::Internal(_))));

    assert_eq!(encode_value(&None).unwrap(), vec![0]);
    assert_eq!(encode_value(&Some(vec![7, 8])).unwrap(), vec![1, 2, 0, 0, 0, 0, 0, 0, 0, 7, 8]);
    assert_eq!(decode_value(&[1, 2, 0, 0, 0, 0, 0, 0, 0, 7, 8]).unwrap(), Some(vec![7, 8]));
    assert_eq!(decode_value(&[0]).unwrap(), None);
    assert!(matches!(decode_value(&[2]), Err(Error::Internal(_))));
    assert!(matches!(decode_value(&[1, 5, 0, 0, 0, 0, 0, 0, 0, 1]), Err(Error::Internal(_))));

    let bytes = encode_versions(&vec![2, 3]).unwrap();
    assert_eq!(bytes, vec![2, 0, 0, 0, 0, 0, 0, 0, 2, 0, 0, 0, 0, 0, 0, 0, 3, 0, 0, 0, 0, 0, 0, 0]);
    assert_eq!(decode_versions(&bytes).unwrap(), vec![2, 3]);
    assert!(matches!(decode_versions(&[1, 0, 0, 0, 0, 0, 0, 0]), Err(Error::Internal(_))));
}

#[test]
fn visibility_predicate() {
    let rw = TransactionState { version: 5, read_only: false, active: vec![3] };
    assert!(rw.is_visible(5));
    assert!(rw.is_visible(4));
    assert!(!rw.is_visible(3));
    assert!(!rw.is_visible(6));
    let ro = TransactionState { version: 5, read_only: true, active: vec![3] };
    assert!(!ro.is_visible(5));
    assert!(ro.is_visible(4));
    assert!(!ro.is_visible(3));
}

#[test]
fn read_only_transactions_refuse_writes() -> Result<(), Error> {
    let mut mvcc = setup();
    let mut ro = mvcc.begin_read_only()?;
    assert_eq!(ro.set(&mut mvcc, b"a", vec![1]), Err(Error::ReadOnly));
    assert_eq!(ro.delete(&mut mvcc, b"a"), Err(Error::ReadOnly));
    let mut t = mvcc.begin()?;
    t.commit(&mut mvcc)?;
    let mut asof = mvcc.begin_as_of(1)?;
    assert_eq!(asof.set(&mut mvcc, b"a", vec![1]), Err(Error::ReadOnly));
    Ok(())
}

#[test]
fn read_only_transactions_do_not_take_a_version() -> Result<(), Error> {
    let mut mvcc = setup();
    let r1 = mvcc.begin_read_only()?;
    let r2 = mvcc.begin_read_only()?;
    assert_eq!(r1.version(), 1);
    assert_eq!(r2.version(), 1);
    let t = mvcc.begin()?;
    assert_eq!(t.version(), 1);
    Ok(())
}

#[test]
fn as_of_the_next_version_is_refused() -> Result<(), Error> {
    let mut mvcc = setup();
    assert_eq!(mvcc.begin_as_of(1).err(), Some(Error::Value("Version 1 does not exist".into())));
    let t = mvcc.begin()?;
    t.commit(&mut mvcc)?;
    assert!(mvcc.begin_as_of(1).is_ok());
    assert_eq!(mvcc.begin_as_of(2).err(), Some(Error::Value("Version 2 does not exist".into())));
    Ok(())
}

#[test]
fn committed_writes_are_seen_and_tombstones_hide() -> Result<(), Error> {
    let mut mvcc = setup();
    let mut t = mvcc.begin()?;
    t.set(&mut mvcc, b"x", vec![1])?;
    t.set(&mut mvcc, b"y", vec![2])?;
    t.commit(&mut mvcc)?;
    let mut t = mvcc.begin()?;
    t.set(&mut mvcc, b"x", vec![3])?;
    t.delete(&mut mvcc, b"y")?;
    t.commit(&mut mvcc)?;
    let later = mvcc.begin_read_only()?;
    assert_eq!(later.get(&mvcc, b"x")?, Some(vec![3]));
    assert_eq!(later.get(&mvcc, b"y")?, None);
    Ok(())
}

#[test]
fn concurrent_writes_stay_hidden_but_own_writes_show() -> Result<(), Error> {
    let mut mvcc = setup();
    let mut t1 = mvcc.begin()?;
    let mut t2 = mvcc.begin()?;
    t1.set(&mut mvcc, b"a", vec![1])?;
    t2.set(&mut mvcc, b"b", vec![2])?;
    t2.commit(&mut mvcc)?;
    assert_eq!(t1.get(&mvcc, b"a")?, Some(vec![1]));
    assert_eq!(t1.get(&mvcc, b"b")?, None);
    let scan = t1.scan(&mvcc, Bound::Unbounded, Bound::Unbounded)?;
    assert_eq!(scan.to_vec()?, vec![(b"a".to_vec(), vec![1])]);
    Ok(())
}

#[test]
fn as_of_sees_what_the_writer_saw_at_begin() -> Result<(), Error> {
    let mut mvcc = setup();
    let mut t1 = mvcc.begin()?;
    t1.set(&mut mvcc, b"k", vec![1])?;
    t1.commit(&mut mvcc)?;
    let mut t2 = mvcc.begin()?;
    t2.set(&mut mvcc, b"k", vec![2])?;
    let mut t3 = mvcc.begin()?;
    let before = t3.get(&mvcc, b"k")?;
    t3.set(&mut mvcc, b"k2", vec![3])?;
    t2.commit(&mut mvcc)?;
    t3.commit(&mut mvcc)?;
    let asof = mvcc.begin_as_of(3)?;
    assert_eq!(asof.get(&mvcc, b"k")?, before);
    assert_eq!(asof.get(&mvcc, b"k2")?, None);
    assert_eq!(asof.state().active, vec![2]);
    Ok(())
}

#[test]
fn rollback_removes_writes_and_marker_and_keeps_snapshot() -> Result<(), Error> {
    let mut mvcc = setup();
    let t1 = mvcc.begin()?;
    let mut t2 = mvcc.begin()?;
    t2.set(&mut mvcc, b"a", vec![1])?;
    t2.delete(&mut mvcc, b"b")?;
    t2.rollback(&mut mvcc)?;
    t1.commit(&mut mvcc)?;
    let t = mvcc.begin()?;
    assert_eq!(t.get(&mvcc, b"a")?, None);
    assert_eq!(t.scan(&mvcc, Bound::Unbounded, Bound::Unbounded)?.to_vec()?, vec![]);
    assert!(matches!(mvcc.resume(TransactionState { version: 2, read_only: false, active: vec![] }), Err(Error::Internal(_))));
    assert_eq!(mvcc.begin_as_of(2)?.state().active, vec![1]);
    let mut t4 = mvcc.begin()?;
    t4.set(&mut mvcc, b"a", vec![4])?;
    Ok(())
}

#[test]
fn forward_and_reverse_scans_agree() -> Result<(), Error> {
    let mut mvcc = setup();
    let mut t = mvcc.begin()?;
    for (k, v) in [(b"p".to_vec(), 1u8), (b"q".to_vec(), 2), (b"r".to_vec(), 3)] {
        t.set(&mut mvcc, &k, vec![v])?;
    }
    t.commit(&mut mvcc)?;
    let mut t = mvcc.begin()?;
    t.set(&mut mvcc, b"q", vec![9])?;
    t.delete(&mut mvcc, b"r")?;
    t.commit(&mut mvcc)?;
    let t = mvcc.begin()?;
    let scan = t.scan(&mvcc, Bound::Unbounded, Bound::Unbounded)?;
    let forward = scan.to_vec()?;
    let mut it = scan.iter();
    let mut backward = Vec::new();
    while let Some(item) = it.next_back() {
        backward.push(item?);
    }
    backward.reverse();
    assert_eq!(forward, backward);
    assert_eq!(forward, vec![(b"p".to_vec(), vec![1]), (b"q".to_vec(), vec![9])]);
    Ok(())
}

#[test]
fn range_scans_honour_bounds() -> Result<(), Error> {
    let mut mvcc = setup();
    let mut t = mvcc.begin()?;
    for k in [b"a", b"b", b"c", b"d"] {
        t.set(&mut mvcc, k, k.to_vec())?;
    }
    t.commit(&mut mvcc)?;
    mvcc.set_unversioned(b"zz", vec![1])?;
    let t = mvcc.begin()?;
    let keys = |v: Vec<(Vec<u8>, Vec<u8>)>| v.into_iter().map(|(k, _)| k).collect::<Vec<_>>();
    let r = t.scan(&mvcc, Bound::Included(b"b".to_vec()), Bound::Excluded(b"d".to_vec()))?.to_vec()?;
    assert_eq!(keys(r), vec![b"b".to_vec(), b"c".to_vec()]);
    let r = t.scan(&mvcc, Bound::Excluded(b"b".to_vec()), Bound::Included(b"d".to_vec()))?.to_vec()?;
    assert_eq!(keys(r), vec![b"c".to_vec(), b"d".to_vec()]);
    let r = t.scan(&mvcc, Bound::Unbounded, Bound::Unbounded)?.to_vec()?;
    assert_eq!(r.len(), 4);
    let r = t.scan_prefix(&mvcc, b"")?.to_vec()?;
    assert_eq!(r.len(), 4);
    Ok(())
}

#[test]
fn status_counts_versions_and_active_transactions() -> Result<(), Error> {
    let mut mvcc = setup();
    let s = mvcc.status()?;
    assert_eq!((s.versions, s.active_txns, s.storage.as_str()), (0, 0, "memory"));
    let t1 = mvcc.begin()?;
    let _t2 = mvcc.begin()?;
    t1.commit(&mut mvcc)?;
    let s = mvcc.status()?;
    assert_eq!((s.versions, s.active_txns), (2, 1));
    Ok(())
}

#[test]
fn resume_keeps_the_state() -> Result<(), Error> {
    let mut mvcc = setup();
    let t = mvcc.begin()?;
    let state = t.state().clone();
    let r = mvcc.resume(state.clone())?;
    assert_eq!(r.state(), &state);
    assert_eq!(
        mvcc.resume(TransactionState { version: 12, read_only: false, active: vec![] }).err(),
        Some(Error::Internal("No active transaction at version 12".into()))
    );
    Ok(())
}
