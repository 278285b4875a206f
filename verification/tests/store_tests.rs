use arima::kv::{KV, Row, BatchOp};
use arima::keys::{raft_log_key, decode_raft_log_key, data_key_of, u64_to_be, be_to_u64};
use arima::codec::{enc_entry_bytes, dec_entry_bytes, enc_trunc_bytes, dec_trunc_bytes,
    enc_hard_bytes, dec_hard_bytes, enc_status_bytes, dec_status_bytes, enc_request_bytes,
    dec_request_bytes, enc_u64s_bytes, dec_u64s_bytes, enc_rows_bytes, dec_rows_bytes};
use arima::types::{LogEntry, EntryKind, TruncatedState, HardState, Status, Request, Snapshot,
    ConfState, StoreError};
use arima::storage::{ArimaStorage, put_u64, get_u64, put_truncated_state, get_truncated_state,
    get_last_log, try_init_cluster};

fn entry(index: u64, term: u64, data: &[u8]) -> LogEntry {
    LogEntry { index, term, kind: EntryKind::Normal, data: data.to_vec() }
}

fn fresh_storage() -> ArimaStorage {
    let kv = KV::new();
    ArimaStorage::new(1, &kv).unwrap()
}

#[test]
fn be64_round_trip() {
    let v: u64 = 0x0102_0304_0506_0708;
    let b = u64_to_be(v);
    assert_eq!(b, vec![1, 2, 3, 4, 5, 6, 7, 8]);
    assert_eq!(be_to_u64(b.as_slice()), v);
    let m = u64_to_be(u64::MAX);
    assert_eq!(be_to_u64(m.as_slice()), u64::MAX);
}

#[test]
fn log_key_round_trip_and_order() {
    let k1 = raft_log_key(5);
    let k2 = raft_log_key(300);
    assert_eq!(decode_raft_log_key(k1.as_slice()), Some(5));
    assert_eq!(decode_raft_log_key(k2.as_slice()), Some(300));
    assert!(k1 < k2);
    assert_eq!(decode_raft_log_key(b"short"), None);
    assert_eq!(decode_raft_log_key(data_key_of(b"x").as_slice()), None);
}

#[test]
fn kv_basic_operations() {
    let mut kv = KV::new();
    assert_eq!(kv.get(b"a"), None);
    kv.put(b"b", b"2");
    kv.put(b"a", b"1");
    kv.put(b"c", b"3");
    assert_eq!(kv.get(b"a"), Some(b"1".to_vec()));
    kv.put(b"a", b"9");
    assert_eq!(kv.get(b"a"), Some(b"9".to_vec()));
    kv.delete(b"b");
    assert_eq!(kv.get(b"b"), None);
    let rows = kv.scan(b"a", b"z");
    assert_eq!(rows.len(), 2);
    assert_eq!(rows[0].key, b"a".to_vec());
    assert_eq!(rows[1].key, b"c".to_vec());
    let last = kv.seek_for_prev(b"z").unwrap();
    assert_eq!(last.key, b"c".to_vec());
    let first = kv.seek(b"b").unwrap();
    assert_eq!(first.key, b"c".to_vec());
    assert_eq!(kv.seek(b"zz"), None);
}

#[test]
fn kv_write_batch_is_applied_in_order() {
    let mut kv = KV::new();
    let ops = vec![
        BatchOp::Put { key: b"x".to_vec(), value: b"1".to_vec() },
        BatchOp::Put { key: b"x".to_vec(), value: b"2".to_vec() },
        BatchOp::Delete { key: b"y".to_vec() },
    ];
    kv.write_batch(&ops);
    assert_eq!(kv.get(b"x"), Some(b"2".to_vec()));
}

#[test]
fn kv_delete_range() {
    let mut kv = KV::new();
    kv.put(b"a1", b"1");
    kv.put(b"a2", b"2");
    kv.put(b"b1", b"3");
    kv.delete_range(b"a", b"b");
    assert_eq!(kv.get(b"a1"), None);
    assert_eq!(kv.get(b"a2"), None);
    assert_eq!(kv.get(b"b1"), Some(b"3".to_vec()));
}

#[test]
fn entry_codec_round_trip() {
    let e = entry(7, 3, b"payload");
    let b = enc_entry_bytes(&e);
    assert_eq!(dec_entry_bytes(b.as_slice()), Some(e));
    assert_eq!(dec_entry_bytes(b"tooshort"), None);
}

#[test]
fn metadata_codec_round_trips() {
    let t = TruncatedState { index: 11, term: 4 };
    assert_eq!(dec_trunc_bytes(enc_trunc_bytes(&t).as_slice()), Some(t));
    let h = HardState { term: 9, vote: 2, commit: 8 };
    assert_eq!(dec_hard_bytes(enc_hard_bytes(&h).as_slice()), Some(h));
    let st = Status {
        leader_id: 1, id: 2, first_index: 3, last_index: 4, term: 5,
        apply_index: 6, commit_index: 7,
    };
    assert_eq!(dec_status_bytes(enc_status_bytes(&st).as_slice()), Some(st));
    let voters = vec![1u64, 2, 3];
    assert_eq!(dec_u64s_bytes(enc_u64s_bytes(&voters).as_slice()), Some(voters));
    assert_eq!(dec_u64s_bytes(b"seven.."), None);
}

#[test]
fn request_codec_round_trip() {
    let r = Request {
        id: 42,
        op: 2,
        row: Row { key: b"k".to_vec(), value: b"v".to_vec() },
    };
    let b = enc_request_bytes(&r);
    let d = dec_request_bytes(b.as_slice()).unwrap();
    assert_eq!(d.id, 42);
    assert_eq!(d.op, 2);
    assert_eq!(d.row.key, b"k".to_vec());
    assert_eq!(d.row.value, b"v".to_vec());
}

#[test]
fn rows_codec_round_trip() {
    let rows = vec![
        Row { key: b"a".to_vec(), value: b"1".to_vec() },
        Row { key: b"bb".to_vec(), value: b"22".to_vec() },
    ];
    let b = enc_rows_bytes(&rows);
    let d = dec_rows_bytes(b.as_slice()).unwrap();
    assert_eq!(d.len(), 2);
    assert_eq!(d[0].key, b"a".to_vec());
    assert_eq!(d[1].value, b"22".to_vec());
    assert_eq!(dec_rows_bytes(b"bad"), None);
}

#[test]
fn append_read_round_trip() {
    let mut s = fresh_storage();
    let es = vec![entry(1, 1, b"one"), entry(2, 1, b"two"), entry(3, 2, b"three")];
    s.append(es.as_slice());
    assert_eq!(s.first_index(), 1);
    assert_eq!(s.last_index(), 3);
    let got = s.entries(1, 4, None).unwrap();
    assert_eq!(got, es);
    let sub = s.entries(2, 3, None).unwrap();
    assert_eq!(sub, vec![entry(2, 1, b"two")]);
}

#[test]
fn entries_size_limit_keeps_first() {
    let mut s = fresh_storage();
    s.append(&[entry(1, 1, b"aaaaaaaaaa"), entry(2, 1, b"bbbbbbbbbb")]);
    // A limit smaller than the first entry still returns that entry.
    let got = s.entries(1, 3, Some(1)).unwrap();
    assert_eq!(got.len(), 1);
    assert_eq!(got[0].index, 1);
    // No limit returns everything.
    assert_eq!(s.entries(1, 3, None).unwrap().len(), 2);
}

#[test]
fn entries_errors() {
    let mut s = fresh_storage();
    s.append(&[entry(1, 1, b"x"), entry(2, 1, b"y")]);
    // Below the compaction boundary: recoverable for the consensus core.
    assert_eq!(s.entries(0, 2, None), Err(StoreError::Compacted));
    // An empty in-range query succeeds with nothing.
    assert_eq!(s.entries(1, 1, None), Ok(vec![]));
}

#[test]
fn truncation_on_divergent_append() {
    let mut s = fresh_storage();
    s.append(&[entry(1, 1, b"a"), entry(2, 1, b"b"), entry(3, 1, b"c")]);
    // A new leader overwrites from index 2 with a shorter tail.
    s.append(&[entry(2, 2, b"B")]);
    assert_eq!(s.last_index(), 2);
    assert_eq!(s.entries(2, 3, None).unwrap(), vec![entry(2, 2, b"B")]);
    assert_eq!(s.entries(1, 3, None).unwrap(), vec![entry(1, 1, b"a"), entry(2, 2, b"B")]);
    assert_eq!(s.term(2), Ok(2));
}

#[test]
fn term_shortcuts() {
    let mut s = fresh_storage();
    s.append(&[entry(1, 1, b"a"), entry(2, 2, b"b")]);
    assert_eq!(s.term(0), Ok(0));
    assert_eq!(s.term(1), Ok(1));
    assert_eq!(s.term(2), Ok(2));
}

#[test]
fn snapshot_and_apply_snapshot() {
    let mut s = fresh_storage();
    s.append(&[entry(1, 1, b"a"), entry(2, 1, b"b")]);
    s.put_data(b"k1", b"v1");
    s.put_data(b"k2", b"v2");
    s.advance_apply(2);
    assert_eq!(
        s.snapshot(3),
        Err(StoreError::SnapshotTemporarilyUnavailable),
    );
    let snap = s.snapshot(2).unwrap();
    assert_eq!(snap.index, 2);
    assert_eq!(snap.term, 1);
    let rows = dec_rows_bytes(snap.data.as_slice()).unwrap();
    assert_eq!(rows.len(), 2);
    assert_eq!(rows[0].key, b"k1".to_vec());
    assert_eq!(rows[0].value, b"v1".to_vec());

    // Install the snapshot into a second, empty store.
    let mut other = fresh_storage();
    other.apply_snapshot(&snap).unwrap();
    assert_eq!(other.last_index(), 2);
    assert_eq!(other.apply_index(), 2);
    assert_eq!(other.truncated_state(), TruncatedState { index: 2, term: 1 });
    assert_eq!(other.get_data(b"k1"), Some(b"v1".to_vec()));
    assert_eq!(other.get_data(b"k2"), Some(b"v2".to_vec()));
    // Compacted below the boundary; the boundary's own term still answers.
    assert_eq!(other.entries(1, 2, None), Err(StoreError::Compacted));
    assert_eq!(other.term(2), Ok(1));
}

#[test]
fn compaction_boundary_is_monotonic() {
    let mut s = fresh_storage();
    s.append(&[entry(1, 1, b"a"), entry(2, 1, b"b"), entry(3, 1, b"c")]);
    s.advance_apply(2);
    let snap1 = s.snapshot(1).unwrap();
    let mut t = fresh_storage();
    t.apply_snapshot(&snap1).unwrap();
    let first = t.truncated_state().index;
    s.advance_apply(3);
    let snap2 = s.snapshot(3).unwrap();
    t.apply_snapshot(&snap2).unwrap();
    assert!(t.truncated_state().index >= first);
}

#[test]
fn apply_snapshot_rejects_bad_payload() {
    let mut s = fresh_storage();
    let bad = Snapshot {
        index: 1,
        term: 1,
        conf_state: ConfState { voters: vec![1] },
        data: b"not a row list".to_vec(),
    };
    assert_eq!(s.apply_snapshot(&bad), Err(StoreError::Corrupt));
    // The store is untouched.
    assert_eq!(s.last_index(), 0);
    assert_eq!(s.apply_index(), 0);
}

#[test]
fn apply_index_never_exceeds_last_index() {
    let mut s = fresh_storage();
    s.append(&[entry(1, 1, b"a"), entry(2, 1, b"b")]);
    s.advance_apply(1);
    assert!(s.apply_index() <= s.last_index());
    s.advance_apply(2);
    assert!(s.apply_index() <= s.last_index());
    // A divergent append never cuts below the applied prefix.
    s.append(&[entry(2, 3, b"B")]);
    assert!(s.apply_index() <= s.last_index());
}

#[test]
fn recovery_restores_state() {
    let mut kv = KV::new();
    {
        let mut s = ArimaStorage::new(7, &kv).unwrap();
        s.append(&[entry(1, 1, b"a"), entry(2, 2, b"b")]);
        s.put_data(b"k", b"v");
        s.advance_apply(2);
        s.put_hard_state(&HardState { term: 2, vote: 7, commit: 2 });
        // Recover from the persisted image via the generic engine state.
        for i in 1..=2u64 {
            let got = s.entries(i, i + 1, None).unwrap();
            let keyb = raft_log_key(i);
            kv.put(keyb.as_slice(), enc_entry_bytes(&got[0]).as_slice());
        }
        put_truncated_state(&mut kv, &s.truncated_state());
        put_u64(&mut kv, &[0x04], s.apply_index());
        kv.put(&[0x01], enc_hard_bytes(&HardState { term: 2, vote: 7, commit: 2 }).as_slice());
        kv.put(data_key_of(b"k").as_slice(), b"v");
    }
    let r = ArimaStorage::new(7, &kv).unwrap();
    assert_eq!(r.last_index(), 2);
    assert_eq!(r.apply_index(), 2);
    assert_eq!(r.get_data(b"k"), Some(b"v".to_vec()));
    let (hs, _) = r.initial_state();
    assert_eq!(hs, HardState { term: 2, vote: 7, commit: 2 });
    assert_eq!(r.entries(1, 3, None).unwrap(), vec![entry(1, 1, b"a"), entry(2, 2, b"b")]);
}

#[test]
fn recovery_rejects_gapped_log() {
    let mut kv = KV::new();
    let k1 = raft_log_key(1);
    let k3 = raft_log_key(3);
    kv.put(k1.as_slice(), enc_entry_bytes(&entry(1, 1, b"a")).as_slice());
    kv.put(k3.as_slice(), enc_entry_bytes(&entry(3, 1, b"c")).as_slice());
    assert_eq!(ArimaStorage::new(1, &kv).err(), Some(StoreError::Corrupt));
}

#[test]
fn util_round_trips() {
    let mut kv = KV::new();
    put_u64(&mut kv, b"id", 99);
    assert_eq!(get_u64(&kv, b"id"), Ok(Some(99)));
    assert_eq!(get_u64(&kv, b"absent"), Ok(None));
    kv.put(b"bad", b"123");
    assert_eq!(get_u64(&kv, b"bad"), Err(StoreError::Corrupt));
    let t = TruncatedState { index: 5, term: 2 };
    put_truncated_state(&mut kv, &t);
    assert_eq!(get_truncated_state(&kv), Ok(t));
    let empty = KV::new();
    assert_eq!(get_truncated_state(&empty), Ok(TruncatedState { index: 0, term: 0 }));
}

#[test]
fn get_last_log_finds_tail() {
    let mut kv = KV::new();
    assert_eq!(get_last_log(&kv), None);
    let k1 = raft_log_key(1);
    let k2 = raft_log_key(2);
    kv.put(k1.as_slice(), enc_entry_bytes(&entry(1, 1, b"a")).as_slice());
    kv.put(k2.as_slice(), enc_entry_bytes(&entry(2, 3, b"b")).as_slice());
    let last = get_last_log(&kv).unwrap();
    assert_eq!(last.index, 2);
    assert_eq!(last.term, 3);
}

#[test]
fn try_init_cluster_semantics() {
    let mut kv = KV::new();
    assert_eq!(try_init_cluster(&mut kv, 1, &vec![1, 2, 3]), Ok(()));
    // Idempotent for the same id.
    assert_eq!(try_init_cluster(&mut kv, 1, &vec![1, 2, 3]), Ok(()));
    // A different id is refused.
    assert_eq!(try_init_cluster(&mut kv, 2, &vec![1, 2, 3]), Err(StoreError::Corrupt));
    let s = ArimaStorage::new(1, &kv).unwrap();
    let (_, conf) = s.initial_state();
    assert_eq!(conf.voters, vec![1, 2, 3]);
}
