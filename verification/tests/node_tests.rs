use arima::kv::{KV, Row};
use arima::types::{LogEntry, EntryKind, Request, StoreError, OP_READ, OP_WRITE, OP_STATUS};
use arima::storage::ArimaStorage;
use arima::node::{ArimaNode, RaftView, Ready, ProposeOutcome};
use arima::codec::dec_status_bytes;

fn fresh_node(id: u64) -> ArimaNode {
    let kv = KV::new();
    let storage = ArimaStorage::new(id, &kv).unwrap();
    ArimaNode::new(id, storage)
}

fn request(id: u64, op: u32, key: &[u8], value: &[u8]) -> Request {
    Request { id, op, row: Row { key: key.to_vec(), value: value.to_vec() } }
}

fn leader_view(id: u64) -> RaftView {
    RaftView { leader_id: id, term: 1, commit: 0 }
}

fn empty_ready() -> Ready {
    Ready {
        snapshot: None,
        entries: Vec::new(),
        hard_state: None,
        messages: Vec::new(),
        committed_entries: Vec::new(),
    }
}

/// Drive one proposal through commit and apply, as the consensus core of a
/// single-node cluster would.
fn commit_one(node: &mut ArimaNode, payload: Vec<u8>, index: u64, term: u64) -> Vec<arima::types::Response> {
    let e = LogEntry { index, term, kind: EntryKind::Normal, data: payload };
    let mut ready = empty_ready();
    ready.entries = vec![LogEntry {
        index: e.index,
        term: e.term,
        kind: e.kind,
        data: e.data.clone(),
    }];
    ready.committed_entries = vec![e];
    let out = node.on_ready(ready).unwrap();
    out.replies
}

#[test]
fn non_leader_proposal_is_rejected() {
    let mut node = fresh_node(1);
    let view = RaftView { leader_id: 2, term: 1, commit: 0 };
    let before = node.storage().last_index();
    match node.on_propose(&request(1, OP_WRITE, b"k", b"v"), &view) {
        ProposeOutcome::Reply(resp) => {
            assert_eq!(resp.ok, false);
            assert_eq!(resp.id, 1);
            assert_eq!(resp.value, None);
        }
        ProposeOutcome::Submit(_) => panic!("a non-leader must not submit"),
    }
    assert_eq!(node.storage().last_index(), before);
}

#[test]
fn duplicate_id_is_rejected_and_resolves_once() {
    let mut node = fresh_node(1);
    let view = leader_view(1);
    let payload = match node.on_propose(&request(9, OP_WRITE, b"k", b"v"), &view) {
        ProposeOutcome::Submit(p) => p,
        ProposeOutcome::Reply(_) => panic!("the leader must submit a fresh id"),
    };
    // The same id while the first is pending is turned away.
    match node.on_propose(&request(9, OP_WRITE, b"k", b"w"), &view) {
        ProposeOutcome::Reply(resp) => assert_eq!(resp.ok, false),
        ProposeOutcome::Submit(_) => panic!("a duplicate id must not submit"),
    }
    // Committing the entry resolves the caller exactly once.
    let replies = commit_one(&mut node, payload, 1, 1);
    assert_eq!(replies.len(), 1);
    assert_eq!(replies[0].id, 9);
    assert!(replies[0].ok);
    assert!(!node.is_pending(9));
    // Re-applying a stray commit with the same id resolves nobody.
    let again = commit_one(&mut node, Vec::new(), 2, 1);
    assert_eq!(again.len(), 0);
}

#[test]
fn write_then_read_round_trip() {
    let mut node = fresh_node(1);
    let view = leader_view(1);
    let p1 = match node.on_propose(&request(1, OP_WRITE, b"k", b"v"), &view) {
        ProposeOutcome::Submit(p) => p,
        ProposeOutcome::Reply(_) => panic!("expected a submission"),
    };
    let r1 = commit_one(&mut node, p1, 1, 1);
    assert_eq!(r1.len(), 1);
    assert!(r1[0].ok);
    let p2 = match node.on_propose(&request(2, OP_READ, b"k", b""), &view) {
        ProposeOutcome::Submit(p) => p,
        ProposeOutcome::Reply(_) => panic!("expected a submission"),
    };
    let r2 = commit_one(&mut node, p2, 2, 1);
    assert_eq!(r2.len(), 1);
    assert!(r2[0].ok);
    assert_eq!(r2[0].value, Some(b"v".to_vec()));
    assert_eq!(node.storage().apply_index(), 2);
}

#[test]
fn status_query_is_pure() {
    let mut node = fresh_node(1);
    let view = leader_view(1);
    let p1 = match node.on_propose(&request(1, OP_WRITE, b"k", b"v"), &view) {
        ProposeOutcome::Submit(p) => p,
        ProposeOutcome::Reply(_) => panic!("expected a submission"),
    };
    commit_one(&mut node, p1, 1, 1);
    let last = node.storage().last_index();
    let apply = node.storage().apply_index();
    let resp = match node.on_propose(&request(3, OP_STATUS, b"", b""), &view) {
        ProposeOutcome::Reply(resp) => resp,
        ProposeOutcome::Submit(_) => panic!("a status query never reaches the log"),
    };
    assert!(resp.ok);
    let st = dec_status_bytes(resp.value.unwrap().as_slice()).unwrap();
    assert_eq!(st.id, 1);
    assert_eq!(st.leader_id, 1);
    assert_eq!(st.last_index, 1);
    assert_eq!(st.apply_index, 1);
    assert_eq!(st.first_index, 1);
    // Nothing moved.
    assert_eq!(node.storage().last_index(), last);
    assert_eq!(node.storage().apply_index(), apply);
}

#[test]
fn empty_payload_entries_only_advance_apply() {
    let mut node = fresh_node(1);
    // A leader-marker entry with no payload is applied but answers nobody.
    let replies = commit_one(&mut node, Vec::new(), 1, 1);
    assert_eq!(replies.len(), 0);
    assert_eq!(node.storage().apply_index(), 1);
}

#[test]
fn undecodable_committed_payload_is_fatal() {
    let mut node = fresh_node(1);
    let e = LogEntry { index: 1, term: 1, kind: EntryKind::Normal, data: b"garbage".to_vec() };
    let mut ready = empty_ready();
    ready.entries = vec![LogEntry {
        index: 1,
        term: 1,
        kind: EntryKind::Normal,
        data: b"garbage".to_vec(),
    }];
    ready.committed_entries = vec![e];
    assert_eq!(node.on_ready(ready).err(), Some(StoreError::Corrupt));
}

#[test]
fn leadership_loss_drains_pending() {
    let mut node = fresh_node(1);
    let view = leader_view(1);
    let payload = match node.on_propose(&request(5, OP_WRITE, b"k", b"v"), &view) {
        ProposeOutcome::Submit(p) => p,
        ProposeOutcome::Reply(_) => panic!("expected a submission"),
    };
    assert!(node.is_pending(5));
    // While this node stays leader, nothing is drained.
    let same = node.on_leader_change(&leader_view(1));
    assert_eq!(same.len(), 0);
    assert!(node.is_pending(5));
    // Leadership moves away: the waiting caller is answered negatively.
    let dropped = node.on_leader_change(&RaftView { leader_id: 2, term: 2, commit: 0 });
    assert_eq!(dropped.len(), 1);
    assert_eq!(dropped[0].id, 5);
    assert_eq!(dropped[0].op, OP_WRITE);
    assert!(!dropped[0].ok);
    assert!(!node.is_pending(5));
    // If the entry still commits later, it applies but resolves nobody.
    let replies = commit_one(&mut node, payload, 1, 2);
    assert_eq!(replies.len(), 0);
    assert_eq!(node.storage().get_data(b"k"), Some(b"v".to_vec()));
}

#[test]
fn out_of_order_batch_is_fatal() {
    let mut node = fresh_node(1);
    let mut ready = empty_ready();
    ready.entries = vec![
        LogEntry { index: 1, term: 1, kind: EntryKind::Normal, data: Vec::new() },
        LogEntry { index: 3, term: 1, kind: EntryKind::Normal, data: Vec::new() },
    ];
    assert_eq!(node.on_ready(ready).err(), Some(StoreError::Corrupt));
}

#[test]
fn committed_index_past_tail_is_fatal() {
    let mut node = fresh_node(1);
    let mut ready = empty_ready();
    ready.committed_entries = vec![LogEntry {
        index: 9,
        term: 1,
        kind: EntryKind::Normal,
        data: Vec::new(),
    }];
    assert_eq!(node.on_ready(ready).err(), Some(StoreError::Corrupt));
}

#[test]
fn messages_are_dispatched_regardless_of_role() {
    let mut node = fresh_node(1);
    let mut ready = empty_ready();
    ready.messages = vec![
        arima::node::PeerMessage { to: 2, data: b"m1".to_vec() },
        arima::node::PeerMessage { to: 3, data: b"m2".to_vec() },
    ];
    let out = node.on_ready(ready).unwrap();
    assert_eq!(out.messages.len(), 2);
    assert_eq!(out.messages[0].to, 2);
    assert_eq!(out.messages[1].to, 3);
}
