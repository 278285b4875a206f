//! The replication driver: the per-node decision logic that validates client
//! proposals, applies committed entries to the data namespace, answers
//! status queries, and persists one "ready" batch of consensus output at a
//! time.
//!
//! The consensus core itself is an external collaborator: the surrounding
//! program feeds it messages and ticks, converts its ready batches into
//! [`Ready`] values, calls [`ArimaNode::on_ready`], forwards the returned
//! peer messages to the transport, delivers the returned replies to waiting
//! callers, and then signals the core to advance.

use vstd::prelude::*;
use crate::storage::{ArimaStorage, entries_view};
use crate::keys::{log_key, data_key};
use crate::types::{Request, Response, ResponseModel, Status, HardState, TruncatedState, Snapshot,
    LogEntry, EntryModel, EntryKind, StoreError, OP_READ, OP_WRITE, OP_DELETE, OP_STATUS};
use crate::codec::{enc_request, enc_request_bytes, dec_request_bytes, dec_request, dec_rows,
    enc_status, enc_status_bytes};

verus! {

/// What the driver observes of the consensus core.
pub struct RaftView {
    pub leader_id: u64,
    pub term: u64,
    pub commit: u64,
}

/// An outbound consensus message for the transport collaborator.
pub struct PeerMessage {
    pub to: u64,
    pub data: Vec<u8>,
}

/// One cycle of consensus-core output to persist and apply.
pub struct Ready {
    pub snapshot: Option<Snapshot>,
    pub entries: Vec<LogEntry>,
    pub hard_state: Option<HardState>,
    pub messages: Vec<PeerMessage>,
    pub committed_entries: Vec<LogEntry>,
}

/// What the driver decided about a proposal.
pub enum ProposeOutcome {
    /// Answer the caller immediately; the log is untouched.
    Reply(Response),
    /// Hand this payload to the consensus core as a new log entry.
    Submit(Vec<u8>),
}

/// What processing a ready batch produced: messages for the transport
/// (dispatched whatever the node's role is) and resolved client replies.
pub struct ReadyOutcome {
    pub messages: Vec<PeerMessage>,
    pub replies: Vec<Response>,
}

/// Whether a committed entry carries no client command: membership entries
/// and internal no-op markers only advance the apply index.
pub open spec fn is_noop_entry(e: EntryModel) -> bool {
    e.kind == EntryKind::ConfChange || e.data.len() == 0
}

/// The highest index in a committed batch; zero when it is empty.
pub open spec fn max_committed_index(cmds: Seq<EntryModel>) -> u64
    decreases cmds.len(),
{
    if cmds.len() == 0 {
        0
    } else if cmds.last().index > max_committed_index(cmds.drop_last()) {
        cmds.last().index
    } else {
        max_committed_index(cmds.drop_last())
    }
}

/// The pending list with the first occurrence of `id` removed.
pub open spec fn drop_id(p: Seq<u64>, id: u64) -> Seq<u64>
    decreases p.len(),
{
    if p.len() == 0 {
        p
    } else if p[0] == id {
        p.skip(1)
    } else {
        seq![p[0]] + drop_id(p.skip(1), id)
    }
}

/// The views of a reply list.
pub open spec fn replies_view(rs: Seq<Response>) -> Seq<ResponseModel> {
    rs.map_values(|r: Response| r@)
}

/// What applying a committed batch in order produces: the final data
/// namespace, the ids still pending, and the resolved replies.  A read
/// answers from the data as of its own position in the batch; a resolved id
/// leaves the pending list, so no id is answered twice.
pub open spec fn apply_committed(data: Map<Seq<u8>, Seq<u8>>, pending: Seq<u64>,
    cmds: Seq<EntryModel>) -> (Map<Seq<u8>, Seq<u8>>, Seq<u64>, Seq<ResponseModel>)
    decreases cmds.len(),
{
    if cmds.len() == 0 {
        (data, pending, Seq::empty())
    } else {
        let prior = apply_committed(data, pending, cmds.drop_last());
        let e = cmds.last();
        if is_noop_entry(e) || dec_request(e.data) is None {
            prior
        } else {
            let rq = dec_request(e.data).unwrap();
            let d2 = if rq.op == OP_WRITE {
                prior.0.insert(rq.key, rq.value)
            } else if rq.op == OP_DELETE {
                prior.0.remove(rq.key)
            } else {
                prior.0
            };
            let resp = ResponseModel {
                id: rq.id,
                ok: true,
                op: rq.op,
                value: if rq.op == OP_READ {
                    if prior.0.contains_key(rq.key) {
                        Some(prior.0[rq.key])
                    } else {
                        None
                    }
                } else {
                    None
                },
            };
            if prior.1.contains(rq.id) {
                (d2, drop_id(prior.1, rq.id), prior.2.push(resp))
            } else {
                (d2, prior.1, prior.2)
            }
        }
    }
}

/// The compaction boundary after the batch's snapshot phase.
pub open spec fn mid_truncated(s0: ArimaStorage, ready: Ready) -> TruncatedState {
    match ready.snapshot {
        Some(sn) => TruncatedState { index: sn.index, term: sn.term },
        None => s0.spec_truncated(),
    }
}

/// The tail index after the batch's snapshot phase.
pub open spec fn mid_last_index(s0: ArimaStorage, ready: Ready) -> u64 {
    match ready.snapshot {
        Some(sn) => sn.index,
        None => s0.spec_last_index(),
    }
}

/// The tail term after the batch's snapshot phase.
pub open spec fn mid_last_term(s0: ArimaStorage, ready: Ready) -> u64 {
    match ready.snapshot {
        Some(sn) => sn.term,
        None => s0.spec_last_term(),
    }
}

/// The apply index after the batch's snapshot phase.
pub open spec fn mid_apply_index(s0: ArimaStorage, ready: Ready) -> u64 {
    match ready.snapshot {
        Some(sn) => sn.index,
        None => s0.spec_apply_index(),
    }
}

/// The data namespace after the batch's snapshot phase.
pub open spec fn base_data_map(s0: ArimaStorage, ready: Ready) -> Map<Seq<u8>, Seq<u8>> {
    match ready.snapshot {
        Some(sn) => ArimaStorage::rows_map(dec_rows(sn@.data).unwrap()),
        None => s0.data_map(),
    }
}

/// The tail index after the batch's append phase.
pub open spec fn post_last_index(s0: ArimaStorage, ready: Ready) -> u64 {
    if ready.entries@.len() > 0 {
        entries_view(ready.entries@).last().index
    } else {
        mid_last_index(s0, ready)
    }
}

/// Whether a ready batch is one the consensus core can hand out: its
/// snapshot, if any, is at or above the apply index and decodes; its
/// entries, if any, attach to the post-snapshot log; its committed entries
/// stay at or below the post-append tail, every command among them decodes
/// to a known op, and the batch's highest committed index never falls below
/// the apply index.  Anything else is fatal.
pub open spec fn spec_ready_ok(s0: ArimaStorage, ready: Ready) -> bool {
    let es = entries_view(ready.entries@);
    let cmds = entries_view(ready.committed_entries@);
    &&& match ready.snapshot {
        Some(sn) => s0.spec_apply_index() <= sn.index && sn.index < u64::MAX
            && dec_rows(sn@.data) is Some,
        None => true,
    }
    &&& (ready.entries@.len() == 0 || ArimaStorage::append_pre_at(
        mid_truncated(s0, ready).index, mid_last_index(s0, ready),
        mid_apply_index(s0, ready), es))
    &&& forall|j: int| 0 <= j < cmds.len()
        ==> (#[trigger] cmds[j]).index <= post_last_index(s0, ready)
    &&& forall|j: int| 0 <= j < cmds.len()
        ==> is_noop_entry(#[trigger] cmds[j])
            || (dec_request(cmds[j].data) is Some
                && {
                    let op = dec_request(cmds[j].data).unwrap().op;
                    op == OP_READ || op == OP_WRITE || op == OP_DELETE
                })
    &&& (max_committed_index(cmds) == 0
        || max_committed_index(cmds) >= mid_apply_index(s0, ready))
}

/// What processing an acceptable ready batch does, in full: the snapshot is
/// installed, the entries persisted, a given hard state written, the
/// committed commands applied in order to the data namespace, the waiting
/// callers among them answered exactly once each, every outbound message
/// handed over whatever the node's role, and the apply index moved to the
/// batch's highest committed position.
pub open spec fn spec_ready_post(s0: ArimaStorage, pend0: Seq<u64>, ready: Ready,
    post: ArimaStorage, pend1: Seq<u64>, out: ReadyOutcome) -> bool {
    let es = entries_view(ready.entries@);
    let cmds = entries_view(ready.committed_entries@);
    let stepped = apply_committed(base_data_map(s0, ready), pend0, cmds);
    let maxc = max_committed_index(cmds);
    &&& out.messages@ == ready.messages@
    &&& replies_view(out.replies@) == stepped.2
    &&& pend1 == stepped.1
    &&& post.data_map() == stepped.0
    &&& post.spec_truncated() == mid_truncated(s0, ready)
    &&& post.spec_last_index() == post_last_index(s0, ready)
    &&& post.spec_last_term() == (if es.len() > 0 { es.last().term } else {
        mid_last_term(s0, ready)
    })
    &&& post.spec_apply_index() == (if maxc > 0 { maxc } else { mid_apply_index(s0, ready) })
    &&& post.spec_voters() == (match ready.snapshot {
        Some(sn) => sn@.voters,
        None => s0.spec_voters(),
    })
    &&& post.spec_hard_state() == (match ready.hard_state {
        Some(h) => h,
        None => s0.spec_hard_state(),
    })
    &&& (forall|i: u64| #![trigger log_key(i)] i > post_last_index(s0, ready)
        ==> !post.has_entry(i))
    &&& (forall|i: u64| #![trigger log_key(i)]
        mid_truncated(s0, ready).index < i <= post_last_index(s0, ready)
            ==> post.has_entry(i)
                && post.entry_at(i) == (if es.len() > 0 && i >= es[0].index {
                    es[i - es[0].index]
                } else {
                    s0.entry_at(i)
                }))
}

/// Removing the first occurrence of `id` is removal at its first position.
proof fn lemma_drop_id_at(o: Seq<u64>, id: u64, i: int)
    requires
        0 <= i < o.len(),
        o[i] == id,
        forall|j: int| 0 <= j < i ==> o[j] != id,
    ensures
        drop_id(o, id) == o.remove(i),
    decreases i,
{
    if i == 0 {
        assert(drop_id(o, id) == o.skip(1));
        assert(o.remove(0) =~= o.skip(1));
    } else {
        assert(o[0] != id);
        assert(o.skip(1)[i - 1] == id);
        assert(forall|j: int| 0 <= j < i - 1 ==> o.skip(1)[j] != id);
        lemma_drop_id_at(o.skip(1), id, i - 1);
        assert(drop_id(o, id) == seq![o[0]] + drop_id(o.skip(1), id));
        assert(seq![o[0]] + o.skip(1).remove(i - 1) =~= o.remove(i));
    }
}

/// One proposal awaiting its committed entry: the request id the caller
/// will be matched by, and the op echoed back in its response.
struct PendingEntry {
    id: u64,
    op: u32,
}

/// The per-node driver state: the owned store and the pending proposals.
pub struct ArimaNode {
    pub id: u64,
    storage: ArimaStorage,
    pending: Vec<PendingEntry>,
}

impl ArimaNode {
    /// This node's id.
    pub closed spec fn spec_id(self) -> u64 {
        self.id
    }

    /// The store this node owns.
    pub closed spec fn spec_storage(self) -> ArimaStorage {
        self.storage
    }

    /// The ids of proposals whose callers still wait for a reply.
    pub closed spec fn spec_pending(self) -> Seq<u64> {
        self.pending@.map_values(|e: PendingEntry| e.id)
    }

    /// The op codes of those proposals, in the same order.
    pub closed spec fn spec_pending_ops(self) -> Seq<u32> {
        self.pending@.map_values(|e: PendingEntry| e.op)
    }

    /// The driver invariant: the store is well formed and no id is pending
    /// twice.
    pub closed spec fn inv(self) -> bool {
        &&& self.storage.inv()
        &&& forall|p: int, q: int| 0 <= p < q < self.pending@.len()
            ==> (#[trigger] self.pending@[p]).id != (#[trigger] self.pending@[q]).id
    }

    /// Own a recovered store.
    pub fn new(id: u64, storage: ArimaStorage) -> (r: ArimaNode)
        requires
            storage.inv(),
        ensures
            r.inv(),
            r.spec_id() == id,
            r.spec_storage() == storage,
            r.spec_pending() == Seq::<u64>::empty(),
            r.spec_pending_ops() == Seq::<u32>::empty(),
    {
        let r = ArimaNode { id, storage, pending: Vec::new() };
        proof {
            assert(r.spec_pending() =~= Seq::<u64>::empty());
            assert(r.spec_pending_ops() =~= Seq::<u32>::empty());
        }
        r
    }

    /// Read access to the owned store.
    pub fn storage(&self) -> (r: &ArimaStorage)
        ensures
            r == self.spec_storage(),
    {
        &self.storage
    }

    /// Whether a request id is still pending.
    pub fn is_pending(&self, id: u64) -> (r: bool)
        ensures
            r == self.spec_pending().contains(id),
    {
        let n = self.pending.len();
        let mut i: usize = 0;
        while i < n
            invariant
                0 <= i <= n,
                n == self.pending@.len(),
                forall|j: int| 0 <= j < i ==> (#[trigger] self.pending@[j]).id != id,
            decreases n - i,
        {
            if self.pending[i].id == id {
                proof {
                    assert(self.spec_pending()[i as int] == id);
                }
                return true;
            }
            i = i + 1;
        }
        proof {
            assert forall|j: int| 0 <= j < self.spec_pending().len()
                implies self.spec_pending()[j] != id by {
                assert(self.spec_pending()[j] == self.pending@[j].id);
            }
            assert(!self.spec_pending().contains(id));
        }
        false
    }

    /// Answer a status query from in-memory state alone: the query mutates
    /// nothing, which the shared borrow already guarantees, and it never
    /// fails, so the response reports success.
    pub fn handle_status(&self, req: &Request, view: &RaftView) -> (r: Response)
        requires
            self.inv(),
        ensures
            r@.id == req@.id,
            r@.ok == true,
            r@.op == req@.op,
            r@.value == Some(enc_status(self.spec_status(*view))),
    {
        proof {
            self.storage.lemma_inv_bounds();
        }
        let st = Status {
            leader_id: view.leader_id,
            id: self.id,
            first_index: self.storage.first_index(),
            last_index: self.storage.last_index(),
            term: view.term,
            apply_index: self.storage.apply_index(),
            commit_index: view.commit,
        };
        let value = enc_status_bytes(&st);
        Response { id: req.id, ok: true, op: req.op, value: Some(value) }
    }

    /// The status record the driver reports.
    pub open spec fn spec_status(self, view: RaftView) -> Status {
        Status {
            leader_id: view.leader_id,
            id: self.spec_id(),
            first_index: (self.spec_storage().spec_truncated().index + 1) as u64,
            last_index: self.spec_storage().spec_last_index(),
            term: view.term,
            apply_index: self.spec_storage().spec_apply_index(),
            commit_index: view.commit,
        }
    }

    /// Decide a proposal.  A status query is answered in place; a proposal
    /// while this node is not the leader, or whose id is already pending,
    /// is rejected immediately and the log is untouched; anything else is
    /// serialized for the consensus core and its id recorded as pending.
    pub fn on_propose(&mut self, req: &Request, view: &RaftView) -> (r: ProposeOutcome)
        requires
            old(self).inv(),
        ensures
            final(self).inv(),
            final(self).spec_id() == old(self).spec_id(),
            final(self).spec_storage() == old(self).spec_storage(),
            req@.op == OP_STATUS ==> match r {
                ProposeOutcome::Reply(resp) => resp@.id == req@.id && resp@.ok == true
                    && resp@.op == req@.op
                    && resp@.value == Some(enc_status(old(self).spec_status(*view)))
                    && final(self).spec_pending() == old(self).spec_pending(),
                ProposeOutcome::Submit(_) => false,
            },
            req@.op != OP_STATUS
                && (view.leader_id != old(self).spec_id()
                    || old(self).spec_pending().contains(req@.id)) ==> match r {
                ProposeOutcome::Reply(resp) => resp@.id == req@.id && resp@.ok == false
                    && resp@.op == req@.op && resp@.value is None
                    && final(self).spec_pending() == old(self).spec_pending(),
                ProposeOutcome::Submit(_) => false,
            },
            req@.op != OP_STATUS && view.leader_id == old(self).spec_id()
                && !old(self).spec_pending().contains(req@.id) ==> match r {
                ProposeOutcome::Reply(_) => false,
                ProposeOutcome::Submit(payload) => payload@ == enc_request(req@)
                    && final(self).spec_pending() == old(self).spec_pending().push(req@.id)
                    && final(self).spec_pending_ops()
                        == old(self).spec_pending_ops().push(req@.op),
            },
    {
        if req.op == OP_STATUS {
            return ProposeOutcome::Reply(self.handle_status(req, view));
        }
        let dup = self.is_pending(req.id);
        if view.leader_id != self.id || dup {
            return ProposeOutcome::Reply(Response {
                id: req.id,
                ok: false,
                op: req.op,
                value: None,
            });
        }
        let payload = enc_request_bytes(req);
        self.pending.push(PendingEntry { id: req.id, op: req.op });
        proof {
            assert forall|p: int, q: int| 0 <= p < q < self.pending@.len()
                implies (#[trigger] self.pending@[p]).id
                    != (#[trigger] self.pending@[q]).id by {
                if q == self.pending@.len() - 1 {
                    assert(old(self).spec_pending()[p] == old(self).pending@[p].id);
                    assert(old(self).spec_pending().contains(old(self).pending@[p].id));
                }
            }
            assert(self.spec_pending() =~= old(self).spec_pending().push(req@.id));
            assert(self.spec_pending_ops() =~= old(self).spec_pending_ops().push(req@.op));
        }
        ProposeOutcome::Submit(payload)
    }

    /// Resolve every pending caller when this node stops being the leader:
    /// a proposal accepted while leader but not yet committed would
    /// otherwise leave its caller waiting forever.  Each such caller gets a
    /// negative answer and should retry against the new leader; the store
    /// itself is untouched.
    pub fn on_leader_change(&mut self, view: &RaftView) -> (r: Vec<Response>)
        requires
            old(self).inv(),
        ensures
            final(self).inv(),
            final(self).spec_id() == old(self).spec_id(),
            final(self).spec_storage() == old(self).spec_storage(),
            view.leader_id == old(self).spec_id()
                ==> final(self).spec_pending() == old(self).spec_pending() && r@.len() == 0,
            view.leader_id != old(self).spec_id() ==> {
                &&& final(self).spec_pending() == Seq::<u64>::empty()
                &&& r@.len() == old(self).spec_pending().len()
                &&& forall|p: int| 0 <= p < r@.len() ==> (#[trigger] r@[p])@
                    == (ResponseModel {
                        id: old(self).spec_pending()[p],
                        ok: false,
                        op: old(self).spec_pending_ops()[p],
                        value: None,
                    })
            },
    {
        if view.leader_id == self.id {
            return Vec::new();
        }
        let n = self.pending.len();
        let mut r: Vec<Response> = Vec::new();
        let mut i: usize = 0;
        while i < n
            invariant
                0 <= i <= n,
                n == self.pending@.len(),
                self == old(self),
                r@.len() == i,
                forall|p: int| 0 <= p < i ==> (#[trigger] r@[p])@
                    == (ResponseModel {
                        id: old(self).spec_pending()[p],
                        ok: false,
                        op: old(self).spec_pending_ops()[p],
                        value: None,
                    }),
            decreases n - i,
        {
            proof {
                assert(old(self).spec_pending()[i as int] == self.pending@[i as int].id);
                assert(old(self).spec_pending_ops()[i as int] == self.pending@[i as int].op);
            }
            r.push(Response {
                id: self.pending[i].id,
                ok: false,
                op: self.pending[i].op,
                value: None,
            });
            i = i + 1;
        }
        self.pending = Vec::new();
        proof {
            assert(self.spec_pending() =~= Seq::<u64>::empty());
        }
        r
    }

    /// Apply one decoded client command to the data namespace and build its
    /// response: a read fetches, a write upserts, a delete removes.  Any
    /// other op code is a programming error of the fatal class and lies
    /// outside the domain; the driver checks op codes before calling.
    pub fn on_request(&mut self, req: &Request) -> (resp: Response)
        requires
            old(self).inv(),
            req@.op == OP_READ || req@.op == OP_WRITE || req@.op == OP_DELETE,
        ensures
            final(self).inv(),
            final(self).spec_id() == old(self).spec_id(),
            final(self).spec_pending() == old(self).spec_pending(),
            resp@.id == req@.id,
            resp@.op == req@.op,
            resp@.ok == true,
            req@.op == OP_READ ==> *final(self) == *old(self)
                && resp@.value == old(self).spec_storage().data_at(req@.key),
            req@.op == OP_WRITE ==> resp@.value is None
                && final(self).spec_storage().contents()
                    == old(self).spec_storage().contents()
                        .insert(crate::keys::data_key(req@.key), req@.value)
                && final(self).spec_storage().data_map()
                    == old(self).spec_storage().data_map().insert(req@.key, req@.value),
            req@.op == OP_DELETE ==> resp@.value is None
                && final(self).spec_storage().contents()
                    == old(self).spec_storage().contents()
                        .remove(crate::keys::data_key(req@.key))
                && final(self).spec_storage().data_map()
                    == old(self).spec_storage().data_map().remove(req@.key),
            final(self).spec_storage().spec_apply_index()
                == old(self).spec_storage().spec_apply_index(),
            final(self).spec_storage().spec_last_index()
                == old(self).spec_storage().spec_last_index(),
            final(self).spec_storage().spec_last_term()
                == old(self).spec_storage().spec_last_term(),
            final(self).spec_storage().spec_truncated()
                == old(self).spec_storage().spec_truncated(),
            final(self).spec_storage().spec_voters()
                == old(self).spec_storage().spec_voters(),
            final(self).spec_storage().spec_hard_state()
                == old(self).spec_storage().spec_hard_state(),
            forall|i: u64| #![trigger log_key(i)]
                final(self).spec_storage().has_entry(i)
                    == old(self).spec_storage().has_entry(i)
                    && (final(self).spec_storage().has_entry(i)
                        ==> final(self).spec_storage().entry_at(i)
                            == old(self).spec_storage().entry_at(i)),
    {
        if req.op == OP_READ {
            let value = self.storage.get_data(req.row.key.as_slice());
            Response { id: req.id, ok: true, op: req.op, value }
        } else if req.op == OP_WRITE {
            self.storage.put_data(req.row.key.as_slice(), req.row.value.as_slice());
            proof {
                ArimaStorage::lemma_data_map_insert(old(self).spec_storage(),
                    self.spec_storage(), req@.key, req@.value);
                self.lemma_log_preserved_after_data_write(*old(self), req@.key);
            }
            Response { id: req.id, ok: true, op: req.op, value: None }
        } else {
            self.storage.delete_data(req.row.key.as_slice());
            proof {
                ArimaStorage::lemma_data_map_remove(old(self).spec_storage(),
                    self.spec_storage(), req@.key);
                self.lemma_log_preserved_after_data_write(*old(self), req@.key);
            }
            Response { id: req.id, ok: true, op: req.op, value: None }
        }
    }

    /// A single data-row write leaves the log namespace as it was.
    proof fn lemma_log_preserved_after_data_write(self, prev: Self, uk: Seq<u8>)
        requires
            self.spec_storage().contents() == prev.spec_storage().contents()
                    .insert(data_key(uk), self.spec_storage().contents()[data_key(uk)])
                || self.spec_storage().contents()
                    == prev.spec_storage().contents().remove(data_key(uk)),
        ensures
            forall|i: u64| #![trigger log_key(i)]
                self.spec_storage().has_entry(i) == prev.spec_storage().has_entry(i)
                    && (self.spec_storage().has_entry(i)
                        ==> self.spec_storage().entry_at(i) == prev.spec_storage().entry_at(i)),
    {
        assert forall|i: u64| #![trigger log_key(i)]
            self.spec_storage().has_entry(i) == prev.spec_storage().has_entry(i)
                && (self.spec_storage().has_entry(i)
                    ==> self.spec_storage().entry_at(i)
                        == prev.spec_storage().entry_at(i)) by {
            assert(log_key(i)[0] == crate::keys::LOG_PREFIX);
            assert(data_key(uk)[0] == crate::keys::DATA_PREFIX);
            assert(log_key(i) != data_key(uk));
        }
    }

    /// Remove a pending id, if present.
    fn take_pending(&mut self, id: u64) -> (r: bool)
        requires
            old(self).inv(),
        ensures
            final(self).inv(),
            final(self).spec_id() == old(self).spec_id(),
            final(self).spec_storage() == old(self).spec_storage(),
            r == old(self).spec_pending().contains(id),
            r ==> !final(self).spec_pending().contains(id),
            r ==> final(self).spec_pending() == drop_id(old(self).spec_pending(), id),
            !r ==> final(self).spec_pending() == old(self).spec_pending(),
            forall|x: u64| #[trigger] final(self).spec_pending().contains(x)
                ==> old(self).spec_pending().contains(x),
            forall|x: u64| x != id && old(self).spec_pending().contains(x)
                ==> #[trigger] final(self).spec_pending().contains(x),
    {
        let n = self.pending.len();
        let mut i: usize = 0;
        while i < n
            invariant
                0 <= i <= n,
                n == self.pending@.len(),
                self == old(self),
                old(self).inv(),
                forall|j: int| 0 <= j < i ==> (#[trigger] self.pending@[j]).id != id,
            decreases n - i,
        {
            if self.pending[i].id == id {
                self.pending.remove(i);
                proof {
                    let s = self.spec_pending();
                    let o = old(self).spec_pending();
                    assert(forall|j: int| 0 <= j < o.len()
                        ==> o[j] == (#[trigger] old(self).pending@[j]).id);
                    assert(forall|j: int| 0 <= j < s.len()
                        ==> s[j] == (#[trigger] self.pending@[j]).id);
                    assert(self.pending@ =~= old(self).pending@.remove(i as int));
                    assert(o[i as int] == id);
                    assert(o.contains(id));
                    lemma_drop_id_at(o, id, i as int);
                    assert(s =~= o.remove(i as int));
                    assert(forall|j: int| 0 <= j < i ==> s[j] == o[j]);
                    assert(forall|j: int| i <= j < s.len() ==> s[j] == o[j + 1]);
                    assert forall|p: int, q: int| 0 <= p < q < self.pending@.len()
                        implies (#[trigger] self.pending@[p]).id
                            != (#[trigger] self.pending@[q]).id by {
                        if p < i && q < i {
                            assert(self.pending@[p] == old(self).pending@[p]);
                            assert(self.pending@[q] == old(self).pending@[q]);
                        } else if p < i {
                            assert(self.pending@[p] == old(self).pending@[p]);
                            assert(self.pending@[q] == old(self).pending@[q + 1]);
                        } else {
                            assert(self.pending@[p] == old(self).pending@[p + 1]);
                            assert(self.pending@[q] == old(self).pending@[q + 1]);
                        }
                    }
                    assert forall|x: u64| #[trigger] s.contains(x)
                        implies o.contains(x) by {
                        let j = choose|j: int| 0 <= j < s.len() && s[j] == x;
                        if j < i {
                            assert(o[j] == x);
                            assert(o.contains(x));
                        } else {
                            assert(o[j + 1] == x);
                            assert(o.contains(x));
                        }
                    }
                    assert forall|x: u64| x != id && o.contains(x)
                        implies #[trigger] s.contains(x) by {
                        let j = choose|j: int| 0 <= j < o.len() && o[j] == x;
                        if j < i {
                            assert(s[j] == x);
                        } else {
                            assert(j != i);
                            assert(s[j - 1] == x);
                        }
                    }
                    assert forall|x: u64| !(#[trigger] s.contains(x) && x == id) by {
                        if s.contains(id) {
                            let j = choose|j: int| 0 <= j < s.len() && s[j] == id;
                            if j < i {
                            } else {
                                assert(o[j + 1] == id);
                                assert(old(self).pending@[j + 1].id == id);
                            }
                        }
                    }
                }
                return true;
            }
            i = i + 1;
        }
        proof {
            assert forall|j: int| 0 <= j < old(self).spec_pending().len()
                implies old(self).spec_pending()[j] != id by {
                assert(old(self).spec_pending()[j] == old(self).pending@[j].id);
            }
            assert(!old(self).spec_pending().contains(id));
        }
        false
    }

    /// Process one ready batch, in order: install its snapshot, persist its
    /// new entries, persist a changed hard state, collect its outbound
    /// messages for the transport (whatever this node's role), apply its
    /// committed entries, resolve the pending callers they answer, and
    /// record the new apply index once for the whole batch.  Success is
    /// owed exactly on the batches the consensus core can produce
    /// ([`spec_ready_ok`]); anything else is the fatal class, on which the
    /// surrounding process must stop.
    #[verifier::rlimit(100)]
    pub fn on_ready(&mut self, ready: Ready) -> (r: Result<ReadyOutcome, StoreError>)
        requires
            old(self).inv(),
        ensures
            final(self).inv(),
            final(self).spec_id() == old(self).spec_id(),
            r is Ok <==> spec_ready_ok(old(self).spec_storage(), ready),
            match r {
                Ok(out) => {
                    &&& spec_ready_post(old(self).spec_storage(), old(self).spec_pending(),
                        ready, final(self).spec_storage(), final(self).spec_pending(), out)
                    &&& final(self).spec_storage().spec_apply_index()
                        >= old(self).spec_storage().spec_apply_index()
                    &&& final(self).spec_storage().spec_apply_index()
                        <= final(self).spec_storage().spec_last_index()
                    &&& final(self).spec_storage().spec_truncated().index
                        >= old(self).spec_storage().spec_truncated().index
                    &&& (forall|j: int| 0 <= j < out.replies@.len()
                        ==> old(self).spec_pending().contains((#[trigger] out.replies@[j])@.id)
                            && !final(self).spec_pending().contains(out.replies@[j]@.id))
                    &&& (forall|p: int, q: int| 0 <= p < q < out.replies@.len()
                        ==> (#[trigger] out.replies@[p])@.id != (#[trigger] out.replies@[q])@.id)
                    &&& (forall|x: u64| #[trigger] final(self).spec_pending().contains(x)
                        ==> old(self).spec_pending().contains(x))
                }
                Err(_) => true,
            },
    {
        let ghost s0 = old(self).spec_storage();
        let ghost pend0 = old(self).spec_pending();
        let ghost es = entries_view(ready.entries@);
        let ghost cmds = entries_view(ready.committed_entries@);
        proof {
            self.storage.lemma_inv_bounds();
        }
        if let Some(snap) = &ready.snapshot {
            if snap.index < self.storage.apply_index() || snap.index == u64::MAX {
                return Err(StoreError::Corrupt);
            }
            match self.storage.apply_snapshot(snap) {
                Ok(_) => {}
                Err(e) => {
                    return Err(e);
                }
            }
        }
        proof {
            assert(self.spec_storage().spec_truncated() == mid_truncated(s0, ready));
            assert(self.spec_storage().spec_last_index() == mid_last_index(s0, ready));
            assert(self.spec_storage().spec_last_term() == mid_last_term(s0, ready));
            assert(self.spec_storage().spec_apply_index() == mid_apply_index(s0, ready));
            assert(self.spec_storage().data_map() == base_data_map(s0, ready));
            assert(self.spec_storage().spec_hard_state() == s0.spec_hard_state());
            if ready.snapshot is None {
                s0.lemma_no_entry_past_tail();
                s0.lemma_entries_present();
            }
        }
        if ready.entries.len() > 0 {
            let ok = self.check_append_pre(&ready.entries);
            if !ok {
                proof {
                    assert(!ArimaStorage::append_pre_at(mid_truncated(s0, ready).index,
                        mid_last_index(s0, ready), mid_apply_index(s0, ready), es));
                }
                return Err(StoreError::Corrupt);
            }
            let ghost pre_append = self.spec_storage();
            self.storage.append(ready.entries.as_slice());
            proof {
                ArimaStorage::lemma_data_map_frame(self.spec_storage(), pre_append);
            }
        }
        let ghost ptrunc = mid_truncated(s0, ready);
        let ghost plast = post_last_index(s0, ready);
        let ghost plterm = if es.len() > 0 { es.last().term } else { mid_last_term(s0, ready) };
        proof {
            assert(self.spec_storage().spec_truncated() == ptrunc);
            assert(self.spec_storage().spec_last_index() == plast);
            assert(self.spec_storage().spec_last_term() == plterm);
            assert(self.spec_storage().spec_apply_index() == mid_apply_index(s0, ready));
            assert(self.spec_storage().data_map() == base_data_map(s0, ready));
            assert forall|i: u64| #![trigger log_key(i)] i > plast
                implies !self.spec_storage().has_entry(i) by {}
            assert forall|i: u64| #![trigger log_key(i)] ptrunc.index < i <= plast
                implies self.spec_storage().has_entry(i)
                    && self.spec_storage().entry_at(i) == (if es.len() > 0
                        && i >= es[0].index {
                        es[i - es[0].index]
                    } else {
                        s0.entry_at(i)
                    }) by {}
        }
        if let Some(hs) = &ready.hard_state {
            let ghost pre_h = self.spec_storage();
            self.storage.put_hard_state(hs);
            proof {
                ArimaStorage::lemma_data_map_frame(self.spec_storage(), pre_h);
                assert forall|i: u64| #![trigger log_key(i)] ptrunc.index < i <= plast
                    implies self.spec_storage().has_entry(i)
                        && self.spec_storage().entry_at(i) == (if es.len() > 0
                            && i >= es[0].index {
                            es[i - es[0].index]
                        } else {
                            s0.entry_at(i)
                        }) by {
                    assert(pre_h.has_entry(i));
                }
            }
        }
        proof {
            assert(self.spec_storage().spec_hard_state() == (match ready.hard_state {
                Some(h) => h,
                None => s0.spec_hard_state(),
            }));
        }
        let mut replies: Vec<Response> = Vec::new();
        let n = ready.committed_entries.len();
        let mut j: usize = 0;
        let mut last_applied: u64 = 0;
        let ghost mid = *self;
        let ghost base = base_data_map(s0, ready);
        proof {
            assert(cmds.take(0) =~= Seq::<EntryModel>::empty());
            assert(apply_committed(base, pend0, cmds.take(0))
                == (base, pend0, Seq::<ResponseModel>::empty()));
            assert(replies_view(replies@) =~= Seq::<ResponseModel>::empty());
        }
        while j < n
            invariant
                0 <= j <= n,
                n == ready.committed_entries@.len(),
                cmds == entries_view(ready.committed_entries@),
                es == entries_view(ready.entries@),
                self.inv(),
                self.id == mid.id,
                mid.inv(),
                mid.spec_id() == old(self).spec_id(),
                mid.spec_pending() == pend0,
                pend0 == old(self).spec_pending(),
                s0 == old(self).spec_storage(),
                base == base_data_map(s0, ready),
                ptrunc == mid_truncated(s0, ready),
                plast == post_last_index(s0, ready),
                mid_apply_index(s0, ready) >= s0.spec_apply_index(),
                ptrunc.index >= s0.spec_truncated().index,
                self.spec_storage().spec_truncated() == ptrunc,
                self.spec_storage().spec_last_index() == plast,
                self.spec_storage().spec_last_term() == plterm,
                self.spec_storage().spec_apply_index() == mid_apply_index(s0, ready),
                self.spec_storage().spec_voters() == (match ready.snapshot {
                    Some(sn) => sn@.voters,
                    None => s0.spec_voters(),
                }),
                self.spec_storage().spec_hard_state() == (match ready.hard_state {
                    Some(h) => h,
                    None => s0.spec_hard_state(),
                }),
                forall|i: u64| #![trigger log_key(i)] i > plast
                    ==> !self.spec_storage().has_entry(i),
                forall|i: u64| #![trigger log_key(i)] ptrunc.index < i <= plast
                    ==> self.spec_storage().has_entry(i)
                        && self.spec_storage().entry_at(i) == (if es.len() > 0
                            && i >= es[0].index {
                            es[i - es[0].index]
                        } else {
                            s0.entry_at(i)
                        }),
                self.spec_storage().data_map()
                    == apply_committed(base, pend0, cmds.take(j as int)).0,
                self.spec_pending() == apply_committed(base, pend0, cmds.take(j as int)).1,
                replies_view(replies@) == apply_committed(base, pend0, cmds.take(j as int)).2,
                last_applied == max_committed_index(cmds.take(j as int)),
                last_applied <= plast || last_applied == 0,
                forall|p: int| 0 <= p < j ==> (#[trigger] cmds[p]).index <= plast,
                forall|p: int| 0 <= p < j ==> is_noop_entry(#[trigger] cmds[p])
                    || (dec_request(cmds[p].data) is Some
                        && {
                            let op = dec_request(cmds[p].data).unwrap().op;
                            op == OP_READ || op == OP_WRITE || op == OP_DELETE
                        }),
                forall|p: int| 0 <= p < replies@.len()
                    ==> mid.spec_pending().contains((#[trigger] replies@[p])@.id)
                        && !self.spec_pending().contains(replies@[p]@.id),
                forall|p: int, q: int| 0 <= p < q < replies@.len()
                    ==> (#[trigger] replies@[p])@.id != (#[trigger] replies@[q])@.id,
                forall|x: u64| #[trigger] self.spec_pending().contains(x)
                    ==> mid.spec_pending().contains(x),
            decreases n - j,
        {
            let entry = &ready.committed_entries[j];
            proof {
                assert(cmds[j as int] == ready.committed_entries@[j as int]@);
            }
            if entry.index > self.storage.last_index() {
                proof {
                    assert(cmds[j as int].index > post_last_index(s0, ready));
                }
                return Err(StoreError::Corrupt);
            }
            if entry.index > last_applied {
                last_applied = entry.index;
            }
            proof {
                assert(cmds.take(j as int + 1).drop_last() =~= cmds.take(j as int));
                assert(cmds.take(j as int + 1).last() == cmds[j as int]);
                assert(last_applied == max_committed_index(cmds.take(j as int + 1)));
            }
            let ghost stepped_prev = apply_committed(base, pend0, cmds.take(j as int));
            if entry.data.len() > 0 {
                match entry.kind {
                    EntryKind::Normal => {
                        proof {
                            assert(!is_noop_entry(cmds[j as int]));
                        }
                        let req = match dec_request_bytes(entry.data.as_slice()) {
                            Some(req) => req,
                            None => {
                                proof {
                                    assert(dec_request(cmds[j as int].data) is None);
                                }
                                return Err(StoreError::Corrupt);
                            }
                        };
                        proof {
                            assert(dec_request(cmds[j as int].data) == Some(req@));
                        }
                        if req.op != OP_READ && req.op != OP_WRITE && req.op != OP_DELETE {
                            proof {
                                assert(dec_request(cmds[j as int].data).unwrap().op != OP_READ
                                    && dec_request(cmds[j as int].data).unwrap().op != OP_WRITE
                                    && dec_request(cmds[j as int].data).unwrap().op
                                        != OP_DELETE);
                            }
                            return Err(StoreError::UnknownOp);
                        }
                        let ghost pre_cmd = *self;
                        let resp = self.on_request(&req);
                        proof {
                            // The applied command matches the specified step.
                            assert(stepped_prev.0 == pre_cmd.spec_storage().data_map());
                            if req@.op == OP_READ {
                                assert(resp@.value == pre_cmd.spec_storage().data_at(req@.key));
                                assert(resp@.value == (if stepped_prev.0.contains_key(req@.key) {
                                    Some(stepped_prev.0[req@.key])
                                } else {
                                    None
                                }));
                            }
                        }
                        let ghost before = *self;
                        let resolved = self.take_pending(resp.id);
                        let ghost prev_replies = replies@;
                        let ghost rid = resp@.id;
                        if resolved {
                            replies.push(resp);
                            proof {
                                assert(replies@ == prev_replies.push(replies@[replies@.len() - 1]));
                                assert forall|p: int| 0 <= p < replies@.len()
                                    implies mid.spec_pending()
                                        .contains((#[trigger] replies@[p])@.id)
                                        && !self.spec_pending().contains(replies@[p]@.id) by {
                                    if p < prev_replies.len() {
                                        assert(replies@[p] == prev_replies[p]);
                                        assert(!before.spec_pending()
                                            .contains(prev_replies[p]@.id));
                                    } else {
                                        assert(replies@[p]@.id == rid);
                                        assert(before.spec_pending().contains(rid));
                                        assert(mid.spec_pending().contains(rid));
                                    }
                                }
                                assert forall|p: int, q: int| 0 <= p < q < replies@.len()
                                    implies (#[trigger] replies@[p])@.id
                                        != (#[trigger] replies@[q])@.id by {
                                    if q == replies@.len() - 1 {
                                        assert(!before.spec_pending()
                                            .contains(prev_replies[p]@.id));
                                        assert(before.spec_pending().contains(rid));
                                    }
                                }
                            }
                        }
                        proof {
                            // The three accumulators track the fold.
                            let stepped = apply_committed(base, pend0, cmds.take(j as int + 1));
                            assert(before.spec_pending() == stepped_prev.1);
                            if resolved {
                                assert(self.spec_pending()
                                    == drop_id(stepped_prev.1, req@.id));
                                assert(replies_view(replies@)
                                    =~= replies_view(prev_replies).push(resp@));
                            }
                            assert(self.spec_storage().data_map() == stepped.0);
                            assert(self.spec_pending() == stepped.1);
                            assert(replies_view(replies@) == stepped.2);
                        }
                    }
                    EntryKind::ConfChange => {
                        proof {
                            assert(is_noop_entry(cmds[j as int]));
                            assert(apply_committed(base, pend0, cmds.take(j as int + 1))
                                == stepped_prev);
                        }
                    }
                }
            } else {
                proof {
                    assert(cmds[j as int].data.len() == 0);
                    assert(is_noop_entry(cmds[j as int]));
                    assert(apply_committed(base, pend0, cmds.take(j as int + 1))
                        == stepped_prev);
                }
            }
            j = j + 1;
        }
        proof {
            assert(cmds.take(n as int) =~= cmds);
        }
        let ghost pend_after = self.spec_pending();
        proof {
            assert forall|jj: int| 0 <= jj < replies@.len()
                implies old(self).spec_pending().contains((#[trigger] replies@[jj])@.id)
                    && !pend_after.contains(replies@[jj]@.id) by {
                assert(mid.spec_pending().contains(replies@[jj]@.id));
            }
            assert forall|x: u64| #[trigger] pend_after.contains(x)
                implies old(self).spec_pending().contains(x) by {
                assert(mid.spec_pending().contains(x));
            }
        }
        if last_applied > 0 {
            if last_applied < self.storage.apply_index() {
                proof {
                    assert(max_committed_index(cmds) > 0);
                    assert(max_committed_index(cmds) < mid_apply_index(s0, ready));
                }
                return Err(StoreError::Corrupt);
            }
            let ghost pre_a = self.spec_storage();
            self.storage.advance_apply(last_applied);
            proof {
                ArimaStorage::lemma_data_map_frame(self.spec_storage(), pre_a);
                assert forall|i: u64| #![trigger log_key(i)] ptrunc.index < i <= plast
                    implies self.spec_storage().has_entry(i)
                        && self.spec_storage().entry_at(i) == (if es.len() > 0
                            && i >= es[0].index {
                            es[i - es[0].index]
                        } else {
                            s0.entry_at(i)
                        }) by {
                    assert(pre_a.has_entry(i));
                }
            }
        }
        proof {
            assert(self.spec_pending() == pend_after);
            self.storage.lemma_inv_bounds();
            assert(spec_ready_ok(s0, ready));
            assert(self.spec_storage().spec_apply_index()
                == (if max_committed_index(cmds) > 0 {
                    max_committed_index(cmds)
                } else {
                    mid_apply_index(s0, ready)
                }));
        }
        Ok(ReadyOutcome { messages: ready.messages, replies })
    }

    /// Check at run time whether a batch satisfies the append contract;
    /// the answer is exact, and the consensus core never hands out a batch
    /// that fails it.
    fn check_append_pre(&self, entries: &Vec<LogEntry>) -> (ok: bool)
        requires
            self.inv(),
            entries@.len() > 0,
        ensures
            ok == self.spec_storage().append_pre(entries_view(entries@)),
    {
        proof {
            self.storage.lemma_inv_bounds();
        }
        let ghost ev = entries_view(entries@);
        let n = entries.len();
        let first = entries[0].index;
        proof {
            assert(ev[0] == entries@[0]@);
        }
        if first <= self.storage.truncated_state().index {
            return false;
        }
        if first > u64::MAX - (n as u64) {
            proof {
                assert(!self.spec_storage().append_pre(ev)) by {
                    if self.spec_storage().append_pre(ev) {
                        assert(ev[n - 1].index == ev[0].index + (n - 1));
                        assert(ev[n - 1].index < u64::MAX);
                    }
                }
            }
            return false;
        }
        let last = first + (n as u64) - 1;
        if first > self.storage.last_index() + 1 {
            return false;
        }
        if last < self.storage.apply_index() {
            proof {
                assert(!self.spec_storage().append_pre(ev)) by {
                    if self.spec_storage().append_pre(ev) {
                        assert(ev[n - 1].index == ev[0].index + (n - 1));
                    }
                }
            }
            return false;
        }
        let mut j: usize = 1;
        while j < n
            invariant
                1 <= j <= n,
                n == entries@.len(),
                ev == entries_view(entries@),
                first == entries@[0]@.index,
                first + n <= u64::MAX,
                forall|p: int| 0 <= p < j
                    ==> (#[trigger] entries@[p]@.index) == first + p,
            decreases n - j,
        {
            if entries[j].index != first + (j as u64) {
                proof {
                    assert(ev[j as int] == entries@[j as int]@);
                    assert(!self.spec_storage().append_pre(ev)) by {
                        if self.spec_storage().append_pre(ev) {
                            assert(ev[j as int].index == ev[0].index + j);
                        }
                    }
                }
                return false;
            }
            j = j + 1;
        }
        proof {
            assert forall|p: int| 0 <= p < ev.len()
                implies (#[trigger] ev[p]).index == ev[0].index + p by {
                assert(ev[p] == entries@[p]@);
            }
            assert(ev[entries@.len() - 1] == entries@[n - 1]@);
            assert(ev[n - 1].index == last);
        }
        true
    }
}

} // verus!
