//! The durable log store: an append-only replicated log with a compaction
//! boundary, persisted metadata and the data namespace, all kept in one
//! ordered key-value engine.
//!
//! The struct caches the scalar state (compaction boundary, tail position,
//! apply index, voter set); the invariant [`ArimaStorage::inv`] ties the
//! cache to the persisted image, so that recovery after a restart
//! reconstructs exactly the state that was last persisted.

use vstd::prelude::*;
use crate::kv::{KV, BatchOp};
use crate::keys::{log_key, is_log_key, log_key_index, meta_key, data_key, be_bytes, be_val,
    raft_log_key, decode_raft_log_key, data_key_of, mk_meta_key, u64_to_be, be_to_u64,
    lemma_be_bytes_val, lemma_be_val_bound, lemma_pow256_values, lemma_be_order,
    RAFT_HARD_STATE_KEY, RAFT_CONF_STATE_KEY, RAFT_TRUNCATED_STATE_KEY, RAFT_APPLY_INDEX_KEY,
    NODE_ID_KEY, DATA_PREFIX, LOG_PREFIX};
use crate::order::{lex_lt, lex_le, lemma_lex_total, lemma_lex_irrefl};
use crate::types::{TruncatedState, HardState, ConfState, LogEntry, EntryModel, Snapshot,
    SnapshotModel, RowModel, StoreError};
use crate::codec::{enc_entry, dec_entry, enc_entry_bytes, dec_entry_bytes, enc_trunc, dec_trunc,
    enc_trunc_bytes, dec_trunc_bytes, enc_hard, dec_hard, enc_hard_bytes, dec_hard_bytes,
    enc_u64s, dec_u64s, enc_u64s_bytes, dec_u64s_bytes, enc_rows, dec_rows, enc_rows_bytes,
    dec_rows_bytes, lemma_entry_roundtrip, lemma_trunc_roundtrip, lemma_hard_roundtrip,
    lemma_u64s_roundtrip, lemma_rows_roundtrip};

verus! {

broadcast use crate::keys::lemma_log_key_shape;

/// A log key string decodes back to the index it was built from.
pub proof fn lemma_log_key_inverse(k: Seq<u8>)
    requires
        is_log_key(k),
    ensures
        0 <= log_key_index(k) < 0x1_0000_0000_0000_0000,
        log_key(log_key_index(k) as u64) == k,
{
    lemma_be_val_bound(k.skip(1));
    lemma_pow256_values();
    let v = log_key_index(k) as u64;
    lemma_be_bytes_val(v);
    let e = log_key(v);
    assert(e.len() == 9 && k.len() == 9);
    assert(e[0] == LOG_PREFIX && k[0] == LOG_PREFIX);
    assert(e.skip(1) =~= be_bytes(v));
    assert(be_val(e.skip(1)) == be_val(k.skip(1)));
    // Equal values of equal-length strings force equal strings.
    lemma_be_order(e.skip(1), k.skip(1));
    lemma_be_order(k.skip(1), e.skip(1));
    crate::order::lemma_lex_total(e.skip(1), k.skip(1));
    assert(e.skip(1) == k.skip(1));
    assert(e =~= k);
}

/// The view of a slice of entries.
pub open spec fn entries_view(es: Seq<LogEntry>) -> Seq<EntryModel> {
    es.map_values(|e: LogEntry| e@)
}

/// The log store.
pub struct ArimaStorage {
    /// This node's id.
    pub id: u64,
    kv: KV,
    truncated_state: TruncatedState,
    last_index: u64,
    last_term: u64,
    apply_index: u64,
    conf_state: ConfState,
}

impl ArimaStorage {
    /// The persisted image.
    pub closed spec fn contents(self) -> Map<Seq<u8>, Seq<u8>> {
        self.kv.contents()
    }

    /// The compaction boundary.
    pub closed spec fn spec_truncated(self) -> TruncatedState {
        self.truncated_state
    }

    /// The index of the last log position.
    pub closed spec fn spec_last_index(self) -> u64 {
        self.last_index
    }

    /// The term of the last log position.
    pub closed spec fn spec_last_term(self) -> u64 {
        self.last_term
    }

    /// The highest applied index.
    pub closed spec fn spec_apply_index(self) -> u64 {
        self.apply_index
    }

    /// The current voter set.
    pub closed spec fn spec_voters(self) -> Seq<u64> {
        self.conf_state@
    }

    /// This node's id.
    pub closed spec fn spec_id(self) -> u64 {
        self.id
    }

    /// Whether a log entry is stored at index `i`.
    pub open spec fn has_entry(self, i: u64) -> bool {
        self.contents().contains_key(log_key(i))
    }

    /// The stored entry at index `i`.
    pub open spec fn entry_at(self, i: u64) -> EntryModel {
        dec_entry(self.contents()[log_key(i)]).unwrap()
    }

    /// The value of the data row at user key `k`, if any.
    pub open spec fn data_at(self, k: Seq<u8>) -> Option<Seq<u8>> {
        if self.contents().contains_key(data_key(k)) {
            Some(self.contents()[data_key(k)])
        } else {
            None
        }
    }

    /// The whole data namespace as a map from user key to value.
    pub open spec fn data_map(self) -> Map<Seq<u8>, Seq<u8>> {
        Map::new(
            |uk: Seq<u8>| self.contents().contains_key(data_key(uk)),
            |uk: Seq<u8>| self.contents()[data_key(uk)],
        )
    }

    /// Pointwise equal data rows give equal data maps.
    pub proof fn lemma_data_map_frame(a: Self, b: Self)
        requires
            forall|uk: Seq<u8>| #![trigger data_key(uk)] a.data_at(uk) == b.data_at(uk),
        ensures
            a.data_map() == b.data_map(),
    {
        assert forall|uk: Seq<u8>| #[trigger] a.data_map().contains_key(uk)
            == b.data_map().contains_key(uk) by {
            assert(a.data_at(uk) == b.data_at(uk));
        }
        assert forall|uk: Seq<u8>| a.data_map().contains_key(uk)
            implies #[trigger] a.data_map()[uk] == b.data_map()[uk] by {
            assert(a.data_at(uk) == b.data_at(uk));
        }
        assert(a.data_map() =~= b.data_map());
    }

    /// A write of one data row is an insert on the data map.
    pub proof fn lemma_data_map_insert(pre: Self, post: Self, uk: Seq<u8>, v: Seq<u8>)
        requires
            post.contents() == pre.contents().insert(data_key(uk), v),
        ensures
            post.data_map() == pre.data_map().insert(uk, v),
    {
        assert forall|u2: Seq<u8>| #[trigger] post.data_map().contains_key(u2)
            == pre.data_map().insert(uk, v).contains_key(u2) by {
            if u2 != uk {
                Self::lemma_data_key_injective(u2, uk);
            }
        }
        assert forall|u2: Seq<u8>| post.data_map().contains_key(u2)
            implies #[trigger] post.data_map()[u2] == pre.data_map().insert(uk, v)[u2] by {
            if u2 != uk {
                Self::lemma_data_key_injective(u2, uk);
            }
        }
        assert(post.data_map() =~= pre.data_map().insert(uk, v));
    }

    /// A removal of one data row is a remove on the data map.
    pub proof fn lemma_data_map_remove(pre: Self, post: Self, uk: Seq<u8>)
        requires
            post.contents() == pre.contents().remove(data_key(uk)),
        ensures
            post.data_map() == pre.data_map().remove(uk),
    {
        assert forall|u2: Seq<u8>| #[trigger] post.data_map().contains_key(u2)
            == pre.data_map().remove(uk).contains_key(u2) by {
            if u2 != uk {
                Self::lemma_data_key_injective(u2, uk);
            }
        }
        assert forall|u2: Seq<u8>| post.data_map().contains_key(u2)
            implies #[trigger] post.data_map()[u2] == pre.data_map().remove(uk)[u2] by {
            if u2 != uk {
                Self::lemma_data_key_injective(u2, uk);
            }
        }
        assert(post.data_map() =~= pre.data_map().remove(uk));
    }

    /// The stored hard state, defaulting to zeroes when absent.
    pub open spec fn spec_hard_state(self) -> HardState {
        if self.contents().contains_key(meta_key(RAFT_HARD_STATE_KEY)) {
            dec_hard(self.contents()[meta_key(RAFT_HARD_STATE_KEY)]).unwrap()
        } else {
            HardState { term: 0, vote: 0, commit: 0 }
        }
    }

    /// Scalar bounds: compaction boundary, apply index and tail are ordered.
    pub closed spec fn inv_scalars(self) -> bool {
        &&& self.truncated_state.index <= self.apply_index
        &&& self.apply_index <= self.last_index
        &&& self.last_index < u64::MAX
        &&& (self.last_index == self.truncated_state.index
            ==> self.last_term == self.truncated_state.term)
    }

    /// The log namespace holds exactly the entries between the compaction
    /// boundary and the tail, each decodable and indexed by its key.
    pub closed spec fn inv_log(self) -> bool {
        &&& (forall|i: u64| #![trigger log_key(i)]
            self.truncated_state.index < i <= self.last_index
                ==> self.kv.contents().contains_key(log_key(i))
                    && dec_entry(self.kv.contents()[log_key(i)]) is Some
                    && dec_entry(self.kv.contents()[log_key(i)]).unwrap().index == i)
        &&& (self.truncated_state.index < self.last_index
            ==> dec_entry(self.kv.contents()[log_key(self.last_index)]).unwrap().term
                == self.last_term)
        &&& (forall|k: Seq<u8>|
            #[trigger] self.kv.contents().contains_key(k) && k.len() >= 1 && k[0] == LOG_PREFIX
                ==> is_log_key(k)
                    && self.truncated_state.index < log_key_index(k) <= self.last_index
                    && k == log_key(log_key_index(k) as u64))
    }

    /// Every persisted metadata record decodes and matches the cached state.
    pub closed spec fn inv_meta(self) -> bool {
        let m = self.kv.contents();
        &&& (m.contains_key(meta_key(RAFT_TRUNCATED_STATE_KEY))
            ==> dec_trunc(m[meta_key(RAFT_TRUNCATED_STATE_KEY)]) == Some(self.truncated_state))
        &&& (!m.contains_key(meta_key(RAFT_TRUNCATED_STATE_KEY))
            ==> self.truncated_state == (TruncatedState { index: 0u64, term: 0u64 }))
        &&& (m.contains_key(meta_key(RAFT_APPLY_INDEX_KEY))
            ==> m[meta_key(RAFT_APPLY_INDEX_KEY)] == be_bytes(self.apply_index))
        &&& (!m.contains_key(meta_key(RAFT_APPLY_INDEX_KEY)) ==> self.apply_index == 0)
        &&& (m.contains_key(meta_key(RAFT_CONF_STATE_KEY))
            ==> dec_u64s(m[meta_key(RAFT_CONF_STATE_KEY)]) == Some(self.conf_state@))
        &&& (!m.contains_key(meta_key(RAFT_CONF_STATE_KEY)) ==> self.conf_state@ == Seq::<u64>::empty())
        &&& (m.contains_key(meta_key(RAFT_HARD_STATE_KEY))
            ==> dec_hard(m[meta_key(RAFT_HARD_STATE_KEY)]) is Some)
        &&& (m.contains_key(meta_key(NODE_ID_KEY))
            ==> m[meta_key(NODE_ID_KEY)].len() == 8)
    }

    /// The well-formedness invariant: the cached scalars agree with the
    /// persisted image, the log namespace holds exactly the entries between
    /// the compaction boundary and the tail, and every persisted metadata
    /// record decodes.
    pub closed spec fn inv(self) -> bool {
        &&& self.kv.wf()
        &&& self.inv_scalars()
        &&& self.inv_log()
        &&& self.inv_meta()
    }

    /// No entry is stored past the tail.
    pub proof fn lemma_no_entry_past_tail(self)
        requires
            self.inv(),
        ensures
            forall|i: u64| #![trigger log_key(i)]
                i > self.spec_last_index() ==> !self.has_entry(i),
    {
        assert forall|i: u64| #![trigger log_key(i)] i > self.spec_last_index()
            implies !self.has_entry(i) by {
            if self.has_entry(i) {
                assert(log_key(i)[0] == LOG_PREFIX);
                assert(log_key_index(log_key(i)) == i);
            }
        }
    }

    /// Every position between the boundary and the tail holds an entry.
    pub proof fn lemma_entries_present(self)
        requires
            self.inv(),
        ensures
            forall|i: u64| #![trigger log_key(i)]
                self.spec_truncated().index < i <= self.spec_last_index()
                    ==> self.has_entry(i),
    {
    }

    /// The invariant's scalar consequences, for callers outside this module.
    pub proof fn lemma_inv_bounds(self)
        requires
            self.inv(),
        ensures
            self.spec_truncated().index <= self.spec_apply_index(),
            self.spec_apply_index() <= self.spec_last_index(),
            self.spec_last_index() < u64::MAX,
    {
    }

    /// The index of the first undiscarded log position.
    pub fn first_index(&self) -> (r: u64)
        requires
            self.inv(),
        ensures
            r == self.spec_truncated().index + 1,
    {
        self.truncated_state.index + 1
    }

    /// The index of the last log position.
    pub fn last_index(&self) -> (r: u64)
        ensures
            r == self.spec_last_index(),
    {
        self.last_index
    }

    /// The highest applied index.
    pub fn apply_index(&self) -> (r: u64)
        ensures
            r == self.spec_apply_index(),
    {
        self.apply_index
    }

    /// The compaction boundary.
    pub fn truncated_state(&self) -> (r: TruncatedState)
        ensures
            r == self.spec_truncated(),
    {
        self.truncated_state
    }

    /// Whether a requested range of log positions can be served.
    ///
    /// `low` at or below the compaction boundary is `Compacted`.  A
    /// backwards range or one past the tail is a caller bug of the fatal
    /// class, which the consensus core never commits; such ranges are
    /// outside the domain, and the boundary that talks to the core checks
    /// them and aborts as the fatal class demands.
    pub fn check_range(&self, low: u64, high: u64) -> (r: Result<(), StoreError>)
        requires
            self.inv(),
            low <= high,
            high <= self.spec_last_index() + 1,
        ensures
            r == self.spec_check_range(low, high),
    {
        if low > high {
            Err(StoreError::InvalidRange)
        } else if low <= self.truncated_state.index {
            Err(StoreError::Compacted)
        } else if high > self.last_index + 1 {
            Err(StoreError::InvalidRange)
        } else {
            Ok(())
        }
    }

    /// What `check_range` decides.
    pub open spec fn spec_check_range(self, low: u64, high: u64) -> Result<(), StoreError> {
        if low > high {
            Err(StoreError::InvalidRange)
        } else if low <= self.spec_truncated().index {
            Err(StoreError::Compacted)
        } else if high > self.spec_last_index() + 1 {
            Err(StoreError::InvalidRange)
        } else {
            Ok(())
        }
    }

    /// The state the consensus core needs to resume: the persisted hard
    /// state (zeroes when none was written) and the voter set.
    pub fn initial_state(&self) -> (r: (HardState, ConfState))
        requires
            self.inv(),
        ensures
            r.0 == self.spec_hard_state(),
            r.1@ == self.spec_voters(),
    {
        let key = mk_meta_key(RAFT_HARD_STATE_KEY);
        let hard = match self.kv.get(key.as_slice()) {
            Some(v) => {
                match dec_hard_bytes(v.as_slice()) {
                    Some(h) => h,
                    None => {
                        // Unreachable under the invariant: a stored hard
                        // state always decodes.
                        proof {
                            assert(false);
                        }
                        HardState { term: 0, vote: 0, commit: 0 }
                    }
                }
            }
            None => HardState { term: 0, vote: 0, commit: 0 },
        };
        let voters = crate::kv::copy_u64s(&self.conf_state.voters);
        (hard, ConfState { voters })
    }

    /// The log-namespace part of the invariant survives a write at any
    /// single key outside the log namespace.
    proof fn lemma_inv_log_frame(prev: Self, cur: Self, wkey: Seq<u8>)
        requires
            prev.inv(),
            cur.truncated_state == prev.truncated_state,
            cur.last_index == prev.last_index,
            cur.last_term == prev.last_term,
            wkey.len() >= 1,
            wkey[0] != LOG_PREFIX,
            forall|k: Seq<u8>| k != wkey
                ==> (#[trigger] cur.kv.contents().contains_key(k)
                        == prev.kv.contents().contains_key(k))
                    && (cur.kv.contents().contains_key(k)
                        ==> cur.kv.contents()[k] == prev.kv.contents()[k]),
        ensures
            cur.inv_log(),
    {
        let m = cur.kv.contents();
        let p = prev.kv.contents();
        assert forall|i: u64|
            cur.truncated_state.index < i <= cur.last_index
            implies #[trigger] m.contains_key(log_key(i))
                && dec_entry(m[log_key(i)]) is Some
                && dec_entry(m[log_key(i)]).unwrap().index == i by {
            crate::keys::lemma_log_key_shape(i);
            assert(log_key(i)[0] == LOG_PREFIX);
            assert(log_key(i) != wkey);
            assert(p.contains_key(log_key(i)));
            assert(dec_entry(p[log_key(i)]) is Some);
            assert(dec_entry(p[log_key(i)]).unwrap().index == i);
            assert(m.contains_key(log_key(i)) == p.contains_key(log_key(i)));
            assert(m.contains_key(log_key(i)));
            assert(m[log_key(i)] == p[log_key(i)]);
        }
        if cur.truncated_state.index < cur.last_index {
            crate::keys::lemma_log_key_shape(cur.last_index);
            assert(log_key(cur.last_index)[0] == LOG_PREFIX);
            assert(log_key(cur.last_index) != wkey);
            assert(p.contains_key(log_key(cur.last_index)));
            assert(m.contains_key(log_key(cur.last_index)));
            assert(m[log_key(cur.last_index)] == p[log_key(cur.last_index)]);
            assert(dec_entry(m[log_key(cur.last_index)]).unwrap().term == cur.last_term);
        }
        assert forall|k: Seq<u8>|
            #[trigger] m.contains_key(k) && k.len() >= 1 && k[0] == LOG_PREFIX
            implies is_log_key(k)
                && cur.truncated_state.index < log_key_index(k) <= cur.last_index
                && k == log_key(log_key_index(k) as u64) by {
            assert(k != wkey);
            assert(p.contains_key(k));
        }
        assert(cur.inv_log()) by {
            assert(forall|i: u64| #![trigger log_key(i)]
                cur.truncated_state.index < i <= cur.last_index
                    ==> cur.kv.contents().contains_key(log_key(i))
                        && dec_entry(cur.kv.contents()[log_key(i)]) is Some
                        && dec_entry(cur.kv.contents()[log_key(i)]).unwrap().index == i);
            assert(cur.truncated_state.index < cur.last_index
                ==> dec_entry(cur.kv.contents()[log_key(cur.last_index)]).unwrap().term
                    == cur.last_term);
            assert(forall|k: Seq<u8>|
                #[trigger] cur.kv.contents().contains_key(k) && k.len() >= 1
                    && k[0] == LOG_PREFIX
                    ==> is_log_key(k)
                        && cur.truncated_state.index < log_key_index(k) <= cur.last_index
                        && k == log_key(log_key_index(k) as u64));
        }
    }

    /// Persist a changed hard state.
    #[verifier::rlimit(100)]
    pub fn put_hard_state(&mut self, hs: &HardState)
        requires
            old(self).inv(),
        ensures
            final(self).inv(),
            final(self).contents()
                == old(self).contents().insert(meta_key(RAFT_HARD_STATE_KEY), enc_hard(*hs)),
            final(self).spec_hard_state() == *hs,
            final(self).spec_truncated() == old(self).spec_truncated(),
            final(self).spec_last_index() == old(self).spec_last_index(),
            final(self).spec_last_term() == old(self).spec_last_term(),
            final(self).spec_apply_index() == old(self).spec_apply_index(),
            final(self).spec_voters() == old(self).spec_voters(),
            final(self).spec_id() == old(self).spec_id(),
            forall|i: u64| #![trigger log_key(i)]
                final(self).has_entry(i) == old(self).has_entry(i)
                    && (final(self).has_entry(i)
                        ==> final(self).entry_at(i) == old(self).entry_at(i)),
            forall|uk: Seq<u8>| #![trigger data_key(uk)]
                final(self).data_at(uk) == old(self).data_at(uk),
    {
        let key = mk_meta_key(RAFT_HARD_STATE_KEY);
        let value = enc_hard_bytes(hs);
        self.kv.put(key.as_slice(), value.as_slice());
        proof {
            lemma_hard_roundtrip(*hs);
            self.lemma_meta_put_preserves(*old(self), RAFT_HARD_STATE_KEY);
            Self::lemma_inv_log_frame(*old(self), *self, meta_key(RAFT_HARD_STATE_KEY));
            let m = self.kv.contents();
            let p = old(self).kv.contents();
            assert(self.inv_scalars());
            assert(meta_key(RAFT_TRUNCATED_STATE_KEY) != meta_key(RAFT_HARD_STATE_KEY));
            assert(meta_key(RAFT_APPLY_INDEX_KEY) != meta_key(RAFT_HARD_STATE_KEY));
            assert(meta_key(RAFT_CONF_STATE_KEY) != meta_key(RAFT_HARD_STATE_KEY));
            assert(meta_key(NODE_ID_KEY) != meta_key(RAFT_HARD_STATE_KEY));
            assert(m[meta_key(RAFT_HARD_STATE_KEY)] == enc_hard(*hs));
            assert(self.inv_meta());
            assert(self.inv());
            assert forall|uk: Seq<u8>| #![trigger data_key(uk)]
                self.data_at(uk) == old(self).data_at(uk) by {
                assert(data_key(uk)[0] == DATA_PREFIX);
                assert(data_key(uk) != meta_key(RAFT_HARD_STATE_KEY));
            }
        }
    }

    /// Record a new apply index and persist it.
    #[verifier::rlimit(100)]
    pub fn advance_apply(&mut self, index: u64)
        requires
            old(self).inv(),
            old(self).spec_apply_index() <= index,
            index <= old(self).spec_last_index(),
        ensures
            final(self).inv(),
            final(self).spec_apply_index() == index,
            final(self).contents()
                == old(self).contents().insert(meta_key(RAFT_APPLY_INDEX_KEY), be_bytes(index)),
            final(self).spec_truncated() == old(self).spec_truncated(),
            final(self).spec_last_index() == old(self).spec_last_index(),
            final(self).spec_last_term() == old(self).spec_last_term(),
            final(self).spec_voters() == old(self).spec_voters(),
            final(self).spec_hard_state() == old(self).spec_hard_state(),
            final(self).spec_id() == old(self).spec_id(),
            forall|i: u64| #![trigger log_key(i)]
                final(self).has_entry(i) == old(self).has_entry(i)
                    && (final(self).has_entry(i)
                        ==> final(self).entry_at(i) == old(self).entry_at(i)),
            forall|uk: Seq<u8>| #![trigger data_key(uk)]
                final(self).data_at(uk) == old(self).data_at(uk),
    {
        let key = mk_meta_key(RAFT_APPLY_INDEX_KEY);
        let value = u64_to_be(index);
        self.kv.put(key.as_slice(), value.as_slice());
        self.apply_index = index;
        proof {
            self.lemma_meta_put_preserves(*old(self), RAFT_APPLY_INDEX_KEY);
            Self::lemma_inv_log_frame(*old(self), *self, meta_key(RAFT_APPLY_INDEX_KEY));
            let m = self.kv.contents();
            let p = old(self).kv.contents();
            assert(self.inv_scalars());
            assert(meta_key(RAFT_TRUNCATED_STATE_KEY) != meta_key(RAFT_APPLY_INDEX_KEY));
            assert(meta_key(RAFT_HARD_STATE_KEY) != meta_key(RAFT_APPLY_INDEX_KEY));
            assert(meta_key(RAFT_CONF_STATE_KEY) != meta_key(RAFT_APPLY_INDEX_KEY));
            assert(meta_key(NODE_ID_KEY) != meta_key(RAFT_APPLY_INDEX_KEY));
            assert(m[meta_key(RAFT_APPLY_INDEX_KEY)] == be_bytes(index));
            assert(self.inv_meta());
            assert(self.inv());
            assert forall|uk: Seq<u8>| #![trigger data_key(uk)]
                self.data_at(uk) == old(self).data_at(uk) by {
                assert(data_key(uk)[0] == DATA_PREFIX);
                assert(data_key(uk) != meta_key(RAFT_APPLY_INDEX_KEY));
            }
        }
    }

    /// A write to a single-byte metadata key leaves the log and data
    /// namespaces and the other metadata keys unchanged.
    proof fn lemma_meta_put_preserves(self, prev: Self, tag: u8)
        requires
            tag < DATA_PREFIX,
            prev.kv.wf(),
            self.kv.contents() == prev.kv.contents().insert(meta_key(tag), self.kv.contents()[meta_key(tag)]),
        ensures
            meta_key(tag).len() == 1,
            meta_key(tag)[0] == tag,
            forall|k: Seq<u8>| k != meta_key(tag)
                ==> (#[trigger] self.kv.contents().contains_key(k)
                        == prev.kv.contents().contains_key(k))
                    && (self.kv.contents().contains_key(k)
                        ==> self.kv.contents()[k] == prev.kv.contents()[k]),
            forall|i: u64| (#[trigger] self.kv.contents().contains_key(log_key(i))
                    == prev.kv.contents().contains_key(log_key(i)))
                && (self.kv.contents().contains_key(log_key(i))
                    ==> self.kv.contents()[log_key(i)] == prev.kv.contents()[log_key(i)]),
            forall|t2: u8| t2 != tag ==> meta_key(t2) != meta_key(tag),
            forall|uk: Seq<u8>| (#[trigger] self.kv.contents().contains_key(data_key(uk))
                    == prev.kv.contents().contains_key(data_key(uk)))
                && (self.kv.contents().contains_key(data_key(uk))
                    ==> self.kv.contents()[data_key(uk)] == prev.kv.contents()[data_key(uk)]),
    {
        assert forall|i: u64| (#[trigger] self.kv.contents().contains_key(log_key(i))
                == prev.kv.contents().contains_key(log_key(i)))
            && (self.kv.contents().contains_key(log_key(i))
                ==> self.kv.contents()[log_key(i)] == prev.kv.contents()[log_key(i)]) by {
            assert(log_key(i).len() == 9);
            assert(meta_key(tag).len() == 1);
            assert(log_key(i) != meta_key(tag));
        }
        assert forall|t2: u8| t2 != tag implies meta_key(t2) != meta_key(tag) by {
            assert(meta_key(t2)[0] == t2);
            assert(meta_key(tag)[0] == tag);
        }
        assert forall|uk: Seq<u8>| (#[trigger] self.kv.contents().contains_key(data_key(uk))
                == prev.kv.contents().contains_key(data_key(uk)))
            && (self.kv.contents().contains_key(data_key(uk))
                ==> self.kv.contents()[data_key(uk)] == prev.kv.contents()[data_key(uk)]) by {
            assert(data_key(uk)[0] == DATA_PREFIX);
            assert(meta_key(tag)[0] == tag);
            assert(data_key(uk) != meta_key(tag));
        }
    }


    /// The stored entries from `low` (inclusive) to `high` (exclusive), as
    /// models.
    pub open spec fn log_slice(self, low: u64, high: u64) -> Seq<EntryModel> {
        Seq::new((high - low) as nat, |j: int| self.entry_at((low + j) as u64))
    }

    /// How many entries starting at `i` fit in `budget` bytes of stored
    /// encoding.
    pub open spec fn size_count(self, i: u64, high: u64, budget: int) -> int
        decreases high - i,
    {
        if i >= high {
            0
        } else if self.contents()[log_key(i)].len() > budget {
            0
        } else {
            1 + self.size_count((i + 1) as u64, high, budget - self.contents()[log_key(i)].len())
        }
    }

    /// How many of the entries in `[low, high)` a query with limit `max`
    /// returns: all of them when no limit is given, and otherwise as many as
    /// fit the limit, but always at least the first.
    pub open spec fn limited_count(self, low: u64, high: u64, max: Option<u64>) -> int {
        match max {
            None => high - low,
            Some(m) => if low == high {
                0
            } else {
                1 + self.size_count((low + 1) as u64, high,
                    m - self.contents()[log_key(low)].len())
            },
        }
    }

    /// Read the entries in `[low, high)`, stopping early only when a size
    /// limit is given and reached, but always returning at least one entry
    /// of a non-empty range.  A backwards range or one past the tail is a
    /// caller bug of the fatal class and lies outside the domain.
    #[verifier::rlimit(100)]
    pub fn entries(&self, low: u64, high: u64, max_size: Option<u64>) -> (r: Result<Vec<LogEntry>, StoreError>)
        requires
            self.inv(),
            low <= high,
            high <= self.spec_last_index() + 1,
        ensures
            match r {
                Ok(v) => self.spec_check_range(low, high) is Ok
                    && entries_view(v@) == Seq::new(
                        self.limited_count(low, high, max_size) as nat,
                        |j: int| self.entry_at((low + j) as u64)),
                Err(e) => self.spec_check_range(low, high) == Err::<(), StoreError>(e),
            },
    {
        if let Err(e) = self.check_range(low, high) {
            return Err(e);
        }
        let mut v: Vec<LogEntry> = Vec::new();
        if low == high {
            proof {
                assert(entries_view(v@) =~= Seq::new(0, |j: int| self.entry_at((low + j) as u64)));
            }
            return Ok(v);
        }
        let mut total: u128 = 0;
        let mut i: u64 = low;
        while i < high
            invariant
                self.inv(),
                low <= i <= high,
                low < high,
                self.spec_check_range(low, high) is Ok,
                self.spec_truncated().index < low,
                high <= self.spec_last_index() + 1,
                v@.len() == i - low,
                entries_view(v@) =~= Seq::new((i - low) as nat,
                    |j: int| self.entry_at((low + j) as u64)),
                total <= (i - low) * 0x1_0000_0000_0000_0000,
                match max_size {
                    Some(m) => i > low ==> self.limited_count(low, high, max_size)
                        == (i - low) + self.size_count(i, high, m - total),
                    None => true,
                },
            decreases high - i,
        {
            proof {
                assert(self.spec_truncated().index < i <= self.spec_last_index());
            }
            let key = raft_log_key(i);
            let bytes = match self.kv.get(key.as_slice()) {
                Some(b) => b,
                None => {
                    proof {
                        assert(false);
                    }
                    return Err(StoreError::Unavailable);
                }
            };
            let entry = match dec_entry_bytes(bytes.as_slice()) {
                Some(e) => e,
                None => {
                    proof {
                        assert(false);
                    }
                    return Err(StoreError::Unavailable);
                }
            };
            let sz = bytes.len();
            proof {
                assert(bytes@ == self.contents()[log_key(i)]);
                assert(sz as int == self.contents()[log_key(i)].len());
                assert((sz as int) < 0x1_0000_0000_0000_0000);
                assert(total + sz <= ((i + 1) - low) * 0x1_0000_0000_0000_0000)
                    by (nonlinear_arith)
                    requires
                        total <= (i - low) * 0x1_0000_0000_0000_0000,
                        (sz as int) < 0x1_0000_0000_0000_0000,
                        i >= low,
                ;
            }
            if let Some(m) = max_size {
                if i > low && total + (sz as u128) > (m as u128) {
                    proof {
                        assert(self.size_count(i, high, m as int - total as int) == 0);
                        assert(self.limited_count(low, high, max_size) == i - low);
                    }
                    return Ok(v);
                }
                total = total + (sz as u128);
                proof {
                    if i > low {
                        assert(self.size_count(i, high, m - (total - sz as int)) == 1
                            + self.size_count((i + 1) as u64, high, m - total as int));
                    } else {
                        assert(self.limited_count(low, high, max_size)
                            == 1 + self.size_count((low + 1) as u64, high, m - total as int));
                    }
                }
            }
            let ghost prevv = v@;
            v.push(entry);
            proof {
                assert(entry@ == self.entry_at(i));
                assert(v@ == prevv.push(entry));
                assert forall|j: int| 0 <= j < v@.len()
                    implies entries_view(v@)[j] == self.entry_at((low + j) as u64) by {
                    if j < prevv.len() {
                        assert(v@[j] == prevv[j]);
                        assert(entries_view(prevv)[j] == self.entry_at((low + j) as u64));
                    } else {
                        assert(v@[j] == entry);
                    }
                }
                assert(entries_view(v@) =~= Seq::new((i + 1 - low) as nat,
                    |j: int| self.entry_at((low + j) as u64)));
            }
            i = i + 1;
        }
        proof {
            if max_size is Some {
                assert(self.size_count(i, high, max_size.unwrap() as int - total as int) == 0);
            }
            assert(entries_view(v@) =~= Seq::new(
                self.limited_count(low, high, max_size) as nat,
                |j: int| self.entry_at((low + j) as u64)));
        }
        Ok(v)
    }

    /// What `term` answers: the boundary's own term at the boundary, the
    /// cached tail term when it decides, otherwise the stored entry's term.
    pub open spec fn spec_term(self, idx: u64) -> Result<u64, StoreError> {
        if idx == self.spec_truncated().index {
            Ok(self.spec_truncated().term)
        } else if idx < self.spec_truncated().index {
            Err(StoreError::Compacted)
        } else if idx > self.spec_last_index() {
            Err(StoreError::InvalidRange)
        } else if self.spec_truncated().term == self.spec_last_term()
            || idx == self.spec_last_index() {
            Ok(self.spec_last_term())
        } else {
            Ok(self.entry_at(idx).term)
        }
    }

    /// The term of the log position `idx`.  An index past the tail is a
    /// caller bug of the fatal class and lies outside the domain.
    pub fn term(&self, idx: u64) -> (r: Result<u64, StoreError>)
        requires
            self.inv(),
            idx <= self.spec_last_index(),
        ensures
            r == self.spec_term(idx),
    {
        if idx == self.truncated_state.index {
            return Ok(self.truncated_state.term);
        }
        if idx < self.truncated_state.index {
            return Err(StoreError::Compacted);
        }
        if self.truncated_state.term == self.last_term || idx == self.last_index {
            return Ok(self.last_term);
        }
        match self.entries(idx, idx + 1, None) {
            Ok(es) => {
                proof {
                    assert(self.limited_count(idx, (idx + 1) as u64, None) == 1);
                    assert(entries_view(es@).len() == 1);
                    assert(es@.len() == 1);
                    assert(entries_view(es@)[0] == self.entry_at(idx));
                    assert(es@[0]@ == self.entry_at(idx));
                }
                Ok(es[0].term)
            }
            Err(e) => {
                proof {
                    assert(false);
                }
                Err(e)
            }
        }
    }


    /// What a caller must guarantee before an append: a non-empty,
    /// index-contiguous batch that attaches to the existing log above the
    /// compaction boundary and does not cut below the applied prefix.
    /// The consensus core guarantees all of this for the batches it hands
    /// to its storage.
    pub open spec fn append_pre(self, es: Seq<EntryModel>) -> bool {
        Self::append_pre_at(self.spec_truncated().index, self.spec_last_index(),
            self.spec_apply_index(), es)
    }

    /// The append precondition over the scalar state alone.
    pub open spec fn append_pre_at(trunc_index: u64, last_index: u64, apply_index: u64,
        es: Seq<EntryModel>) -> bool {
        &&& es.len() > 0
        &&& forall|j: int| 0 <= j < es.len() ==> (#[trigger] es[j].index) == es[0].index + j
        &&& trunc_index < es[0].index
        &&& es[0].index <= last_index + 1
        &&& es[es.len() - 1].index < u64::MAX
        &&& es[es.len() - 1].index >= apply_index
    }

    /// What an append did: the tail is the batch's last entry, the batch
    /// overwrites its index range, everything below it survives, everything
    /// above it is gone, and nothing outside the log namespace moved.
    pub open spec fn append_post(pre: Self, post: Self, es: Seq<EntryModel>) -> bool {
        &&& post.spec_id() == pre.spec_id()
        &&& post.spec_truncated() == pre.spec_truncated()
        &&& post.spec_apply_index() == pre.spec_apply_index()
        &&& post.spec_voters() == pre.spec_voters()
        &&& post.spec_hard_state() == pre.spec_hard_state()
        &&& post.spec_last_index() == es[es.len() - 1].index
        &&& post.spec_last_term() == es[es.len() - 1].term
        &&& (forall|i: u64| #![trigger log_key(i)]
            pre.spec_truncated().index < i <= post.spec_last_index()
                ==> post.has_entry(i)
                    && post.entry_at(i) == (if i >= es[0].index {
                        es[i - es[0].index]
                    } else {
                        pre.entry_at(i)
                    }))
        &&& (forall|i: u64| #![trigger log_key(i)] i > post.spec_last_index()
            ==> !post.has_entry(i))
        &&& (forall|k: Seq<u8>| k.len() >= 1 && k[0] != LOG_PREFIX
            ==> (#[trigger] post.contents().contains_key(k)
                    == pre.contents().contains_key(k))
                && (post.contents().contains_key(k)
                    ==> post.contents()[k] == pre.contents()[k]))
    }

    /// The image after writing the first `j` entries of a batch.
    pub open spec fn put_prefix(m: Map<Seq<u8>, Seq<u8>>, es: Seq<EntryModel>, j: int)
        -> Map<Seq<u8>, Seq<u8>>
        decreases j,
    {
        if j <= 0 {
            m
        } else {
            Self::put_prefix(m, es, j - 1).insert(log_key(es[j - 1].index), enc_entry(es[j - 1]))
        }
    }

    /// The image after deleting the log keys in `(lo, d]`.
    pub open spec fn del_upto(m: Map<Seq<u8>, Seq<u8>>, lo: u64, d: u64)
        -> Map<Seq<u8>, Seq<u8>>
        decreases d - lo,
    {
        if d <= lo {
            m
        } else {
            Self::del_upto(m, lo, (d - 1) as u64).remove(log_key(d))
        }
    }

    proof fn lemma_put_prefix_hit(m: Map<Seq<u8>, Seq<u8>>, es: Seq<EntryModel>, j: int, jj: int)
        requires
            0 <= jj < j <= es.len(),
            forall|a: int, b: int| 0 <= a < b < es.len()
                ==> (#[trigger] es[a].index) != (#[trigger] es[b].index),
        ensures
            Self::put_prefix(m, es, j).contains_key(log_key(es[jj].index)),
            Self::put_prefix(m, es, j)[log_key(es[jj].index)] == enc_entry(es[jj]),
        decreases j,
    {
        if jj == j - 1 {
        } else {
            Self::lemma_put_prefix_hit(m, es, j - 1, jj);
            crate::keys::lemma_log_key_injective(es[jj].index, es[j - 1].index);
        }
    }

    proof fn lemma_put_prefix_miss(m: Map<Seq<u8>, Seq<u8>>, es: Seq<EntryModel>, j: int, k: Seq<u8>)
        requires
            0 <= j <= es.len(),
            forall|jj: int| 0 <= jj < j ==> k != log_key((#[trigger] es[jj]).index),
        ensures
            Self::put_prefix(m, es, j).contains_key(k) == m.contains_key(k),
            Self::put_prefix(m, es, j).contains_key(k)
                ==> Self::put_prefix(m, es, j)[k] == m[k],
        decreases j,
    {
        if j > 0 {
            Self::lemma_put_prefix_miss(m, es, j - 1, k);
        }
    }

    proof fn lemma_del_upto_hit(m: Map<Seq<u8>, Seq<u8>>, lo: u64, d: u64, i: u64)
        requires
            lo < i <= d,
        ensures
            !Self::del_upto(m, lo, d).contains_key(log_key(i)),
        decreases d - lo,
    {
        if i == d {
        } else {
            Self::lemma_del_upto_hit(m, lo, (d - 1) as u64, i);
            crate::keys::lemma_log_key_injective(i, d);
        }
    }

    proof fn lemma_del_upto_miss(m: Map<Seq<u8>, Seq<u8>>, lo: u64, d: u64, k: Seq<u8>)
        requires
            forall|i: u64| lo < i <= d ==> k != #[trigger] log_key(i),
        ensures
            Self::del_upto(m, lo, d).contains_key(k) == m.contains_key(k),
            Self::del_upto(m, lo, d).contains_key(k) ==> Self::del_upto(m, lo, d)[k] == m[k],
        decreases d - lo,
    {
        if d > lo {
            Self::lemma_del_upto_miss(m, lo, (d - 1) as u64, k);
        }
    }

    /// Persist a batch of entries, then drop any previously stored entries
    /// beyond the batch's tail, so that a superseded speculative suffix
    /// never survives a leader change.
    #[verifier::rlimit(100)]
    pub fn append(&mut self, entries: &[LogEntry])
        requires
            old(self).inv(),
            old(self).append_pre(entries_view(entries@)),
        ensures
            final(self).inv(),
            Self::append_post(*old(self), *final(self), entries_view(entries@)),
            forall|uk: Seq<u8>| #![trigger data_key(uk)]
                final(self).data_at(uk) == old(self).data_at(uk),
    {
        let ghost es = entries_view(entries@);
        let n = entries.len();
        let mut b: usize = 0;
        while b < n
            invariant
                0 <= b <= n,
                n == entries@.len(),
                es == entries_view(entries@),
                self == old(self),
                forall|jj: int| 0 <= jj < b
                    ==> (#[trigger] es[jj]).data.len() < 0x1_0000_0000_0000_0000,
            decreases n - b,
        {
            let l = entries[b].data.len();
            proof {
                assert(es[b as int] == entries@[b as int]@);
                assert(es[b as int].data.len() == l);
            }
            b = b + 1;
        }
        let first = entries[0].index;
        let new_last = entries[n - 1].index;
        let new_term = entries[n - 1].term;
        let prev_last = self.last_index;
        proof {
            assert(es[0] == entries@[0]@);
            assert(es[n - 1] == entries@[n - 1]@);
        }
        let mut j: usize = 0;
        while j < n
            invariant
                0 <= j <= n,
                n == entries@.len(),
                es == entries_view(entries@),
                self.id == old(self).id,
                self.truncated_state == old(self).truncated_state,
                self.last_index == old(self).last_index,
                self.last_term == old(self).last_term,
                self.apply_index == old(self).apply_index,
                self.conf_state == old(self).conf_state,
                self.kv.wf(),
                old(self).kv.wf(),
                self.kv.contents() == Self::put_prefix(old(self).kv.contents(), es, j as int),
                forall|jj: int| 0 <= jj < n
                    ==> (#[trigger] es[jj]).data.len() < 0x1_0000_0000_0000_0000,
            decreases n - j,
        {
            proof {
                assert(es[j as int] == entries@[j as int]@);
            }
            let key = raft_log_key(entries[j].index);
            let value = enc_entry_bytes(&entries[j]);
            self.kv.put(key.as_slice(), value.as_slice());
            j = j + 1;
        }
        let mut d: u64 = new_last;
        while d < prev_last
            invariant
                new_last <= d,
                d <= prev_last || d == new_last,
                n == entries@.len(),
                es == entries_view(entries@),
                new_last == es[n - 1].index,
                prev_last == old(self).last_index,
                self.id == old(self).id,
                self.truncated_state == old(self).truncated_state,
                self.last_index == old(self).last_index,
                self.last_term == old(self).last_term,
                self.apply_index == old(self).apply_index,
                self.conf_state == old(self).conf_state,
                self.kv.wf(),
                old(self).kv.wf(),
                self.kv.contents() == Self::del_upto(
                    Self::put_prefix(old(self).kv.contents(), es, n as int), new_last, d),
                forall|jj: int| 0 <= jj < n
                    ==> (#[trigger] es[jj]).data.len() < 0x1_0000_0000_0000_0000,
            decreases prev_last - d,
        {
            d = d + 1;
            let key = raft_log_key(d);
            self.kv.delete(key.as_slice());
        }
        self.last_index = new_last;
        self.last_term = new_term;
        proof {
            assert(self.kv.contents() == Self::del_upto(
                Self::put_prefix(old(self).kv.contents(), es, n as int), new_last, prev_last));
            self.lemma_append_final(*old(self), es);
            assert forall|uk: Seq<u8>| #![trigger data_key(uk)]
                self.data_at(uk) == old(self).data_at(uk) by {
                assert(data_key(uk).len() >= 1);
                assert(data_key(uk)[0] == DATA_PREFIX);
                assert(self.kv.contents().contains_key(data_key(uk))
                    == old(self).kv.contents().contains_key(data_key(uk)));
            }
        }
    }

    /// Reassemble the invariant and the append contract from the loop
    /// summaries.
    #[verifier::rlimit(100)]
    proof fn lemma_append_final(self, pre: Self, es: Seq<EntryModel>)
        requires
            pre.inv(),
            pre.append_pre(es),
            self.id == pre.id,
            self.truncated_state == pre.truncated_state,
            self.apply_index == pre.apply_index,
            self.conf_state == pre.conf_state,
            self.last_index == es[es.len() - 1].index,
            self.last_term == es[es.len() - 1].term,
            self.kv.wf(),
            self.kv.contents() == Self::del_upto(
                Self::put_prefix(pre.kv.contents(), es, es.len() as int),
                es[es.len() - 1].index, pre.last_index),
            forall|jj: int| 0 <= jj < es.len()
                ==> (#[trigger] es[jj]).data.len() < 0x1_0000_0000_0000_0000,
        ensures
            self.inv(),
            Self::append_post(pre, self, es),
    {
        let m = self.kv.contents();
        let p = pre.kv.contents();
        let mp = Self::put_prefix(p, es, es.len() as int);
        let first = es[0].index;
        let new_last = es[es.len() - 1].index;
        let nn = es.len() as int;
        assert(new_last == first + es.len() - 1);
        assert forall|a: int, b: int| 0 <= a < b < es.len()
            implies (#[trigger] es[a].index) != (#[trigger] es[b].index) by {
            assert(es[a].index == first + a);
            assert(es[b].index == first + b);
        }
        // Entries at or below the new tail.
        assert forall|i: u64| #![trigger log_key(i)]
            self.truncated_state.index < i <= new_last
            implies m.contains_key(log_key(i))
                && dec_entry(m[log_key(i)]) is Some
                && dec_entry(m[log_key(i)]).unwrap() == (if i >= first {
                    es[i - first]
                } else {
                    pre.entry_at(i)
                }) by {
            assert forall|i2: u64| new_last < i2 <= pre.last_index
                implies log_key(i) != log_key(i2) by {
                crate::keys::lemma_log_key_injective(i, i2);
            }
            Self::lemma_del_upto_miss(mp, new_last, pre.last_index, log_key(i));
            if i >= first {
                let jj = i - first;
                assert(es[jj].index == i);
                Self::lemma_put_prefix_hit(p, es, nn, jj);
                lemma_entry_roundtrip(es[jj]);
            } else {
                assert forall|jj: int| 0 <= jj < es.len()
                    implies log_key(i) != log_key((#[trigger] es[jj]).index) by {
                    crate::keys::lemma_log_key_injective(i, es[jj].index);
                }
                Self::lemma_put_prefix_miss(p, es, nn, log_key(i));
                assert(i <= pre.last_index);
                assert(p.contains_key(log_key(i)));
            }
        }
        // Entries above the new tail are gone.
        assert forall|i: u64| #![trigger log_key(i)] i > new_last
            implies !m.contains_key(log_key(i)) by {
            if i <= pre.last_index {
                Self::lemma_del_upto_hit(mp, new_last, pre.last_index, i);
            } else {
                assert forall|i2: u64| new_last < i2 <= pre.last_index
                    implies log_key(i) != log_key(i2) by {
                    crate::keys::lemma_log_key_injective(i, i2);
                }
                Self::lemma_del_upto_miss(mp, new_last, pre.last_index, log_key(i));
                assert forall|jj: int| 0 <= jj < es.len()
                    implies log_key(i) != log_key((#[trigger] es[jj]).index) by {
                    crate::keys::lemma_log_key_injective(i, es[jj].index);
                }
                Self::lemma_put_prefix_miss(p, es, nn, log_key(i));
                if p.contains_key(log_key(i)) {
                    assert(is_log_key(log_key(i)));
                    assert(log_key_index(log_key(i)) == i);
                    assert(false);
                }
            }
        }
        // Non-log keys unchanged.
        assert forall|k: Seq<u8>| k.len() >= 1 && k[0] != LOG_PREFIX
            implies (#[trigger] m.contains_key(k) == p.contains_key(k))
                && (m.contains_key(k) ==> m[k] == p[k]) by {
            assert forall|jj: int| 0 <= jj < es.len()
                implies k != log_key((#[trigger] es[jj]).index) by {
                assert(log_key(es[jj].index)[0] == LOG_PREFIX);
            }
            assert forall|i2: u64| new_last < i2 <= pre.last_index
                implies k != log_key(i2) by {
                assert(log_key(i2)[0] == LOG_PREFIX);
            }
            Self::lemma_del_upto_miss(mp, new_last, pre.last_index, k);
            Self::lemma_put_prefix_miss(p, es, nn, k);
        }
        // The invariant.
        assert(self.inv_scalars());
        assert(self.inv_log()) by {
            assert forall|k: Seq<u8>|
                #[trigger] m.contains_key(k) && k.len() >= 1 && k[0] == LOG_PREFIX
                implies is_log_key(k)
                    && self.truncated_state.index < log_key_index(k) <= self.last_index
                    && k == log_key(log_key_index(k) as u64) by {
                if exists|jj: int| 0 <= jj < es.len() && k == log_key((#[trigger] es[jj]).index) {
                    let jj = choose|jj: int|
                        0 <= jj < es.len() && k == log_key((#[trigger] es[jj]).index);
                    assert(self.truncated_state.index < es[jj].index <= self.last_index);
                } else {
                    assert forall|i2: u64| new_last < i2 <= pre.last_index
                        implies k != log_key(i2) by {
                        if k == log_key(i2) {
                            Self::lemma_del_upto_hit(mp, new_last, pre.last_index, i2);
                        }
                    }
                    Self::lemma_del_upto_miss(mp, new_last, pre.last_index, k);
                    Self::lemma_put_prefix_miss(p, es, nn, k);
                    assert(p.contains_key(k));
                    let i = log_key_index(k) as u64;
                    assert(k == log_key(i));
                    assert(pre.truncated_state.index < i <= pre.last_index);
                    assert(i <= new_last) by {
                        if i > new_last {
                            Self::lemma_del_upto_hit(mp, new_last, pre.last_index, i);
                        }
                    }
                }
            }
        }
        assert(self.inv_meta()) by {
            Self::lemma_append_meta_frame(self, pre);
        }
        assert(self.spec_hard_state() == pre.spec_hard_state()) by {
            assert(meta_key(RAFT_HARD_STATE_KEY).len() == 1);
            assert(meta_key(RAFT_HARD_STATE_KEY)[0] == RAFT_HARD_STATE_KEY);
        }
    }

    /// Metadata keys are outside the log namespace, so an append keeps them.
    proof fn lemma_append_meta_frame(post: Self, pre: Self)
        requires
            pre.inv_meta(),
            post.truncated_state == pre.truncated_state,
            post.apply_index == pre.apply_index,
            post.conf_state == pre.conf_state,
            forall|k: Seq<u8>| k.len() >= 1 && k[0] != LOG_PREFIX
                ==> (#[trigger] post.kv.contents().contains_key(k)
                        == pre.kv.contents().contains_key(k))
                    && (post.kv.contents().contains_key(k)
                        ==> post.kv.contents()[k] == pre.kv.contents()[k]),
        ensures
            post.inv_meta(),
    {
        assert(meta_key(RAFT_TRUNCATED_STATE_KEY)[0] == RAFT_TRUNCATED_STATE_KEY);
        assert(meta_key(RAFT_APPLY_INDEX_KEY)[0] == RAFT_APPLY_INDEX_KEY);
        assert(meta_key(RAFT_CONF_STATE_KEY)[0] == RAFT_CONF_STATE_KEY);
        assert(meta_key(RAFT_HARD_STATE_KEY)[0] == RAFT_HARD_STATE_KEY);
        assert(meta_key(NODE_ID_KEY)[0] == NODE_ID_KEY);
    }


    /// The map a snapshot payload's rows denote: later rows win.
    pub open spec fn rows_map(rs: Seq<RowModel>) -> Map<Seq<u8>, Seq<u8>>
        decreases rs.len(),
    {
        if rs.len() == 0 {
            Map::empty()
        } else {
            Self::rows_map(rs.drop_last()).insert(rs.last().key, rs.last().value)
        }
    }

    /// The image after writing the first `j` rows into the data namespace.
    pub open spec fn put_rows(m: Map<Seq<u8>, Seq<u8>>, rs: Seq<RowModel>, j: int)
        -> Map<Seq<u8>, Seq<u8>>
        decreases j,
    {
        if j <= 0 {
            m
        } else {
            Self::put_rows(m, rs, j - 1).insert(data_key(rs[j - 1].key), rs[j - 1].value)
        }
    }

    proof fn lemma_data_key_injective(a: Seq<u8>, b: Seq<u8>)
        requires
            a != b,
        ensures
            data_key(a) != data_key(b),
    {
        if data_key(a) == data_key(b) {
            assert(data_key(a).skip(1) =~= a);
            assert(data_key(b).skip(1) =~= b);
        }
    }

    proof fn lemma_put_rows_data(m: Map<Seq<u8>, Seq<u8>>, rs: Seq<RowModel>, j: int, uk: Seq<u8>)
        requires
            0 <= j <= rs.len(),
            !m.contains_key(data_key(uk)),
        ensures
            Self::put_rows(m, rs, j).contains_key(data_key(uk))
                == Self::rows_map(rs.take(j)).contains_key(uk),
            Self::put_rows(m, rs, j).contains_key(data_key(uk))
                ==> Self::put_rows(m, rs, j)[data_key(uk)] == Self::rows_map(rs.take(j))[uk],
        decreases j,
    {
        if j > 0 {
            Self::lemma_put_rows_data(m, rs, j - 1, uk);
            assert(rs.take(j).drop_last() =~= rs.take(j - 1));
            assert(rs.take(j).last() == rs[j - 1]);
            if rs[j - 1].key != uk {
                Self::lemma_data_key_injective(rs[j - 1].key, uk);
            }
        } else {
            assert(rs.take(0).len() == 0);
        }
    }

    proof fn lemma_put_rows_miss(m: Map<Seq<u8>, Seq<u8>>, rs: Seq<RowModel>, j: int, k: Seq<u8>)
        requires
            0 <= j <= rs.len(),
            k.len() == 0 || k[0] != DATA_PREFIX,
        ensures
            Self::put_rows(m, rs, j).contains_key(k) == m.contains_key(k),
            Self::put_rows(m, rs, j).contains_key(k) ==> Self::put_rows(m, rs, j)[k] == m[k],
        decreases j,
    {
        if j > 0 {
            Self::lemma_put_rows_miss(m, rs, j - 1, k);
            assert(data_key(rs[j - 1].key)[0] == DATA_PREFIX);
        }
    }

    /// Install a snapshot: compact the whole log, replace the voter set and
    /// the data namespace, and move the apply index to the snapshot, all as
    /// one atomic step.  A payload that does not decode leaves the store
    /// untouched and reports corruption.
    #[verifier::rlimit(100)]
    pub fn apply_snapshot(&mut self, snap: &Snapshot) -> (r: Result<(), StoreError>)
        requires
            old(self).inv(),
            old(self).spec_apply_index() <= snap@.index,
            snap@.index < u64::MAX,
        ensures
            final(self).inv(),
            match r {
                Ok(_) => {
                    &&& dec_rows(snap@.data) is Some
                    &&& final(self).spec_truncated()
                        == (TruncatedState { index: snap@.index, term: snap@.term })
                    &&& final(self).spec_last_index() == snap@.index
                    &&& final(self).spec_last_term() == snap@.term
                    &&& final(self).spec_apply_index() == snap@.index
                    &&& final(self).spec_voters() == snap@.voters
                    &&& final(self).spec_hard_state() == old(self).spec_hard_state()
                    &&& final(self).spec_id() == old(self).spec_id()
                    &&& (forall|i: u64| #![trigger log_key(i)] !final(self).has_entry(i))
                    &&& (forall|uk: Seq<u8>| #![trigger data_key(uk)]
                        final(self).data_at(uk) == (
                            if Self::rows_map(dec_rows(snap@.data).unwrap()).contains_key(uk) {
                                Some(Self::rows_map(dec_rows(snap@.data).unwrap())[uk])
                            } else {
                                None
                            }))
                    &&& final(self).data_map() == Self::rows_map(dec_rows(snap@.data).unwrap())
                }
                Err(e) => {
                    &&& e == StoreError::Corrupt
                    &&& dec_rows(snap@.data) is None
                    &&& *final(self) == *old(self)
                }
            },
    {
        let rows = match dec_rows_bytes(snap.data.as_slice()) {
            Some(rows) => rows,
            None => {
                return Err(StoreError::Corrupt);
            }
        };
        let ghost rv = crate::codec::rows_view(rows@);
        let lo_log = mk_meta_key(LOG_PREFIX);
        let hi_log = mk_meta_key(8);
        self.kv.delete_range(lo_log.as_slice(), hi_log.as_slice());
        let lo_data = mk_meta_key(DATA_PREFIX);
        let hi_data = mk_meta_key(LOG_PREFIX);
        self.kv.delete_range(lo_data.as_slice(), hi_data.as_slice());
        let new_trunc = TruncatedState { index: snap.index, term: snap.term };
        let tkey = mk_meta_key(RAFT_TRUNCATED_STATE_KEY);
        let tval = enc_trunc_bytes(&new_trunc);
        self.kv.put(tkey.as_slice(), tval.as_slice());
        let ckey = mk_meta_key(RAFT_CONF_STATE_KEY);
        let cval = enc_u64s_bytes(&snap.conf_state.voters);
        self.kv.put(ckey.as_slice(), cval.as_slice());
        let akey = mk_meta_key(RAFT_APPLY_INDEX_KEY);
        let aval = u64_to_be(snap.index);
        self.kv.put(akey.as_slice(), aval.as_slice());
        let ghost base = self.kv.contents();
        let n = rows.len();
        let mut j: usize = 0;
        while j < n
            invariant
                0 <= j <= n,
                n == rows@.len(),
                rv == crate::codec::rows_view(rows@),
                self.id == old(self).id,
                self.truncated_state == old(self).truncated_state,
                self.last_index == old(self).last_index,
                self.last_term == old(self).last_term,
                self.apply_index == old(self).apply_index,
                self.conf_state == old(self).conf_state,
                self.kv.wf(),
                self.kv.contents() == Self::put_rows(base, rv, j as int),
            decreases n - j,
        {
            proof {
                assert(rv[j as int] == rows@[j as int]@);
            }
            let key = data_key_of(rows[j].key.as_slice());
            self.kv.put(key.as_slice(), rows[j].value.as_slice());
            j = j + 1;
        }
        self.truncated_state = new_trunc;
        self.last_index = snap.index;
        self.last_term = snap.term;
        self.apply_index = snap.index;
        self.conf_state = ConfState { voters: crate::kv::copy_u64s(&snap.conf_state.voters) };
        proof {
            self.lemma_snapshot_final(*old(self), snap@, rv, base);
            assert forall|uk: Seq<u8>| #[trigger] self.data_map().contains_key(uk)
                == Self::rows_map(rv).contains_key(uk) by {
                assert(self.data_at(uk) == (if Self::rows_map(rv).contains_key(uk) {
                    Some(Self::rows_map(rv)[uk])
                } else {
                    None
                }));
            }
            assert forall|uk: Seq<u8>| self.data_map().contains_key(uk)
                implies #[trigger] self.data_map()[uk] == Self::rows_map(rv)[uk] by {
                assert(self.data_at(uk) == (if Self::rows_map(rv).contains_key(uk) {
                    Some(Self::rows_map(rv)[uk])
                } else {
                    None
                }));
            }
            assert(self.data_map() =~= Self::rows_map(rv));
        }
        Ok(())
    }

    /// Reassemble the invariant and contract after a snapshot install.
    #[verifier::rlimit(100)]
    proof fn lemma_snapshot_final(self, pre: Self, sn: SnapshotModel, rv: Seq<RowModel>,
        base: Map<Seq<u8>, Seq<u8>>)
        requires
            pre.inv(),
            pre.apply_index <= sn.index,
            sn.index < u64::MAX,
            dec_rows(sn.data) == Some(rv),
            base == pre.kv.contents()
                .remove_keys(crate::kv::range_set(meta_key(LOG_PREFIX), meta_key(8)))
                .remove_keys(crate::kv::range_set(meta_key(DATA_PREFIX), meta_key(LOG_PREFIX)))
                .insert(meta_key(RAFT_TRUNCATED_STATE_KEY),
                    enc_trunc(TruncatedState { index: sn.index, term: sn.term }))
                .insert(meta_key(RAFT_CONF_STATE_KEY), enc_u64s(sn.voters))
                .insert(meta_key(RAFT_APPLY_INDEX_KEY), be_bytes(sn.index)),
            self.kv.wf(),
            self.kv.contents() == Self::put_rows(base, rv, rv.len() as int),
            self.id == pre.id,
            self.truncated_state == (TruncatedState { index: sn.index, term: sn.term }),
            self.last_index == sn.index,
            self.last_term == sn.term,
            self.apply_index == sn.index,
            self.conf_state@ == sn.voters,
        ensures
            self.inv(),
            self.spec_hard_state() == pre.spec_hard_state(),
            forall|i: u64| #![trigger log_key(i)] !self.has_entry(i),
            forall|uk: Seq<u8>| #![trigger data_key(uk)]
                self.data_at(uk) == (if Self::rows_map(rv).contains_key(uk) {
                    Some(Self::rows_map(rv)[uk])
                } else {
                    None
                }),
    {
        let m = self.kv.contents();
        // No log keys survive.
        assert forall|i: u64| #![trigger log_key(i)] !m.contains_key(log_key(i)) by {
            assert(log_key(i)[0] == LOG_PREFIX);
            crate::keys::lemma_prefix_bracket(log_key(i), LOG_PREFIX);
            assert(crate::kv::range_set(meta_key(LOG_PREFIX), meta_key(8))
                .contains(log_key(i)));
            assert(!base.contains_key(log_key(i)));
            Self::lemma_put_rows_miss(base, rv, rv.len() as int, log_key(i));
        }
        assert forall|k: Seq<u8>|
            #[trigger] m.contains_key(k) && k.len() >= 1 && k[0] == LOG_PREFIX
            implies false by {
            crate::keys::lemma_prefix_bracket(k, LOG_PREFIX);
            Self::lemma_put_rows_miss(base, rv, rv.len() as int, k);
        }
        // Data rows are exactly the payload's map.
        assert forall|uk: Seq<u8>| #![trigger data_key(uk)]
            self.data_at(uk) == (if Self::rows_map(rv).contains_key(uk) {
                Some(Self::rows_map(rv)[uk])
            } else {
                None
            }) by {
            assert(data_key(uk)[0] == DATA_PREFIX);
            crate::keys::lemma_prefix_bracket(data_key(uk), DATA_PREFIX);
            assert(crate::kv::range_set(meta_key(DATA_PREFIX), meta_key(LOG_PREFIX))
                .contains(data_key(uk)));
            assert(!base.contains_key(data_key(uk)));
            Self::lemma_put_rows_data(base, rv, rv.len() as int, uk);
            assert(rv.take(rv.len() as int) =~= rv);
        }
        // Metadata.
        assert(meta_key(RAFT_TRUNCATED_STATE_KEY)[0] == RAFT_TRUNCATED_STATE_KEY);
        assert(meta_key(RAFT_APPLY_INDEX_KEY)[0] == RAFT_APPLY_INDEX_KEY);
        assert(meta_key(RAFT_CONF_STATE_KEY)[0] == RAFT_CONF_STATE_KEY);
        assert(meta_key(RAFT_HARD_STATE_KEY)[0] == RAFT_HARD_STATE_KEY);
        assert(meta_key(NODE_ID_KEY)[0] == NODE_ID_KEY);
        assert forall|tag: u8| tag < DATA_PREFIX implies
            (#[trigger] m.contains_key(meta_key(tag)) == base.contains_key(meta_key(tag)))
                && (m.contains_key(meta_key(tag)) ==> m[meta_key(tag)] == base[meta_key(tag)]) by {
            Self::lemma_put_rows_miss(base, rv, rv.len() as int, meta_key(tag));
        }
        assert forall|tag: u8| tag < DATA_PREFIX
            && tag != RAFT_TRUNCATED_STATE_KEY && tag != RAFT_CONF_STATE_KEY
            && tag != RAFT_APPLY_INDEX_KEY implies
            (#[trigger] base.contains_key(meta_key(tag))
                == pre.kv.contents().contains_key(meta_key(tag)))
                && (base.contains_key(meta_key(tag))
                    ==> base[meta_key(tag)] == pre.kv.contents()[meta_key(tag)]) by {
            assert(meta_key(tag)[0] == tag);
            assert(meta_key(RAFT_TRUNCATED_STATE_KEY) != meta_key(tag));
            assert(meta_key(RAFT_CONF_STATE_KEY) != meta_key(tag));
            assert(meta_key(RAFT_APPLY_INDEX_KEY) != meta_key(tag));
            assert(!crate::kv::range_set(meta_key(LOG_PREFIX), meta_key(8))
                .contains(meta_key(tag))) by {
                crate::keys::lemma_prefix_bracket(meta_key(tag), LOG_PREFIX);
            }
            assert(!crate::kv::range_set(meta_key(DATA_PREFIX), meta_key(LOG_PREFIX))
                .contains(meta_key(tag))) by {
                crate::keys::lemma_prefix_bracket(meta_key(tag), DATA_PREFIX);
            }
        }
        lemma_trunc_roundtrip(TruncatedState { index: sn.index, term: sn.term });
        lemma_u64s_roundtrip(sn.voters);
        assert(self.inv_scalars());
        assert(self.inv_log());
        assert(self.inv_meta());
    }


    /// Produce a self-contained snapshot at the apply index: its term, the
    /// voter set, and every data row, serialized in ascending key order.
    /// A request for an index not yet applied is temporarily unavailable
    /// and must be retried by the caller.
    #[verifier::rlimit(100)]
    pub fn snapshot(&self, request_index: u64) -> (r: Result<Snapshot, StoreError>)
        requires
            self.inv(),
        ensures
            match r {
                Ok(s) => {
                    &&& self.spec_apply_index() >= request_index
                    &&& s@.index == self.spec_apply_index()
                    &&& s@.term == (if self.spec_apply_index() == self.spec_truncated().index {
                        self.spec_truncated().term
                    } else {
                        self.entry_at(self.spec_apply_index()).term
                    })
                    &&& s@.voters == self.spec_voters()
                    &&& dec_rows(s@.data) is Some
                    &&& s@.data == enc_rows(dec_rows(s@.data).unwrap())
                    &&& {
                        let rows = dec_rows(s@.data).unwrap();
                        &&& (forall|j: int| 0 <= j < rows.len()
                            ==> self.data_at((#[trigger] rows[j]).key) == Some(rows[j].value))
                        &&& (forall|uk: Seq<u8>| #![trigger data_key(uk)]
                            self.data_at(uk) is Some
                                ==> exists|j: int| 0 <= j < rows.len()
                                    && (#[trigger] rows[j]).key == uk)
                        &&& (forall|p: int, q: int| 0 <= p < q < rows.len()
                            ==> lex_lt(rows[p].key, rows[q].key))
                    }
                }
                Err(e) => e == StoreError::SnapshotTemporarilyUnavailable
                    && self.spec_apply_index() < request_index,
            },
    {
        let index = self.apply_index;
        if index < request_index {
            return Err(StoreError::SnapshotTemporarilyUnavailable);
        }
        let term = if index == self.truncated_state.index {
            self.truncated_state.term
        } else {
            let key = raft_log_key(index);
            match self.kv.get(key.as_slice()) {
                Some(bytes) => {
                    match dec_entry_bytes(bytes.as_slice()) {
                        Some(e) => e.term,
                        None => {
                            proof {
                                assert(false);
                            }
                            0
                        }
                    }
                }
                None => {
                    proof {
                        assert(false);
                    }
                    0
                }
            }
        };
        let lo = mk_meta_key(DATA_PREFIX);
        let hi = mk_meta_key(LOG_PREFIX);
        let full_rows = self.kv.scan(lo.as_slice(), hi.as_slice());
        let n = full_rows.len();
        let mut rows: Vec<crate::kv::Row> = Vec::new();
        let mut j: usize = 0;
        while j < n
            invariant
                0 <= j <= n,
                n == full_rows@.len(),
                self.inv(),
                rows@.len() == j,
                forall|p: int| 0 <= p < n ==> {
                    &&& lex_le(seq![DATA_PREFIX], (#[trigger] full_rows@[p]).key@)
                    &&& lex_lt(full_rows@[p].key@, seq![LOG_PREFIX])
                    &&& self.contents().contains_key(full_rows@[p].key@)
                    &&& full_rows@[p].value@ == self.contents()[full_rows@[p].key@]
                },
                forall|p: int, q: int| 0 <= p < q < n
                    ==> lex_lt(full_rows@[p].key@, full_rows@[q].key@),
                forall|p: int| 0 <= p < j ==> {
                    &&& (#[trigger] rows@[p]).key@ == full_rows@[p].key@.skip(1)
                    &&& data_key(rows@[p].key@) == full_rows@[p].key@
                    &&& rows@[p].value@ == full_rows@[p].value@
                    &&& rows@[p].key@.len() < 0x1_0000_0000_0000_0000
                    &&& rows@[p].value@.len() < 0x1_0000_0000_0000_0000
                },
            decreases n - j,
        {
            proof {
                crate::keys::lemma_prefix_bracket(full_rows@[j as int].key@, DATA_PREFIX);
                assert(full_rows@[j as int].key@.len() >= 1);
            }
            let klen = full_rows[j].key.len();
            let user_key = crate::kv::copy_bytes(
                vstd::slice::slice_subrange(full_rows[j].key.as_slice(), 1, klen));
            let value = crate::kv::copy_bytes(full_rows[j].value.as_slice());
            proof {
                assert(full_rows@[j as int].key@.subrange(1, klen as int)
                    =~= full_rows@[j as int].key@.skip(1));
                assert(data_key(full_rows@[j as int].key@.skip(1))
                    =~= full_rows@[j as int].key@);
            }
            let ghost prev_rows = rows@;
            let ghost ukv = user_key@;
            let ghost vv = value@;
            let ul = user_key.len();
            let vl = value.len();
            proof {
                assert(ukv.len() == ul as int);
                assert(vv.len() == vl as int);
            }
            rows.push(crate::kv::Row { key: user_key, value });
            proof {
                assert(rows@.len() == j + 1);
                assert(rows@[j as int].key@ == ukv);
                assert(rows@[j as int].value@ == vv);
                assert(ukv == full_rows@[j as int].key@.skip(1));
                assert(ukv.len() == full_rows@[j as int].key@.len() - 1);
                assert forall|p: int| 0 <= p < j + 1 implies {
                    &&& (#[trigger] rows@[p]).key@ == full_rows@[p].key@.skip(1)
                    &&& data_key(rows@[p].key@) == full_rows@[p].key@
                    &&& rows@[p].value@ == full_rows@[p].value@
                    &&& rows@[p].key@.len() < 0x1_0000_0000_0000_0000
                    &&& rows@[p].value@.len() < 0x1_0000_0000_0000_0000
                } by {
                    if p < j {
                        assert(rows@[p] == prev_rows[p]);
                    } else {
                        assert(data_key(full_rows@[j as int].key@.skip(1))
                            =~= full_rows@[j as int].key@);
                    }
                }
            }
            j = j + 1;
        }
        let data = enc_rows_bytes(&rows);
        proof {
            let rv = crate::codec::rows_view(rows@);
            lemma_rows_roundtrip(rv);
            assert(data@ == enc_rows(rv));
            assert(dec_rows(data@) == Some(rv));
            assert forall|p: int| 0 <= p < rv.len()
                implies self.data_at((#[trigger] rv[p]).key) == Some(rv[p].value) by {
                assert(rv[p] == rows@[p]@);
                assert(data_key(rows@[p].key@) == full_rows@[p].key@);
            }
            assert forall|uk: Seq<u8>| #![trigger data_key(uk)]
                self.data_at(uk) is Some
                implies exists|p: int| 0 <= p < rv.len() && (#[trigger] rv[p]).key == uk by {
                assert(self.contents().contains_key(data_key(uk)));
                assert(data_key(uk)[0] == DATA_PREFIX);
                crate::keys::lemma_prefix_bracket(data_key(uk), DATA_PREFIX);
                let p = choose|p: int|
                    0 <= p < full_rows@.len() && (#[trigger] full_rows@[p]).key@ == data_key(uk);
                assert(rows@[p].key@ == data_key(uk).skip(1));
                assert(data_key(uk).skip(1) =~= uk);
                assert(rv[p].key == uk);
            }
            assert forall|p: int, q: int| 0 <= p < q < rv.len()
                implies lex_lt(rv[p].key, rv[q].key) by {
                assert(lex_lt(full_rows@[p].key@, full_rows@[q].key@));
                crate::keys::lemma_prefix_bracket(full_rows@[p].key@, DATA_PREFIX);
                crate::keys::lemma_prefix_bracket(full_rows@[q].key@, DATA_PREFIX);
                crate::order::lemma_lex_skip(full_rows@[p].key@, full_rows@[q].key@, 1);
                assert(rv[p].key == full_rows@[p].key@.skip(1));
                assert(rv[q].key == full_rows@[q].key@.skip(1));
            }
        }
        let voters = crate::kv::copy_u64s(&self.conf_state.voters);
        Ok(Snapshot { index, term, conf_state: ConfState { voters }, data })
    }


    /// Move the compaction boundary, tail and apply index to a recovered
    /// boundary in one step, persisting the boundary record.
    #[verifier::rlimit(100)]
    fn reset_to_boundary(&mut self, ts: TruncatedState)
        requires
            old(self).inv(),
            old(self).spec_last_index() == old(self).spec_truncated().index,
            old(self).spec_apply_index() == old(self).spec_truncated().index,
            ts.index < u64::MAX,
            forall|i: u64| #![trigger log_key(i)] !old(self).has_entry(i),
        ensures
            final(self).inv(),
            final(self).spec_truncated() == ts,
            final(self).spec_last_index() == ts.index,
            final(self).spec_last_term() == ts.term,
            final(self).spec_apply_index() == ts.index,
            final(self).spec_voters() == old(self).spec_voters(),
            final(self).spec_hard_state() == old(self).spec_hard_state(),
            final(self).spec_id() == old(self).spec_id(),
            forall|i: u64| #![trigger log_key(i)] !final(self).has_entry(i),
            forall|uk: Seq<u8>| #![trigger data_key(uk)]
                final(self).data_at(uk) == old(self).data_at(uk),
    {
        let tkey = mk_meta_key(RAFT_TRUNCATED_STATE_KEY);
        let tval = enc_trunc_bytes(&ts);
        self.kv.put(tkey.as_slice(), tval.as_slice());
        let akey = mk_meta_key(RAFT_APPLY_INDEX_KEY);
        let aval = u64_to_be(ts.index);
        self.kv.put(akey.as_slice(), aval.as_slice());
        self.truncated_state = ts;
        self.last_index = ts.index;
        self.last_term = ts.term;
        self.apply_index = ts.index;
        proof {
            lemma_trunc_roundtrip(ts);
            let m = self.kv.contents();
            let p = old(self).kv.contents();
            assert(meta_key(RAFT_TRUNCATED_STATE_KEY)[0] == RAFT_TRUNCATED_STATE_KEY);
            assert(meta_key(RAFT_APPLY_INDEX_KEY)[0] == RAFT_APPLY_INDEX_KEY);
            assert(meta_key(RAFT_CONF_STATE_KEY)[0] == RAFT_CONF_STATE_KEY);
            assert(meta_key(RAFT_HARD_STATE_KEY)[0] == RAFT_HARD_STATE_KEY);
            assert(meta_key(NODE_ID_KEY)[0] == NODE_ID_KEY);
            assert(meta_key(RAFT_CONF_STATE_KEY) != meta_key(RAFT_TRUNCATED_STATE_KEY));
            assert(meta_key(RAFT_CONF_STATE_KEY) != meta_key(RAFT_APPLY_INDEX_KEY));
            assert(meta_key(RAFT_HARD_STATE_KEY) != meta_key(RAFT_TRUNCATED_STATE_KEY));
            assert(meta_key(RAFT_HARD_STATE_KEY) != meta_key(RAFT_APPLY_INDEX_KEY));
            assert(meta_key(NODE_ID_KEY) != meta_key(RAFT_TRUNCATED_STATE_KEY));
            assert(meta_key(NODE_ID_KEY) != meta_key(RAFT_APPLY_INDEX_KEY));
            assert forall|i: u64| #![trigger log_key(i)] !m.contains_key(log_key(i)) by {
                assert(log_key(i).len() == 9);
                assert(log_key(i) != meta_key(RAFT_TRUNCATED_STATE_KEY));
                assert(log_key(i) != meta_key(RAFT_APPLY_INDEX_KEY));
            }
            assert forall|uk: Seq<u8>| #![trigger data_key(uk)]
                self.data_at(uk) == old(self).data_at(uk) by {
                assert(data_key(uk)[0] == DATA_PREFIX);
                assert(data_key(uk) != meta_key(RAFT_TRUNCATED_STATE_KEY));
                assert(data_key(uk) != meta_key(RAFT_APPLY_INDEX_KEY));
            }
            assert(self.inv_scalars());
            assert(self.inv_log()) by {
                assert forall|k: Seq<u8>|
                    #[trigger] m.contains_key(k) && k.len() >= 1 && k[0] == LOG_PREFIX
                    implies false by {
                    assert(k != meta_key(RAFT_TRUNCATED_STATE_KEY));
                    assert(k != meta_key(RAFT_APPLY_INDEX_KEY));
                    assert(p.contains_key(k));
                    assert(is_log_key(k));
                    let i = log_key_index(k) as u64;
                    assert(k == log_key(i));
                    assert(old(self).has_entry(i));
                }
            }
            assert(self.inv_meta());
        }
    }

    /// Replace the voter set and persist it.
    #[verifier::rlimit(100)]
    fn set_conf_state(&mut self, conf: ConfState)
        requires
            old(self).inv(),
        ensures
            final(self).inv(),
            final(self).spec_voters() == conf@,
            final(self).spec_truncated() == old(self).spec_truncated(),
            final(self).spec_last_index() == old(self).spec_last_index(),
            final(self).spec_last_term() == old(self).spec_last_term(),
            final(self).spec_apply_index() == old(self).spec_apply_index(),
            final(self).spec_hard_state() == old(self).spec_hard_state(),
            final(self).spec_id() == old(self).spec_id(),
            forall|i: u64| #![trigger log_key(i)]
                final(self).has_entry(i) == old(self).has_entry(i),
            forall|i: u64| #![trigger log_key(i)]
                final(self).has_entry(i) ==> final(self).entry_at(i) == old(self).entry_at(i),
            forall|uk: Seq<u8>| #![trigger data_key(uk)]
                final(self).data_at(uk) == old(self).data_at(uk),
    {
        let ckey = mk_meta_key(RAFT_CONF_STATE_KEY);
        let cval = enc_u64s_bytes(&conf.voters);
        self.kv.put(ckey.as_slice(), cval.as_slice());
        self.conf_state = conf;
        proof {
            lemma_u64s_roundtrip(self.conf_state@);
            self.lemma_meta_put_preserves(*old(self), RAFT_CONF_STATE_KEY);
            Self::lemma_inv_log_frame(*old(self), *self, meta_key(RAFT_CONF_STATE_KEY));
            assert(meta_key(RAFT_TRUNCATED_STATE_KEY) != meta_key(RAFT_CONF_STATE_KEY));
            assert(meta_key(RAFT_APPLY_INDEX_KEY) != meta_key(RAFT_CONF_STATE_KEY));
            assert(meta_key(RAFT_HARD_STATE_KEY) != meta_key(RAFT_CONF_STATE_KEY));
            assert(meta_key(NODE_ID_KEY) != meta_key(RAFT_CONF_STATE_KEY));
            assert forall|uk: Seq<u8>| #![trigger data_key(uk)]
                self.data_at(uk) == old(self).data_at(uk) by {
                assert(data_key(uk)[0] == DATA_PREFIX);
                assert(data_key(uk) != meta_key(RAFT_CONF_STATE_KEY));
            }
            assert(self.inv_scalars());
            assert(self.inv_meta());
        }
    }

    /// The compaction boundary a persisted image records (zero when none).
    pub open spec fn image_trunc_index(m: Map<Seq<u8>, Seq<u8>>) -> int {
        if m.contains_key(meta_key(RAFT_TRUNCATED_STATE_KEY))
            && dec_trunc(m[meta_key(RAFT_TRUNCATED_STATE_KEY)]) is Some {
            dec_trunc(m[meta_key(RAFT_TRUNCATED_STATE_KEY)]).unwrap().index as int
        } else {
            0
        }
    }

    /// The apply index a persisted image records (the boundary when none).
    pub open spec fn image_apply_index(m: Map<Seq<u8>, Seq<u8>>) -> int {
        if m.contains_key(meta_key(RAFT_APPLY_INDEX_KEY))
            && m[meta_key(RAFT_APPLY_INDEX_KEY)].len() == 8 {
            be_val(m[meta_key(RAFT_APPLY_INDEX_KEY)])
        } else {
            Self::image_trunc_index(m)
        }
    }

    /// A persisted image that recovery owes success on: every metadata
    /// record decodes, the boundary and the log positions stay below the
    /// index ceiling, the log namespace holds only proper, decodable,
    /// self-indexed records forming a gap-free run just above the boundary,
    /// and the recorded apply index lies between the boundary and the tail.
    pub open spec fn valid_image(m: Map<Seq<u8>, Seq<u8>>) -> bool {
        let t = Self::image_trunc_index(m);
        let a = Self::image_apply_index(m);
        &&& (m.contains_key(meta_key(RAFT_TRUNCATED_STATE_KEY)) ==> {
            &&& dec_trunc(m[meta_key(RAFT_TRUNCATED_STATE_KEY)]) is Some
            &&& dec_trunc(m[meta_key(RAFT_TRUNCATED_STATE_KEY)]).unwrap().index < u64::MAX
        })
        &&& (m.contains_key(meta_key(RAFT_APPLY_INDEX_KEY))
            ==> m[meta_key(RAFT_APPLY_INDEX_KEY)].len() == 8)
        &&& (m.contains_key(meta_key(RAFT_CONF_STATE_KEY))
            ==> dec_u64s(m[meta_key(RAFT_CONF_STATE_KEY)]) is Some)
        &&& (m.contains_key(meta_key(RAFT_HARD_STATE_KEY))
            ==> dec_hard(m[meta_key(RAFT_HARD_STATE_KEY)]) is Some)
        &&& (forall|k: Seq<u8>|
            #[trigger] m.contains_key(k) && k.len() >= 1 && k[0] == LOG_PREFIX ==> {
                &&& is_log_key(k)
                &&& dec_entry(m[k]) is Some
                &&& dec_entry(m[k]).unwrap().index == log_key_index(k)
                &&& t < log_key_index(k)
                &&& log_key_index(k) < u64::MAX
                &&& forall|i: u64| t < i < log_key_index(k) ==> m.contains_key(log_key(i))
            })
        &&& a >= t
        &&& (a == t || (0 <= a < 0x1_0000_0000_0000_0000 && m.contains_key(log_key(a as u64))))
    }

    /// Rebuild a store from a persisted image: decode the metadata records,
    /// walk the log namespace checking that it is a gap-free run starting
    /// just above the compaction boundary, and refuse any image whose
    /// records do not decode or whose positions are out of order.
    #[verifier::rlimit(100)]
    pub fn new(id: u64, kv: &KV) -> (r: Result<ArimaStorage, StoreError>)
        requires
            kv.wf(),
        ensures
            match r {
                Ok(s) => {
                    &&& s.inv()
                    &&& s.spec_id() == id
                    &&& (kv.contents().contains_key(meta_key(RAFT_TRUNCATED_STATE_KEY))
                        ==> Some(s.spec_truncated())
                            == dec_trunc(kv.contents()[meta_key(RAFT_TRUNCATED_STATE_KEY)]))
                    &&& (!kv.contents().contains_key(meta_key(RAFT_TRUNCATED_STATE_KEY))
                        ==> s.spec_truncated() == (TruncatedState { index: 0u64, term: 0u64 }))
                    &&& (kv.contents().contains_key(meta_key(RAFT_APPLY_INDEX_KEY))
                        ==> kv.contents()[meta_key(RAFT_APPLY_INDEX_KEY)].len() == 8
                            && s.spec_apply_index()
                                == be_val(kv.contents()[meta_key(RAFT_APPLY_INDEX_KEY)]))
                    &&& (!kv.contents().contains_key(meta_key(RAFT_APPLY_INDEX_KEY))
                        ==> s.spec_apply_index() == s.spec_truncated().index)
                    &&& (kv.contents().contains_key(meta_key(RAFT_CONF_STATE_KEY))
                        ==> Some(s.spec_voters())
                            == dec_u64s(kv.contents()[meta_key(RAFT_CONF_STATE_KEY)]))
                    &&& (!kv.contents().contains_key(meta_key(RAFT_CONF_STATE_KEY))
                        ==> s.spec_voters() == Seq::<u64>::empty())
                    &&& (kv.contents().contains_key(meta_key(RAFT_HARD_STATE_KEY))
                        ==> Some(s.spec_hard_state())
                            == dec_hard(kv.contents()[meta_key(RAFT_HARD_STATE_KEY)]))
                    &&& (!kv.contents().contains_key(meta_key(RAFT_HARD_STATE_KEY))
                        ==> s.spec_hard_state() == (HardState { term: 0, vote: 0, commit: 0 }))
                    &&& (forall|i: u64| #![trigger log_key(i)]
                        s.spec_truncated().index < i <= s.spec_last_index()
                            ==> kv.contents().contains_key(log_key(i))
                                && s.entry_at(i)
                                    == dec_entry(kv.contents()[log_key(i)]).unwrap())
                    &&& (forall|uk: Seq<u8>| #![trigger data_key(uk)]
                        s.data_at(uk) == (if kv.contents().contains_key(data_key(uk)) {
                            Some(kv.contents()[data_key(uk)])
                        } else {
                            None
                        }))
                    &&& (forall|k: Seq<u8>|
                        #[trigger] kv.contents().contains_key(k) && k.len() >= 1
                            && k[0] == LOG_PREFIX
                            ==> log_key_index(k) <= s.spec_last_index())
                    &&& (s.spec_last_index() == s.spec_truncated().index
                        ==> s.spec_last_term() == s.spec_truncated().term)
                    &&& (s.spec_last_index() > s.spec_truncated().index
                        ==> kv.contents().contains_key(log_key(s.spec_last_index()))
                            && s.spec_last_term()
                                == dec_entry(kv.contents()[log_key(s.spec_last_index())])
                                    .unwrap().term)
                }
                Err(e) => e == StoreError::Corrupt && !Self::valid_image(kv.contents()),
            },
    {
        let ghost m = kv.contents();
        // Metadata records.
        let tkey = mk_meta_key(RAFT_TRUNCATED_STATE_KEY);
        let trunc = match kv.get(tkey.as_slice()) {
            Some(v) => match dec_trunc_bytes(v.as_slice()) {
                Some(t) => t,
                None => {
                    return Err(StoreError::Corrupt);
                }
            },
            None => TruncatedState { index: 0, term: 0 },
        };
        if trunc.index == u64::MAX {
            proof {
                assert(!Self::valid_image(m)) by {
                    if Self::valid_image(m) {
                        assert(kv.contents().contains_key(meta_key(RAFT_TRUNCATED_STATE_KEY)));
                    }
                }
            }
            return Err(StoreError::Corrupt);
        }
        let akey = mk_meta_key(RAFT_APPLY_INDEX_KEY);
        let apply = match kv.get(akey.as_slice()) {
            Some(v) => {
                if v.len() != 8 {
                    return Err(StoreError::Corrupt);
                }
                proof {
                    lemma_be_val_bound(kv.contents()[meta_key(RAFT_APPLY_INDEX_KEY)]);
                    lemma_pow256_values();
                }
                be_to_u64(v.as_slice())
            }
            None => trunc.index,
        };
        proof {
            assert(Self::image_trunc_index(m) == trunc.index as int);
            assert(Self::image_apply_index(m) == apply as int);
        }
        let ckey = mk_meta_key(RAFT_CONF_STATE_KEY);
        let conf = match kv.get(ckey.as_slice()) {
            Some(v) => match dec_u64s_bytes(v.as_slice()) {
                Some(vs) => ConfState { voters: vs },
                None => {
                    return Err(StoreError::Corrupt);
                }
            },
            None => ConfState { voters: Vec::new() },
        };
        let hkey = mk_meta_key(RAFT_HARD_STATE_KEY);
        let hard = match kv.get(hkey.as_slice()) {
            Some(v) => match dec_hard_bytes(v.as_slice()) {
                Some(h) => Some(h),
                None => {
                    return Err(StoreError::Corrupt);
                }
            },
            None => None,
        };
        // The log namespace must be a contiguous run starting at the
        // boundary.
        let lo = mk_meta_key(LOG_PREFIX);
        let hi = mk_meta_key(8);
        let log_rows = kv.scan(lo.as_slice(), hi.as_slice());
        let n = log_rows.len();
        let mut es: Vec<LogEntry> = Vec::new();
        let mut j: usize = 0;
        while j < n
            invariant
                0 <= j <= n,
                n == log_rows@.len(),
                kv.wf(),
                es@.len() == j,
                trunc.index < u64::MAX,
                trunc.index + j <= u64::MAX,
                m == kv.contents(),
                Self::image_trunc_index(m) == trunc.index as int,
                forall|p: int| 0 <= p < n ==> {
                    &&& kv.contents().contains_key((#[trigger] log_rows@[p]).key@)
                    &&& log_rows@[p].value@ == kv.contents()[log_rows@[p].key@]
                    &&& lex_le(meta_key(LOG_PREFIX), log_rows@[p].key@)
                    &&& lex_lt(log_rows@[p].key@, meta_key(8u8))
                },
                forall|p: int, q: int| 0 <= p < q < n
                    ==> lex_lt((#[trigger] log_rows@[p]).key@, (#[trigger] log_rows@[q]).key@),
                forall|k: Seq<u8>| #[trigger] m.contains_key(k)
                    && lex_le(meta_key(LOG_PREFIX), k) && lex_lt(k, meta_key(8u8))
                    ==> exists|q: int| 0 <= q < n && (#[trigger] log_rows@[q]).key@ == k,
                forall|p: int| 0 <= p < j ==> {
                    &&& (#[trigger] log_rows@[p]).key@ == log_key((trunc.index + 1 + p) as u64)
                    &&& dec_entry(log_rows@[p].value@) == Some(es@[p]@)
                    &&& es@[p]@.index == trunc.index + 1 + p
                },
            decreases n - j,
        {
            let idx = match decode_raft_log_key(log_rows[j].key.as_slice()) {
                Some(i) => i,
                None => {
                    proof {
                        assert(!Self::valid_image(m)) by {
                            if Self::valid_image(m) {
                                crate::keys::lemma_prefix_bracket(
                                    log_rows@[j as int].key@, LOG_PREFIX);
                                assert(m.contains_key(log_rows@[j as int].key@));
                            }
                        }
                    }
                    return Err(StoreError::Corrupt);
                }
            };
            proof {
                lemma_log_key_inverse(log_rows@[j as int].key@);
            }
            if (j as u64) > u64::MAX - 1 - trunc.index {
                proof {
                    if j == 0 {
                        assert(false);
                    }
                    assert(!Self::valid_image(m)) by {
                        if Self::valid_image(m) {
                            let kj = log_rows@[j as int].key@;
                            crate::keys::lemma_prefix_bracket(kj, LOG_PREFIX);
                            assert(m.contains_key(kj));
                            assert(is_log_key(kj));
                            lemma_log_key_inverse(kj);
                            let kprev = log_rows@[j as int - 1].key@;
                            assert(kprev == log_key((trunc.index + j) as u64));
                            assert(lex_lt(kprev, kj));
                            crate::keys::lemma_log_key_order((trunc.index + j) as u64,
                                log_key_index(kj) as u64);
                            assert(trunc.index + j < log_key_index(kj));
                            assert(log_key_index(kj) < u64::MAX);
                            assert(false);
                        }
                    }
                }
                return Err(StoreError::Corrupt);
            }
            if idx != trunc.index + 1 + (j as u64) {
                proof {
                    assert(!Self::valid_image(m)) by {
                        if Self::valid_image(m) {
                            let kj = log_rows@[j as int].key@;
                            crate::keys::lemma_prefix_bracket(kj, LOG_PREFIX);
                            assert(m.contains_key(kj));
                            lemma_log_key_inverse(kj);
                            assert(kj == log_key(idx));
                            assert(trunc.index < idx);
                            if (idx as int) < trunc.index + 1 + j {
                                let p = idx as int - trunc.index as int - 1;
                                assert(0 <= p < j);
                                assert(log_rows@[p].key@
                                    == log_key((trunc.index + 1 + p) as u64));
                                assert((trunc.index + 1 + p) as u64 == idx);
                                assert(log_rows@[p].key@ == kj);
                                assert(lex_lt(log_rows@[p].key@, kj));
                                crate::order::lemma_lex_irrefl(kj);
                                assert(false);
                            } else {
                                let i = (trunc.index + 1 + (j as u64)) as u64;
                                assert(trunc.index < i < idx);
                                assert(m.contains_key(log_key(i)));
                                crate::keys::lemma_prefix_bracket(log_key(i), LOG_PREFIX);
                                let q = choose|q: int|
                                    0 <= q < n && (#[trigger] log_rows@[q]).key@ == log_key(i);
                                if q < j as int {
                                    assert(log_rows@[q].key@
                                        == log_key((trunc.index + 1 + q) as u64));
                                    crate::keys::lemma_log_key_injective(i,
                                        (trunc.index + 1 + q) as u64);
                                    assert(false);
                                } else if q == j as int {
                                    crate::keys::lemma_log_key_injective(i, idx);
                                    assert(false);
                                } else {
                                    assert(lex_lt(kj, log_rows@[q].key@));
                                    crate::keys::lemma_log_key_order(idx, i);
                                    assert(false);
                                }
                            }
                        }
                    }
                }
                return Err(StoreError::Corrupt);
            }
            let e = match dec_entry_bytes(log_rows[j].value.as_slice()) {
                Some(e) => e,
                None => {
                    return Err(StoreError::Corrupt);
                }
            };
            if e.index != idx {
                proof {
                    assert(!Self::valid_image(m)) by {
                        if Self::valid_image(m) {
                            let kj = log_rows@[j as int].key@;
                            crate::keys::lemma_prefix_bracket(kj, LOG_PREFIX);
                            assert(m.contains_key(kj));
                            assert(dec_entry(m[kj]).unwrap().index == log_key_index(kj));
                            assert(log_rows@[j as int].value@ == m[kj]);
                            assert(dec_entry(log_rows@[j as int].value@) == Some(e@));
                            assert(false);
                        }
                    }
                }
                return Err(StoreError::Corrupt);
            }
            es.push(e);
            j = j + 1;
        }
        proof {
            assert forall|p: int| 0 <= p < n implies #[trigger] es@[p]@.index
                == trunc.index + 1 + p by {
                assert(log_rows@[p].key@ == log_key((trunc.index + 1 + p) as u64));
            }
            assert forall|p: int| 0 <= p < n implies
                kv.contents().contains_key(log_key((trunc.index + 1 + p) as u64))
                    && dec_entry(kv.contents()[log_key((trunc.index + 1 + p) as u64)])
                        == Some(#[trigger] es@[p]@) by {
                assert(log_rows@[p].key@ == log_key((trunc.index + 1 + p) as u64));
                assert(kv.contents().contains_key(log_rows@[p].key@));
                assert(dec_entry(log_rows@[p].value@) == Some(es@[p]@));
            }
        }
        if (n as u64) > u64::MAX - 1 - trunc.index {
            proof {
                if n == 0 {
                    assert(false);
                }
                assert(!Self::valid_image(m)) by {
                    if Self::valid_image(m) {
                        let kl = log_rows@[n - 1].key@;
                        assert(kl == log_key((trunc.index + n) as u64));
                        assert(m.contains_key(kl));
                        assert(kl[0] == LOG_PREFIX);
                        assert(log_key_index(kl) == trunc.index + n);
                        assert(log_key_index(kl) < u64::MAX);
                        assert(false);
                    }
                }
            }
            return Err(StoreError::Corrupt);
        }
        let last_index = trunc.index + (n as u64);
        if apply < trunc.index || apply > last_index {
            proof {
                assert(!Self::valid_image(m)) by {
                    if Self::valid_image(m) {
                        assert(apply as int >= trunc.index as int);
                        assert(apply > last_index);
                        assert(m.contains_key(log_key(apply)));
                        crate::keys::lemma_prefix_bracket(log_key(apply), LOG_PREFIX);
                        let q = choose|q: int|
                            0 <= q < n && (#[trigger] log_rows@[q]).key@ == log_key(apply);
                        assert(log_rows@[q].key@ == log_key((trunc.index + 1 + q) as u64));
                        assert(log_key_index(log_key(apply)) == apply);
                        assert(log_key_index(log_key((trunc.index + 1 + q) as u64))
                            == trunc.index + 1 + q);
                        assert(apply == trunc.index + 1 + q);
                        assert(false);
                    }
                }
            }
            return Err(StoreError::Corrupt);
        }
        // Rebuild the canonical image.
        let mut s = ArimaStorage {
            id,
            kv: KV::new(),
            truncated_state: TruncatedState { index: 0, term: 0 },
            last_index: 0,
            last_term: 0,
            apply_index: 0,
            conf_state: ConfState { voters: Vec::new() },
        };
        proof {
            assert(s.inv_scalars());
            assert(s.inv_log()) by {
                assert(forall|k: Seq<u8>|
                    !(#[trigger] s.kv.contents().contains_key(k)));
            }
            assert(s.inv_meta());
            assert(s.inv());
            assert forall|i: u64| #![trigger log_key(i)] !s.has_entry(i) by {}
        }
        s.reset_to_boundary(trunc);
        s.set_conf_state(conf);
        if let Some(h) = hard {
            s.put_hard_state(&h);
        }
        if n > 0 {
            proof {
                assert forall|p: int| 0 <= p < es@.len()
                    implies (#[trigger] entries_view(es@)[p]).index
                        == entries_view(es@)[0].index + p by {
                    assert(entries_view(es@)[p] == es@[p]@);
                    assert(entries_view(es@)[0] == es@[0]@);
                    assert(es@[p]@.index == trunc.index + 1 + p);
                    assert(es@[0]@.index == trunc.index + 1);
                }
                assert(entries_view(es@)[es@.len() - 1].index == trunc.index + n);
                assert(s.append_pre(entries_view(es@)));
            }
            s.append(es.as_slice());
        }
        if apply > trunc.index {
            s.advance_apply(apply);
        }
        proof {
            assert forall|i: u64| #![trigger log_key(i)]
                s.spec_truncated().index < i <= s.spec_last_index()
                implies kv.contents().contains_key(log_key(i))
                    && s.entry_at(i) == dec_entry(kv.contents()[log_key(i)]).unwrap() by {
                let p = i - trunc.index - 1;
                assert(log_rows@[p].key@ == log_key(i));
                assert(kv.contents().contains_key(log_key(i)));
                assert(dec_entry(kv.contents()[log_key(i)]) == Some(es@[p]@));
                assert(entries_view(es@)[p] == es@[p]@);
            }
        }
        // Rebuild the data namespace.
        let dlo = mk_meta_key(DATA_PREFIX);
        let dhi = mk_meta_key(LOG_PREFIX);
        let data_rows = kv.scan(dlo.as_slice(), dhi.as_slice());
        let dn = data_rows.len();
        let ghost s_before = s;
        let mut dj: usize = 0;
        while dj < dn
            invariant
                0 <= dj <= dn,
                dn == data_rows@.len(),
                kv.wf(),
                s.inv(),
                s.spec_id() == s_before.spec_id(),
                s.spec_truncated() == s_before.spec_truncated(),
                s.spec_last_index() == s_before.spec_last_index(),
                s.spec_last_term() == s_before.spec_last_term(),
                s.spec_apply_index() == s_before.spec_apply_index(),
                s.spec_voters() == s_before.spec_voters(),
                s.spec_hard_state() == s_before.spec_hard_state(),
                forall|i: u64| #![trigger log_key(i)]
                    s.has_entry(i) == s_before.has_entry(i)
                        && (s.has_entry(i) ==> s.entry_at(i) == s_before.entry_at(i)),
                forall|p: int| 0 <= p < dn ==> {
                    &&& lex_le(seq![DATA_PREFIX], (#[trigger] data_rows@[p]).key@)
                    &&& lex_lt(data_rows@[p].key@, seq![LOG_PREFIX])
                    &&& kv.contents().contains_key(data_rows@[p].key@)
                    &&& data_rows@[p].value@ == kv.contents()[data_rows@[p].key@]
                },
                forall|p: int| 0 <= p < dj
                    ==> s.data_at((#[trigger] data_rows@[p]).key@.skip(1))
                        == Some(data_rows@[p].value@),
                forall|uk: Seq<u8>| #[trigger] s.data_at(uk) is Some
                    ==> exists|p: int| 0 <= p < dj
                        && (#[trigger] data_rows@[p]).key@.skip(1) == uk,
            decreases dn - dj,
        {
            proof {
                crate::keys::lemma_prefix_bracket(data_rows@[dj as int].key@, DATA_PREFIX);
            }
            let klen = data_rows[dj].key.len();
            let user_key = crate::kv::copy_bytes(
                vstd::slice::slice_subrange(data_rows[dj].key.as_slice(), 1, klen));
            proof {
                assert(data_rows@[dj as int].key@.subrange(1, klen as int)
                    =~= data_rows@[dj as int].key@.skip(1));
                assert(data_key(data_rows@[dj as int].key@.skip(1))
                    =~= data_rows@[dj as int].key@);
            }
            let ghost prev_s = s;
            s.put_data(user_key.as_slice(), data_rows[dj].value.as_slice());
            proof {
                assert forall|i: u64| #![trigger log_key(i)]
                    s.has_entry(i) == s_before.has_entry(i)
                        && (s.has_entry(i) ==> s.entry_at(i) == s_before.entry_at(i)) by {
                    assert(log_key(i)[0] == LOG_PREFIX);
                    assert(data_key(user_key@)[0] == DATA_PREFIX);
                    assert(log_key(i) != data_key(user_key@));
                }
                assert forall|p: int| 0 <= p < dj + 1
                    implies s.data_at((#[trigger] data_rows@[p]).key@.skip(1))
                        == Some(data_rows@[p].value@) by {
                    if p < dj {
                        if data_rows@[p].key@.skip(1) == user_key@ {
                            crate::keys::lemma_prefix_bracket(data_rows@[p].key@, DATA_PREFIX);
                            assert(data_key(data_rows@[p].key@.skip(1))
                                =~= data_rows@[p].key@);
                            assert(data_rows@[p].key@ == data_rows@[dj as int].key@);
                            assert(data_rows@[p].value@ == data_rows@[dj as int].value@);
                        } else {
                            Self::lemma_data_key_injective(data_rows@[p].key@.skip(1),
                                user_key@);
                        }
                    } else {
                        assert(data_key(user_key@) =~= data_rows@[dj as int].key@);
                    }
                }
                assert forall|uk: Seq<u8>| #[trigger] s.data_at(uk) is Some
                    implies exists|p: int| 0 <= p < dj + 1
                        && (#[trigger] data_rows@[p]).key@.skip(1) == uk by {
                    if uk == user_key@ {
                        assert(data_rows@[dj as int].key@.skip(1) == uk);
                    } else {
                        Self::lemma_data_key_injective(uk, user_key@);
                        assert(prev_s.data_at(uk) is Some);
                        let p = choose|p: int| 0 <= p < dj
                            && (#[trigger] data_rows@[p]).key@.skip(1) == uk;
                        assert(data_rows@[p].key@.skip(1) == uk);
                    }
                }
            }
            dj = dj + 1;
        }
        proof {
            // The tail is the image's highest log record.
            assert(s.spec_last_index() == last_index);
            assert forall|k: Seq<u8>|
                #[trigger] kv.contents().contains_key(k) && k.len() >= 1
                    && k[0] == LOG_PREFIX
                implies log_key_index(k) <= s.spec_last_index() by {
                crate::keys::lemma_prefix_bracket(k, LOG_PREFIX);
                let q = choose|q: int| 0 <= q < n && (#[trigger] log_rows@[q]).key@ == k;
                assert(log_rows@[q].key@ == log_key((trunc.index + 1 + q) as u64));
                assert(log_key_index(k) == trunc.index + 1 + q);
            }
            if n > 0 {
                assert(log_rows@[n - 1].key@ == log_key((trunc.index + n) as u64));
                assert(kv.contents().contains_key(log_key(last_index)));
                assert(dec_entry(kv.contents()[log_key(last_index)]) == Some(es@[n - 1]@));
                assert(s.spec_last_term() == es@[n - 1]@.term);
            }
            assert forall|uk: Seq<u8>| #![trigger data_key(uk)]
                s.data_at(uk) == (if kv.contents().contains_key(data_key(uk)) {
                    Some(kv.contents()[data_key(uk)])
                } else {
                    None
                }) by {
                if kv.contents().contains_key(data_key(uk)) {
                    assert(data_key(uk)[0] == DATA_PREFIX);
                    crate::keys::lemma_prefix_bracket(data_key(uk), DATA_PREFIX);
                    let p = choose|p: int| 0 <= p < data_rows@.len()
                        && (#[trigger] data_rows@[p]).key@ == data_key(uk);
                    assert(data_rows@[p].key@.skip(1) =~= uk);
                    assert(s.data_at(uk) == Some(data_rows@[p].value@));
                } else {
                    if s.data_at(uk) is Some {
                        let p = choose|p: int| 0 <= p < dn
                            && (#[trigger] data_rows@[p]).key@.skip(1) == uk;
                        crate::keys::lemma_prefix_bracket(data_rows@[p].key@, DATA_PREFIX);
                        assert(data_key(data_rows@[p].key@.skip(1)) =~= data_rows@[p].key@);
                        assert(kv.contents().contains_key(data_key(uk)));
                    }
                }
            }
        }
        Ok(s)
    }

    /// Read the value of a data row.
    pub fn get_data(&self, user_key: &[u8]) -> (r: Option<Vec<u8>>)
        requires
            self.inv(),
        ensures
            match r {
                Some(v) => self.data_at(user_key@) == Some(v@),
                None => self.data_at(user_key@) is None,
            },
    {
        let key = data_key_of(user_key);
        self.kv.get(key.as_slice())
    }

    /// Insert or overwrite a data row.
    #[verifier::rlimit(100)]
    pub fn put_data(&mut self, user_key: &[u8], value: &[u8])
        requires
            old(self).inv(),
        ensures
            final(self).inv(),
            final(self).contents()
                == old(self).contents().insert(data_key(user_key@), value@),
            final(self).spec_truncated() == old(self).spec_truncated(),
            final(self).spec_last_index() == old(self).spec_last_index(),
            final(self).spec_last_term() == old(self).spec_last_term(),
            final(self).spec_apply_index() == old(self).spec_apply_index(),
            final(self).spec_voters() == old(self).spec_voters(),
            final(self).spec_hard_state() == old(self).spec_hard_state(),
            final(self).spec_id() == old(self).spec_id(),
    {
        let key = data_key_of(user_key);
        self.kv.put(key.as_slice(), value);
        proof {
            self.lemma_data_write_preserves(*old(self), user_key@);
            Self::lemma_inv_log_frame(*old(self), *self, data_key(user_key@));
            assert(self.inv_scalars());
            assert(self.inv_meta());
            assert(self.inv());
        }
    }

    /// Remove a data row.
    #[verifier::rlimit(100)]
    pub fn delete_data(&mut self, user_key: &[u8])
        requires
            old(self).inv(),
        ensures
            final(self).inv(),
            final(self).contents() == old(self).contents().remove(data_key(user_key@)),
            final(self).spec_truncated() == old(self).spec_truncated(),
            final(self).spec_last_index() == old(self).spec_last_index(),
            final(self).spec_last_term() == old(self).spec_last_term(),
            final(self).spec_apply_index() == old(self).spec_apply_index(),
            final(self).spec_voters() == old(self).spec_voters(),
            final(self).spec_hard_state() == old(self).spec_hard_state(),
            final(self).spec_id() == old(self).spec_id(),
    {
        let key = data_key_of(user_key);
        self.kv.delete(key.as_slice());
        proof {
            self.lemma_data_write_preserves(*old(self), user_key@);
            Self::lemma_inv_log_frame(*old(self), *self, data_key(user_key@));
            assert(self.inv_scalars());
            assert(self.inv_meta());
            assert(self.inv());
        }
    }

    /// A write to a data key leaves everything outside the data namespace
    /// unchanged.
    proof fn lemma_data_write_preserves(self, prev: Self, user_key: Seq<u8>)
        requires
            prev.kv.wf(),
            self.kv.contents() == prev.kv.contents().insert(data_key(user_key),
                    self.kv.contents()[data_key(user_key)])
                || self.kv.contents() == prev.kv.contents().remove(data_key(user_key)),
        ensures
            data_key(user_key).len() >= 1,
            data_key(user_key)[0] == DATA_PREFIX,
            forall|k: Seq<u8>| k != data_key(user_key)
                ==> (#[trigger] self.kv.contents().contains_key(k)
                        == prev.kv.contents().contains_key(k))
                    && (self.kv.contents().contains_key(k)
                        ==> self.kv.contents()[k] == prev.kv.contents()[k]),
            forall|i: u64| (#[trigger] self.kv.contents().contains_key(log_key(i))
                    == prev.kv.contents().contains_key(log_key(i)))
                && (self.kv.contents().contains_key(log_key(i))
                    ==> self.kv.contents()[log_key(i)] == prev.kv.contents()[log_key(i)]),
            forall|tag: u8| tag < DATA_PREFIX
                ==> (#[trigger] self.kv.contents().contains_key(meta_key(tag))
                        == prev.kv.contents().contains_key(meta_key(tag)))
                    && (self.kv.contents().contains_key(meta_key(tag))
                        ==> self.kv.contents()[meta_key(tag)] == prev.kv.contents()[meta_key(tag)]),
    {
        assert forall|i: u64| (#[trigger] self.kv.contents().contains_key(log_key(i))
                == prev.kv.contents().contains_key(log_key(i)))
            && (self.kv.contents().contains_key(log_key(i))
                ==> self.kv.contents()[log_key(i)] == prev.kv.contents()[log_key(i)]) by {
            assert(log_key(i)[0] == LOG_PREFIX);
            assert(data_key(user_key)[0] == DATA_PREFIX);
            assert(log_key(i) != data_key(user_key));
        }
        assert forall|tag: u8| tag < DATA_PREFIX
            implies (self.kv.contents().contains_key(meta_key(tag))
                    == prev.kv.contents().contains_key(meta_key(tag)))
                && (self.kv.contents().contains_key(meta_key(tag))
                    ==> self.kv.contents()[meta_key(tag)] == prev.kv.contents()[meta_key(tag)]) by {
            assert(meta_key(tag)[0] == tag);
            assert(data_key(user_key)[0] == DATA_PREFIX);
            assert(meta_key(tag) != data_key(user_key));
        }
    }
}

/// Store an id under a key as eight big-endian bytes.
pub fn put_u64(kv: &mut KV, key: &[u8], id: u64)
    requires
        old(kv).wf(),
    ensures
        final(kv).wf(),
        final(kv).contents() == old(kv).contents().insert(key@, be_bytes(id)),
{
    let value = u64_to_be(id);
    kv.put(key, value.as_slice());
}

/// Read an eight-byte id; an absent key is `None`, a record of the wrong
/// width is corruption.
pub fn get_u64(kv: &KV, key: &[u8]) -> (r: Result<Option<u64>, StoreError>)
    requires
        kv.wf(),
    ensures
        match r {
            Ok(Some(v)) => kv.contents().contains_key(key@)
                && kv.contents()[key@].len() == 8
                && v as int == be_val(kv.contents()[key@]),
            Ok(None) => !kv.contents().contains_key(key@),
            Err(e) => e == StoreError::Corrupt && kv.contents().contains_key(key@)
                && kv.contents()[key@].len() != 8,
        },
{
    match kv.get(key) {
        Some(v) => {
            if v.len() != 8 {
                return Err(StoreError::Corrupt);
            }
            proof {
                lemma_be_val_bound(kv.contents()[key@]);
                lemma_pow256_values();
            }
            Ok(Some(be_to_u64(v.as_slice())))
        }
        None => Ok(None),
    }
}

/// Persist a compaction boundary record.
pub fn put_truncated_state(kv: &mut KV, state: &TruncatedState)
    requires
        old(kv).wf(),
    ensures
        final(kv).wf(),
        final(kv).contents() == old(kv).contents()
            .insert(meta_key(RAFT_TRUNCATED_STATE_KEY), enc_trunc(*state)),
{
    let key = mk_meta_key(RAFT_TRUNCATED_STATE_KEY);
    let value = enc_trunc_bytes(state);
    kv.put(key.as_slice(), value.as_slice());
}

/// Read the compaction boundary record, defaulting to zeroes when absent.
pub fn get_truncated_state(kv: &KV) -> (r: Result<TruncatedState, StoreError>)
    requires
        kv.wf(),
    ensures
        match r {
            Ok(t) => {
                if kv.contents().contains_key(meta_key(RAFT_TRUNCATED_STATE_KEY)) {
                    dec_trunc(kv.contents()[meta_key(RAFT_TRUNCATED_STATE_KEY)]) == Some(t)
                } else {
                    t == (TruncatedState { index: 0u64, term: 0u64 })
                }
            }
            Err(e) => e == StoreError::Corrupt
                && kv.contents().contains_key(meta_key(RAFT_TRUNCATED_STATE_KEY))
                && dec_trunc(kv.contents()[meta_key(RAFT_TRUNCATED_STATE_KEY)]) is None,
        },
{
    let key = mk_meta_key(RAFT_TRUNCATED_STATE_KEY);
    match kv.get(key.as_slice()) {
        Some(v) => match dec_trunc_bytes(v.as_slice()) {
            Some(t) => Ok(t),
            None => Err(StoreError::Corrupt),
        },
        None => Ok(TruncatedState { index: 0, term: 0 }),
    }
}

/// Find the last stored log entry by seeking backwards from the greatest
/// possible log key.  The answer is exact: the greatest stored key in the
/// log range decides, and only a store whose greatest such key is not a
/// decodable log record yields `None`.
pub fn get_last_log(kv: &KV) -> (r: Option<LogEntry>)
    requires
        kv.wf(),
    ensures
        match r {
            Some(e) => exists|k: Seq<u8>|
                kv.contents().contains_key(k) && is_log_key(k)
                    && #[trigger] dec_entry(kv.contents()[k]) == Some(e@)
                    && (forall|k2: Seq<u8>| kv.contents().contains_key(k2)
                        && lex_le(k2, log_key(u64::MAX)) ==> lex_le(k2, k)),
            None => forall|k: Seq<u8>|
                #[trigger] kv.contents().contains_key(k) && lex_le(k, log_key(u64::MAX))
                    && (forall|k2: Seq<u8>| kv.contents().contains_key(k2)
                        && lex_le(k2, log_key(u64::MAX)) ==> lex_le(k2, k))
                    ==> !(is_log_key(k) && dec_entry(kv.contents()[k]) is Some),
        },
{
    let end = raft_log_key(u64::MAX);
    match kv.seek_for_prev(end.as_slice()) {
        Some(row) => {
            let decoded_key = decode_raft_log_key(row.key.as_slice());
            let decoded_value = dec_entry_bytes(row.value.as_slice());
            proof {
                // Any other key with the maximality property equals this one.
                assert forall|k: Seq<u8>|
                    kv.contents().contains_key(k) && lex_le(k, log_key(u64::MAX))
                        && (forall|k2: Seq<u8>| kv.contents().contains_key(k2)
                            && lex_le(k2, log_key(u64::MAX)) ==> lex_le(k2, k))
                    implies k == row.key@ by {
                    assert(lex_le(row.key@, k));
                    assert(lex_le(k, row.key@));
                    crate::order::lemma_lex_antisym(k, row.key@);
                }
            }
            match decoded_key {
                Some(_) => {
                    match decoded_value {
                        Some(e) => {
                            proof {
                                assert(kv.contents().contains_key(row.key@)
                                    && is_log_key(row.key@)
                                    && dec_entry(kv.contents()[row.key@]) == Some(e@));
                            }
                            Some(e)
                        }
                        None => None,
                    }
                }
                None => None,
            }
        }
        None => None,
    }
}

/// First-time cluster setup: record this node's id and the initial voter
/// set as one atomic batch, refuse to re-initialize under a different id,
/// and leave an already initialized store untouched.
pub fn try_init_cluster(kv: &mut KV, id: u64, nodes: &Vec<u64>) -> (r: Result<(), StoreError>)
    requires
        old(kv).wf(),
    ensures
        final(kv).wf(),
        match r {
            Ok(_) => {
                if old(kv).contents().contains_key(meta_key(NODE_ID_KEY)) {
                    final(kv).contents() == old(kv).contents()
                        && old(kv).contents()[meta_key(NODE_ID_KEY)] == be_bytes(id)
                } else {
                    final(kv).contents() == old(kv).contents()
                        .insert(meta_key(NODE_ID_KEY), be_bytes(id))
                        .insert(meta_key(RAFT_CONF_STATE_KEY), enc_u64s(nodes@))
                }
            }
            Err(e) => e == StoreError::Corrupt && final(kv).contents() == old(kv).contents()
                && old(kv).contents().contains_key(meta_key(NODE_ID_KEY))
                && old(kv).contents()[meta_key(NODE_ID_KEY)] != be_bytes(id),
        },
{
    let nkey = mk_meta_key(NODE_ID_KEY);
    match get_u64(kv, nkey.as_slice()) {
        Ok(Some(oid)) => {
            proof {
                lemma_be_bytes_val(id);
                lemma_be_bytes_val(oid);
            }
            if oid != id {
                proof {
                    if old(kv).contents()[meta_key(NODE_ID_KEY)] == be_bytes(id) {
                        assert(be_val(be_bytes(id)) == id);
                    }
                }
                return Err(StoreError::Corrupt);
            }
            proof {
                let stored = old(kv).contents()[meta_key(NODE_ID_KEY)];
                assert(be_val(stored) == oid);
                assert(be_val(be_bytes(oid)) == oid);
                crate::keys::lemma_be_order(stored, be_bytes(oid));
                crate::keys::lemma_be_order(be_bytes(oid), stored);
                crate::order::lemma_lex_total(stored, be_bytes(oid));
            }
            Ok(())
        }
        Ok(None) => {
            let idval = u64_to_be(id);
            let cval = enc_u64s_bytes(nodes);
            let ckey = mk_meta_key(RAFT_CONF_STATE_KEY);
            let mut ops: Vec<BatchOp> = Vec::new();
            ops.push(BatchOp::Put { key: nkey, value: idval });
            ops.push(BatchOp::Put { key: ckey, value: cval });
            proof {
                assert(ops@.len() == 2);
            }
            kv.write_batch(&ops);
            proof {
                reveal_with_fuel(crate::kv::apply_ops, 3);
                assert(ops@.skip(1).skip(1) =~= Seq::<BatchOp>::empty());
                assert(ops@.skip(1)[0] == ops@[1]);
                assert(kv.contents() == old(kv).contents()
                    .insert(meta_key(NODE_ID_KEY), be_bytes(id))
                    .insert(meta_key(RAFT_CONF_STATE_KEY), enc_u64s(nodes@)));
            }
            Ok(())
        }
        Err(e) => {
            proof {
                if old(kv).contents()[meta_key(NODE_ID_KEY)] == be_bytes(id) {
                    lemma_be_bytes_val(id);
                }
            }
            Err(StoreError::Corrupt)
        }
    }
}

/// Appended entries read back exactly: after an append, an unlimited
/// `entries` query over any sub-range of the batch returns precisely the
/// appended entries, byte for byte.
pub proof fn lemma_append_read_round_trip(pre: ArimaStorage, post: ArimaStorage,
    es: Seq<EntryModel>, low: u64, high: u64)
    requires
        pre.inv(),
        pre.append_pre(es),
        post.inv(),
        ArimaStorage::append_post(pre, post, es),
        es[0].index <= low,
        low <= high,
        high <= es[es.len() - 1].index + 1,
    ensures
        post.spec_check_range(low, high) is Ok,
        post.limited_count(low, high, None) == high - low,
        forall|j: int| 0 <= j < high - low
            ==> #[trigger] post.entry_at((low + j) as u64) == es[low - es[0].index + j],
{
    assert forall|j: int| 0 <= j < high - low
        implies #[trigger] post.entry_at((low + j) as u64) == es[low - es[0].index + j] by {
        let i = (low + j) as u64;
        assert(pre.spec_truncated().index < i <= post.spec_last_index());
        assert(post.has_entry(i));
        assert(i >= es[0].index);
    }
}

/// Truncation on divergent append: entries beyond the new tail are removed
/// outright, and queries past the tail are range errors, not stale reads.
pub proof fn lemma_truncation_on_divergent_append(pre: ArimaStorage, post: ArimaStorage,
    es: Seq<EntryModel>)
    requires
        pre.inv(),
        pre.append_pre(es),
        post.inv(),
        ArimaStorage::append_post(pre, post, es),
    ensures
        forall|i: u64| #![trigger log_key(i)] i > es[es.len() - 1].index
            ==> !post.has_entry(i),
        forall|i: u64| #![trigger post.spec_check_range(i, i)] i > es[es.len() - 1].index
            ==> i > post.spec_last_index(),
{
}

/// Compaction monotonicity: a snapshot install never moves the compaction
/// boundary backwards, so across any sequence of installs the boundary is
/// non-decreasing.
pub proof fn lemma_compaction_monotonic(pre: ArimaStorage, post: ArimaStorage, sn: SnapshotModel)
    requires
        pre.inv(),
        pre.spec_apply_index() <= sn.index,
        post.spec_truncated() == (TruncatedState { index: sn.index, term: sn.term }),
    ensures
        post.spec_truncated().index >= pre.spec_truncated().index,
{
}

/// Apply-index bound: a well-formed store never lets the apply index pass
/// the tail.  No operation moves it backwards either: an append leaves it
/// alone, advancing it requires a value at least as large, and a snapshot
/// install moves it to the snapshot index, which its caller guarantees is
/// at least the old apply index.
pub proof fn lemma_apply_index_bound(s: ArimaStorage)
    requires
        s.inv(),
    ensures
        s.spec_apply_index() <= s.spec_last_index(),
        s.spec_truncated().index <= s.spec_apply_index(),
{
}

/// Post-snapshot compaction: after an install at index `s`, every query at
/// or below `s` is `Compacted`, and the term of `s` itself is answered from
/// the boundary record without any log read.
pub proof fn lemma_post_snapshot_compaction(post: ArimaStorage, sn: SnapshotModel)
    requires
        post.inv(),
        post.spec_truncated() == (TruncatedState { index: sn.index, term: sn.term }),
        post.spec_last_index() == sn.index,
    ensures
        forall|i: u64| 0 < i <= sn.index
            ==> (#[trigger] post.spec_check_range(i, (i + 1) as u64))
                == Err::<(), StoreError>(StoreError::Compacted),
        post.spec_term(sn.index) == Ok::<u64, StoreError>(sn.term),
{
    assert forall|i: u64| 0 < i <= sn.index
        implies (#[trigger] post.spec_check_range(i, (i + 1) as u64))
            == Err::<(), StoreError>(StoreError::Compacted) by {
        post.lemma_inv_bounds();
        assert(i <= sn.index < u64::MAX);
        assert(((i + 1) as u64) == i + 1);
    }
}

} // verus!
