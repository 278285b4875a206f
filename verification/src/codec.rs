//! Deterministic binary framing for everything the store persists or
//! replicates: log entries, metadata records, snapshot payloads and client
//! commands.
//!
//! Every format is length-framed with eight-byte big-endian integers, every
//! decoder accepts exactly the encoder's output, and the round trip is
//! proved.

use vstd::prelude::*;
use vstd::slice::slice_subrange;
use crate::keys::{be_bytes, be_val, be_to_u64, u64_to_be, lemma_be_bytes_val, lemma_be_val_bound,
    lemma_pow256_values};
use crate::kv::{Row, copy_bytes};
use crate::types::{EntryKind, LogEntry, EntryModel, RowModel, TruncatedState, HardState, Status,
    Request, RequestModel};

verus! {

/// The views of a sequence of rows.
pub open spec fn rows_view(rs: Seq<Row>) -> Seq<RowModel> {
    rs.map_values(|r: Row| r@)
}

/// The byte that encodes an entry kind.
pub open spec fn kind_byte(k: EntryKind) -> u8 {
    match k {
        EntryKind::Normal => 0,
        EntryKind::ConfChange => 1,
    }
}

/// Encoding of a log entry: index, term, kind, payload length, payload.
#[verifier::opaque]
pub open spec fn enc_entry(e: EntryModel) -> Seq<u8> {
    be_bytes(e.index) + be_bytes(e.term) + seq![kind_byte(e.kind)]
        + be_bytes(e.data.len() as u64) + e.data
}

/// Decoding of a log entry; accepts exactly the encoder's output.
#[verifier::opaque]
pub open spec fn dec_entry(s: Seq<u8>) -> Option<EntryModel> {
    if s.len() < 25 {
        None
    } else {
        let kb = s[16];
        let dlen = be_val(s.subrange(17, 25));
        if kb != 0 && kb != 1 {
            None
        } else if s.len() - 25 != dlen {
            None
        } else {
            Some(EntryModel {
                index: be_val(s.subrange(0, 8)) as u64,
                term: be_val(s.subrange(8, 16)) as u64,
                kind: if kb == 0 { EntryKind::Normal } else { EntryKind::ConfChange },
                data: s.skip(25),
            })
        }
    }
}

pub proof fn lemma_entry_roundtrip(e: EntryModel)
    requires
        e.data.len() < 0x1_0000_0000_0000_0000,
    ensures
        dec_entry(enc_entry(e)) == Some(e),
{
    reveal(enc_entry);
    reveal(dec_entry);
    let s = enc_entry(e);
    lemma_be_bytes_val(e.index);
    lemma_be_bytes_val(e.term);
    lemma_be_bytes_val(e.data.len() as u64);
    assert(s.len() == 25 + e.data.len());
    assert(s.subrange(0, 8) =~= be_bytes(e.index));
    assert(s.subrange(8, 16) =~= be_bytes(e.term));
    assert(s[16] == kind_byte(e.kind));
    assert(s.subrange(17, 25) =~= be_bytes(e.data.len() as u64));
    assert(s.skip(25) =~= e.data);
}

/// Encode a log entry.
pub fn enc_entry_bytes(e: &LogEntry) -> (r: Vec<u8>)
    ensures
        r@ == enc_entry(e@),
{
    proof { reveal(enc_entry); }
    let mut r = u64_to_be(e.index);
    let mut t = u64_to_be(e.term);
    r.append(&mut t);
    let kb: u8 = match e.kind {
        EntryKind::Normal => 0,
        EntryKind::ConfChange => 1,
    };
    r.push(kb);
    let mut l = u64_to_be(e.data.len() as u64);
    r.append(&mut l);
    let mut d = copy_bytes(e.data.as_slice());
    r.append(&mut d);
    proof {
        assert(r@ =~= enc_entry(e@));
    }
    r
}

/// Decode a log entry.
pub fn dec_entry_bytes(s: &[u8]) -> (r: Option<LogEntry>)
    ensures
        match r {
            Some(e) => dec_entry(s@) == Some(e@),
            None => dec_entry(s@) is None,
        },
{
    proof { reveal(dec_entry); }
    let n = s.len();
    if n < 25 {
        return None;
    }
    let kb = s[16];
    if kb != 0 && kb != 1 {
        return None;
    }
    let dlen = be_to_u64(slice_subrange(s, 17, 25));
    proof {
        lemma_be_val_bound(s@.subrange(17, 25));
        lemma_pow256_values();
    }
    if dlen != (n - 25) as u64 {
        return None;
    }
    let index = be_to_u64(slice_subrange(s, 0, 8));
    let term = be_to_u64(slice_subrange(s, 8, 16));
    proof {
        lemma_be_val_bound(s@.subrange(0, 8));
        lemma_be_val_bound(s@.subrange(8, 16));
    }
    let data = copy_bytes(slice_subrange(s, 25, n));
    proof {
        assert(s@.subrange(25, n as int) =~= s@.skip(25));
    }
    Some(LogEntry {
        index,
        term,
        kind: if kb == 0 { EntryKind::Normal } else { EntryKind::ConfChange },
        data,
    })
}

/// Encoding of the truncated state: index then term.
#[verifier::opaque]
pub open spec fn enc_trunc(t: TruncatedState) -> Seq<u8> {
    be_bytes(t.index) + be_bytes(t.term)
}

/// Decoding of the truncated state.
#[verifier::opaque]
pub open spec fn dec_trunc(s: Seq<u8>) -> Option<TruncatedState> {
    if s.len() != 16 {
        None
    } else {
        Some(TruncatedState {
            index: be_val(s.subrange(0, 8)) as u64,
            term: be_val(s.subrange(8, 16)) as u64,
        })
    }
}

pub proof fn lemma_trunc_roundtrip(t: TruncatedState)
    ensures
        dec_trunc(enc_trunc(t)) == Some(t),
{
    reveal(enc_trunc);
    reveal(dec_trunc);
    let s = enc_trunc(t);
    lemma_be_bytes_val(t.index);
    lemma_be_bytes_val(t.term);
    assert(s.subrange(0, 8) =~= be_bytes(t.index));
    assert(s.subrange(8, 16) =~= be_bytes(t.term));
}

/// Encode the truncated state.
pub fn enc_trunc_bytes(t: &TruncatedState) -> (r: Vec<u8>)
    ensures
        r@ == enc_trunc(*t),
{
    proof { reveal(enc_trunc); }
    let mut r = u64_to_be(t.index);
    let mut b = u64_to_be(t.term);
    r.append(&mut b);
    proof {
        assert(r@ =~= enc_trunc(*t));
    }
    r
}

/// Decode the truncated state.
pub fn dec_trunc_bytes(s: &[u8]) -> (r: Option<TruncatedState>)
    ensures
        match r {
            Some(t) => dec_trunc(s@) == Some(t),
            None => dec_trunc(s@) is None,
        },
{
    proof { reveal(dec_trunc); }
    if s.len() != 16 {
        return None;
    }
    let index = be_to_u64(slice_subrange(s, 0, 8));
    let term = be_to_u64(slice_subrange(s, 8, 16));
    proof {
        lemma_be_val_bound(s@.subrange(0, 8));
        lemma_be_val_bound(s@.subrange(8, 16));
        lemma_pow256_values();
    }
    Some(TruncatedState { index, term })
}

/// Encoding of the hard state: term, vote, commit.
#[verifier::opaque]
pub open spec fn enc_hard(h: HardState) -> Seq<u8> {
    be_bytes(h.term) + be_bytes(h.vote) + be_bytes(h.commit)
}

/// Decoding of the hard state.
#[verifier::opaque]
pub open spec fn dec_hard(s: Seq<u8>) -> Option<HardState> {
    if s.len() != 24 {
        None
    } else {
        Some(HardState {
            term: be_val(s.subrange(0, 8)) as u64,
            vote: be_val(s.subrange(8, 16)) as u64,
            commit: be_val(s.subrange(16, 24)) as u64,
        })
    }
}

pub proof fn lemma_hard_roundtrip(h: HardState)
    ensures
        dec_hard(enc_hard(h)) == Some(h),
{
    reveal(enc_hard);
    reveal(dec_hard);
    let s = enc_hard(h);
    lemma_be_bytes_val(h.term);
    lemma_be_bytes_val(h.vote);
    lemma_be_bytes_val(h.commit);
    assert(s.subrange(0, 8) =~= be_bytes(h.term));
    assert(s.subrange(8, 16) =~= be_bytes(h.vote));
    assert(s.subrange(16, 24) =~= be_bytes(h.commit));
}

/// Encode the hard state.
pub fn enc_hard_bytes(h: &HardState) -> (r: Vec<u8>)
    ensures
        r@ == enc_hard(*h),
{
    proof { reveal(enc_hard); }
    let mut r = u64_to_be(h.term);
    let mut b = u64_to_be(h.vote);
    r.append(&mut b);
    let mut c = u64_to_be(h.commit);
    r.append(&mut c);
    proof {
        assert(r@ =~= enc_hard(*h));
    }
    r
}

/// Decode the hard state.
pub fn dec_hard_bytes(s: &[u8]) -> (r: Option<HardState>)
    ensures
        match r {
            Some(h) => dec_hard(s@) == Some(h),
            None => dec_hard(s@) is None,
        },
{
    proof { reveal(dec_hard); }
    if s.len() != 24 {
        return None;
    }
    let term = be_to_u64(slice_subrange(s, 0, 8));
    let vote = be_to_u64(slice_subrange(s, 8, 16));
    let commit = be_to_u64(slice_subrange(s, 16, 24));
    proof {
        lemma_be_val_bound(s@.subrange(0, 8));
        lemma_be_val_bound(s@.subrange(8, 16));
        lemma_be_val_bound(s@.subrange(16, 24));
        lemma_pow256_values();
    }
    Some(HardState { term, vote, commit })
}

/// Encoding of a status record: seven fixed fields.
#[verifier::opaque]
pub open spec fn enc_status(st: Status) -> Seq<u8> {
    be_bytes(st.leader_id) + be_bytes(st.id) + be_bytes(st.first_index)
        + be_bytes(st.last_index) + be_bytes(st.term) + be_bytes(st.apply_index)
        + be_bytes(st.commit_index)
}

/// Decoding of a status record.
#[verifier::opaque]
pub open spec fn dec_status(s: Seq<u8>) -> Option<Status> {
    if s.len() != 56 {
        None
    } else {
        Some(Status {
            leader_id: be_val(s.subrange(0, 8)) as u64,
            id: be_val(s.subrange(8, 16)) as u64,
            first_index: be_val(s.subrange(16, 24)) as u64,
            last_index: be_val(s.subrange(24, 32)) as u64,
            term: be_val(s.subrange(32, 40)) as u64,
            apply_index: be_val(s.subrange(40, 48)) as u64,
            commit_index: be_val(s.subrange(48, 56)) as u64,
        })
    }
}

pub proof fn lemma_status_roundtrip(st: Status)
    ensures
        dec_status(enc_status(st)) == Some(st),
{
    reveal(enc_status);
    reveal(dec_status);
    let s = enc_status(st);
    lemma_be_bytes_val(st.leader_id);
    lemma_be_bytes_val(st.id);
    lemma_be_bytes_val(st.first_index);
    lemma_be_bytes_val(st.last_index);
    lemma_be_bytes_val(st.term);
    lemma_be_bytes_val(st.apply_index);
    lemma_be_bytes_val(st.commit_index);
    assert(s.subrange(0, 8) =~= be_bytes(st.leader_id));
    assert(s.subrange(8, 16) =~= be_bytes(st.id));
    assert(s.subrange(16, 24) =~= be_bytes(st.first_index));
    assert(s.subrange(24, 32) =~= be_bytes(st.last_index));
    assert(s.subrange(32, 40) =~= be_bytes(st.term));
    assert(s.subrange(40, 48) =~= be_bytes(st.apply_index));
    assert(s.subrange(48, 56) =~= be_bytes(st.commit_index));
}

/// Encode a status record.
pub fn enc_status_bytes(st: &Status) -> (r: Vec<u8>)
    ensures
        r@ == enc_status(*st),
{
    proof { reveal(enc_status); }
    let mut r = u64_to_be(st.leader_id);
    let mut b1 = u64_to_be(st.id);
    r.append(&mut b1);
    let mut b2 = u64_to_be(st.first_index);
    r.append(&mut b2);
    let mut b3 = u64_to_be(st.last_index);
    r.append(&mut b3);
    let mut b4 = u64_to_be(st.term);
    r.append(&mut b4);
    let mut b5 = u64_to_be(st.apply_index);
    r.append(&mut b5);
    let mut b6 = u64_to_be(st.commit_index);
    r.append(&mut b6);
    proof {
        assert(r@ =~= enc_status(*st));
    }
    r
}

/// Decode a status record.
pub fn dec_status_bytes(s: &[u8]) -> (r: Option<Status>)
    ensures
        match r {
            Some(st) => dec_status(s@) == Some(st),
            None => dec_status(s@) is None,
        },
{
    proof { reveal(dec_status); }
    if s.len() != 56 {
        return None;
    }
    proof {
        lemma_be_val_bound(s@.subrange(0, 8));
        lemma_be_val_bound(s@.subrange(8, 16));
        lemma_be_val_bound(s@.subrange(16, 24));
        lemma_be_val_bound(s@.subrange(24, 32));
        lemma_be_val_bound(s@.subrange(32, 40));
        lemma_be_val_bound(s@.subrange(40, 48));
        lemma_be_val_bound(s@.subrange(48, 56));
        lemma_pow256_values();
    }
    Some(Status {
        leader_id: be_to_u64(slice_subrange(s, 0, 8)),
        id: be_to_u64(slice_subrange(s, 8, 16)),
        first_index: be_to_u64(slice_subrange(s, 16, 24)),
        last_index: be_to_u64(slice_subrange(s, 24, 32)),
        term: be_to_u64(slice_subrange(s, 32, 40)),
        apply_index: be_to_u64(slice_subrange(s, 40, 48)),
        commit_index: be_to_u64(slice_subrange(s, 48, 56)),
    })
}

/// Encoding of a client command: id, op, key, value, each length-framed.
#[verifier::opaque]
pub open spec fn enc_request(m: RequestModel) -> Seq<u8> {
    be_bytes(m.id) + be_bytes(m.op as u64) + be_bytes(m.key.len() as u64) + m.key
        + be_bytes(m.value.len() as u64) + m.value
}

/// Decoding of a client command.
#[verifier::opaque]
pub open spec fn dec_request(s: Seq<u8>) -> Option<RequestModel> {
    if s.len() < 32 {
        None
    } else {
        let opv = be_val(s.subrange(8, 16));
        let klen = be_val(s.subrange(16, 24));
        if opv >= 0x1_0000_0000 {
            None
        } else if klen > s.len() - 32 {
            None
        } else {
            let vlen = be_val(s.subrange(24 + klen, 32 + klen));
            if vlen != s.len() - 32 - klen {
                None
            } else {
                Some(RequestModel {
                    id: be_val(s.subrange(0, 8)) as u64,
                    op: opv as u32,
                    key: s.subrange(24, 24 + klen),
                    value: s.skip(32 + klen),
                })
            }
        }
    }
}

pub proof fn lemma_request_roundtrip(m: RequestModel)
    requires
        m.key.len() < 0x1_0000_0000_0000_0000,
        m.value.len() < 0x1_0000_0000_0000_0000,
    ensures
        dec_request(enc_request(m)) == Some(m),
{
    reveal(enc_request);
    reveal(dec_request);
    let s = enc_request(m);
    lemma_be_bytes_val(m.id);
    lemma_be_bytes_val(m.op as u64);
    lemma_be_bytes_val(m.key.len() as u64);
    lemma_be_bytes_val(m.value.len() as u64);
    let klen = m.key.len() as int;
    assert(s.len() == 32 + klen + m.value.len());
    assert(s.subrange(0, 8) =~= be_bytes(m.id));
    assert(s.subrange(8, 16) =~= be_bytes(m.op as u64));
    assert(s.subrange(16, 24) =~= be_bytes(m.key.len() as u64));
    assert(s.subrange(24, 24 + klen) =~= m.key);
    assert(s.subrange(24 + klen, 32 + klen) =~= be_bytes(m.value.len() as u64));
    assert(s.skip(32 + klen) =~= m.value);
}

/// Encode a client command.
pub fn enc_request_bytes(m: &Request) -> (r: Vec<u8>)
    ensures
        r@ == enc_request(m@),
{
    proof { reveal(enc_request); }
    let mut r = u64_to_be(m.id);
    let mut b1 = u64_to_be(m.op as u64);
    r.append(&mut b1);
    let mut b2 = u64_to_be(m.row.key.len() as u64);
    r.append(&mut b2);
    let mut k = copy_bytes(m.row.key.as_slice());
    r.append(&mut k);
    let mut b3 = u64_to_be(m.row.value.len() as u64);
    r.append(&mut b3);
    let mut v = copy_bytes(m.row.value.as_slice());
    r.append(&mut v);
    proof {
        assert(r@ =~= enc_request(m@));
    }
    r
}

/// Decode a client command.
pub fn dec_request_bytes(s: &[u8]) -> (r: Option<Request>)
    ensures
        match r {
            Some(m) => dec_request(s@) == Some(m@),
            None => dec_request(s@) is None,
        },
{
    proof { reveal(dec_request); }
    let n = s.len();
    if n < 32 {
        return None;
    }
    let op64 = be_to_u64(slice_subrange(s, 8, 16));
    proof {
        lemma_be_val_bound(s@.subrange(8, 16));
        lemma_be_val_bound(s@.subrange(16, 24));
        lemma_pow256_values();
    }
    if op64 >= 0x1_0000_0000u64 {
        return None;
    }
    let klen64 = be_to_u64(slice_subrange(s, 16, 24));
    if klen64 > (n - 32) as u64 {
        return None;
    }
    let klen = klen64 as usize;
    let vlen64 = be_to_u64(slice_subrange(s, 24 + klen, 32 + klen));
    proof {
        lemma_be_val_bound(s@.subrange(24 + klen as int, 32 + klen as int));
    }
    if vlen64 != (n - 32 - klen) as u64 {
        return None;
    }
    let id = be_to_u64(slice_subrange(s, 0, 8));
    proof {
        lemma_be_val_bound(s@.subrange(0, 8));
    }
    let key = copy_bytes(slice_subrange(s, 24, 24 + klen));
    let value = copy_bytes(slice_subrange(s, 32 + klen, n));
    proof {
        assert(s@.subrange(32 + klen as int, n as int) =~= s@.skip(32 + klen as int));
    }
    Some(Request { id, op: op64 as u32, row: Row { key, value } })
}

/// Encoding of a voter list: each id as eight bytes, concatenated.
#[verifier::opaque]
pub open spec fn enc_u64s(vs: Seq<u64>) -> Seq<u8>
    decreases vs.len(),
{
    if vs.len() == 0 {
        Seq::empty()
    } else {
        be_bytes(vs[0]) + enc_u64s(vs.skip(1))
    }
}

/// Decoding of a voter list.
#[verifier::opaque]
pub open spec fn dec_u64s(s: Seq<u8>) -> Option<Seq<u64>>
    decreases s.len(),
{
    if s.len() == 0 {
        Some(Seq::empty())
    } else if s.len() < 8 {
        None
    } else {
        match dec_u64s(s.skip(8)) {
            Some(t) => Some(seq![be_val(s.subrange(0, 8)) as u64] + t),
            None => None,
        }
    }
}

pub proof fn lemma_u64s_roundtrip(vs: Seq<u64>)
    ensures
        dec_u64s(enc_u64s(vs)) == Some(vs),
    decreases vs.len(),
{
    reveal_with_fuel(enc_u64s, 2);
    reveal_with_fuel(dec_u64s, 2);
    if vs.len() == 0 {
        assert(enc_u64s(vs).len() == 0);
        assert(dec_u64s(enc_u64s(vs)) == Some(Seq::<u64>::empty()));
        assert(vs =~= Seq::<u64>::empty());
    } else {
        lemma_u64s_roundtrip(vs.skip(1));
        lemma_be_bytes_val(vs[0]);
        let s = enc_u64s(vs);
        assert(s == be_bytes(vs[0]) + enc_u64s(vs.skip(1)));
        assert(s.len() >= 8);
        assert(s.subrange(0, 8) =~= be_bytes(vs[0]));
        assert(s.skip(8) =~= enc_u64s(vs.skip(1)));
        assert(seq![vs[0]] + vs.skip(1) =~= vs);
    }
}

/// Encode a voter list.
pub fn enc_u64s_bytes(vs: &Vec<u64>) -> (r: Vec<u8>)
    ensures
        r@ == enc_u64s(vs@),
{
    proof { reveal_with_fuel(enc_u64s, 2); }
    let n = vs.len();
    let mut r: Vec<u8> = Vec::new();
    let mut i: usize = 0;
    while i < n
        invariant
            0 <= i <= n,
            n == vs@.len(),
            r@ == enc_u64s(vs@.take(i as int)),
        decreases n - i,
    {
        proof {
            reveal_with_fuel(enc_u64s, 2);
        }
        let mut b = u64_to_be(vs[i]);
        r.append(&mut b);
        proof {
            lemma_enc_u64s_push(vs@.take(i as int), vs@[i as int]);
            assert(vs@.take(i as int).push(vs@[i as int]) =~= vs@.take(i as int + 1));
        }
        i = i + 1;
    }
    proof {
        assert(vs@.take(n as int) =~= vs@);
    }
    r
}

proof fn lemma_enc_u64s_push(vs: Seq<u64>, v: u64)
    ensures
        enc_u64s(vs.push(v)) == enc_u64s(vs) + be_bytes(v),
    decreases vs.len(),
{
    reveal_with_fuel(enc_u64s, 3);
    if vs.len() == 0 {
        assert(vs.push(v)[0] == v);
        assert(vs.push(v).skip(1) =~= vs);
        assert(enc_u64s(vs.push(v)) =~= be_bytes(v) + Seq::<u8>::empty());
        assert(enc_u64s(vs.push(v)) =~= enc_u64s(vs) + be_bytes(v));
    } else {
        lemma_enc_u64s_push(vs.skip(1), v);
        assert(vs.push(v)[0] == vs[0]);
        assert(vs.push(v).skip(1) =~= vs.skip(1).push(v));
        assert(enc_u64s(vs.push(v)) == be_bytes(vs[0]) + enc_u64s(vs.skip(1).push(v)));
        assert(be_bytes(vs[0]) + (enc_u64s(vs.skip(1)) + be_bytes(v))
            =~= (be_bytes(vs[0]) + enc_u64s(vs.skip(1))) + be_bytes(v));
    }
}

/// Decode a voter list.
pub fn dec_u64s_bytes(s: &[u8]) -> (r: Option<Vec<u64>>)
    ensures
        match r {
            Some(vs) => dec_u64s(s@) == Some(vs@),
            None => dec_u64s(s@) is None,
        },
{
    proof { reveal_with_fuel(dec_u64s, 2); }
    let n = s.len();
    if n % 8 != 0 {
        proof {
            lemma_dec_u64s_ragged(s@);
        }
        return None;
    }
    let mut vs: Vec<u64> = Vec::new();
    let mut pos: usize = 0;
    proof {
        assert(s@.skip(0) =~= s@);
        if dec_u64s(s@) is Some {
            assert(vs@ + dec_u64s(s@)->Some_0 =~= dec_u64s(s@)->Some_0);
        }
    }
    while pos < n
        invariant
            0 <= pos <= n,
            n == s@.len(),
            n % 8 == 0,
            pos % 8 == 0,
            dec_u64s(s@) == match dec_u64s(s@.skip(pos as int)) {
                Some(t) => Some(vs@ + t),
                None => None::<Seq<u64>>,
            },
        decreases n - pos,
    {
        proof {
            reveal_with_fuel(dec_u64s, 2);
        }
        let ghost rest = s@.skip(pos as int);
        assert(rest.len() == n - pos);
        assert(rest.len() >= 8) by {
            assert(n - pos >= 8) by (nonlinear_arith)
                requires
                    (n as int) % 8 == 0,
                    (pos as int) % 8 == 0,
                    pos < n,
            ;
        }
        let v = be_to_u64(slice_subrange(s, pos, pos + 8));
        proof {
            lemma_be_val_bound(s@.subrange(pos as int, pos as int + 8));
            lemma_pow256_values();
            assert(rest.subrange(0, 8) =~= s@.subrange(pos as int, pos as int + 8));
            assert(rest.skip(8) =~= s@.skip(pos as int + 8));
        }
        vs.push(v);
        proof {
            let ghost prev = vs@.drop_last();
            assert(vs@ == prev.push(v));
            match dec_u64s(s@.skip(pos as int + 8)) {
                Some(t) => {
                    assert(dec_u64s(rest) == Some(seq![v] + t));
                    assert(prev.push(v) + t =~= prev + (seq![v] + t));
                }
                None => {
                    assert(dec_u64s(rest) is None);
                }
            }
        }
        pos = pos + 8;
    }
    proof {
        assert(s@.skip(n as int).len() == 0);
        assert(dec_u64s(s@.skip(n as int)) == Some(Seq::<u64>::empty()));
        assert(vs@ + Seq::<u64>::empty() =~= vs@);
    }
    Some(vs)
}

/// A list whose length is not a multiple of eight does not decode.
proof fn lemma_dec_u64s_ragged(s: Seq<u8>)
    requires
        s.len() % 8 != 0,
    ensures
        dec_u64s(s) is None,
    decreases s.len(),
{
    reveal_with_fuel(dec_u64s, 2);
    if s.len() < 8 {
    } else {
        lemma_dec_u64s_ragged(s.skip(8));
        assert(s.skip(8).len() % 8 != 0) by (nonlinear_arith)
            requires
                s.len() % 8 != 0,
                s.len() >= 8,
                s.skip(8).len() == s.len() - 8,
        ;
    }
}

/// Encoding of one snapshot row: framed key then framed value.
#[verifier::opaque]
pub open spec fn enc_row(r: RowModel) -> Seq<u8> {
    be_bytes(r.key.len() as u64) + r.key + be_bytes(r.value.len() as u64) + r.value
}

/// Encoding of a snapshot payload: the rows, one after the other.
#[verifier::opaque]
pub open spec fn enc_rows(rs: Seq<RowModel>) -> Seq<u8>
    decreases rs.len(),
{
    if rs.len() == 0 {
        Seq::empty()
    } else {
        enc_row(rs[0]) + enc_rows(rs.skip(1))
    }
}

/// Decoding of a snapshot payload.
#[verifier::opaque]
pub open spec fn dec_rows(s: Seq<u8>) -> Option<Seq<RowModel>>
    decreases s.len(),
{
    if s.len() == 0 {
        Some(Seq::empty())
    } else if s.len() < 16 {
        None
    } else {
        let klen = be_val(s.subrange(0, 8));
        if klen < 0 || klen > s.len() - 16 {
            None
        } else {
            let vlen = be_val(s.subrange(8 + klen, 16 + klen));
            if vlen < 0 || vlen > s.len() - 16 - klen {
                None
            } else {
                let row = RowModel {
                    key: s.subrange(8, 8 + klen),
                    value: s.subrange(16 + klen, 16 + klen + vlen),
                };
                match dec_rows(s.skip(16 + klen + vlen)) {
                    Some(t) => Some(seq![row] + t),
                    None => None,
                }
            }
        }
    }
}

#[verifier::rlimit(100)]
pub proof fn lemma_rows_roundtrip(rs: Seq<RowModel>)
    requires
        forall|i: int| 0 <= i < rs.len() ==> (#[trigger] rs[i].key).len() < 0x1_0000_0000_0000_0000
            && rs[i].value.len() < 0x1_0000_0000_0000_0000,
    ensures
        dec_rows(enc_rows(rs)) == Some(rs),
    decreases rs.len(),
{
    reveal_with_fuel(enc_rows, 2);
    reveal_with_fuel(dec_rows, 2);
    reveal(enc_row);
    if rs.len() == 0 {
        assert(enc_rows(rs).len() == 0);
        assert(rs =~= Seq::<RowModel>::empty());
    } else {
        assert(forall|i: int| 0 <= i < rs.skip(1).len()
            ==> rs.skip(1)[i] == rs[i + 1]);
        lemma_rows_roundtrip(rs.skip(1));
        let r0 = rs[0];
        lemma_be_bytes_val(r0.key.len() as u64);
        lemma_be_bytes_val(r0.value.len() as u64);
        let klen = r0.key.len() as int;
        let vlen = r0.value.len() as int;
        let s = enc_rows(rs);
        assert(s == enc_row(r0) + enc_rows(rs.skip(1)));
        assert(enc_row(r0).len() == 16 + klen + vlen);
        assert(s.len() >= 16 + klen + vlen);
        assert(s.subrange(0, 8) =~= be_bytes(r0.key.len() as u64));
        assert(s.subrange(8, 8 + klen) =~= r0.key);
        assert(s.subrange(8 + klen, 16 + klen) =~= be_bytes(r0.value.len() as u64));
        assert(s.subrange(16 + klen, 16 + klen + vlen) =~= r0.value);
        assert(s.skip(16 + klen + vlen) =~= enc_rows(rs.skip(1)));
        assert(be_val(s.subrange(0, 8)) == klen);
        assert(be_val(s.subrange(8 + klen, 16 + klen)) == vlen);
        assert(klen <= s.len() - 16);
        assert(vlen <= s.len() - 16 - klen);
        let row = RowModel { key: s.subrange(8, 8 + klen), value: s.subrange(16 + klen, 16 + klen + vlen) };
        assert(row == r0);
        assert(seq![r0] + rs.skip(1) =~= rs);
    }
}

/// Encode a snapshot payload.
pub fn enc_rows_bytes(rows: &Vec<Row>) -> (r: Vec<u8>)
    ensures
        r@ == enc_rows(rows_view(rows@)),
{
    proof { reveal_with_fuel(enc_rows, 2); reveal(enc_row); }
    let n = rows.len();
    let mut r: Vec<u8> = Vec::new();
    let mut i: usize = 0;
    while i < n
        invariant
            0 <= i <= n,
            n == rows@.len(),
            r@ == enc_rows(rows_view(rows@.take(i as int))),
        decreases n - i,
    {
        proof {
            reveal_with_fuel(enc_rows, 2);
            reveal(enc_row);
        }
        let mut b1 = u64_to_be(rows[i].key.len() as u64);
        r.append(&mut b1);
        let mut k = copy_bytes(rows[i].key.as_slice());
        r.append(&mut k);
        let mut b2 = u64_to_be(rows[i].value.len() as u64);
        r.append(&mut b2);
        let mut v = copy_bytes(rows[i].value.as_slice());
        r.append(&mut v);
        proof {
            lemma_enc_rows_push(rows_view(rows@.take(i as int)), rows@[i as int]@);
            assert(rows_view(rows@.take(i as int)).push(rows@[i as int]@)
                =~= rows_view(rows@.take(i as int + 1)));
        }
        i = i + 1;
    }
    proof {
        assert(rows@.take(n as int) =~= rows@);
    }
    r
}

proof fn lemma_enc_rows_push(rs: Seq<RowModel>, r: RowModel)
    ensures
        enc_rows(rs.push(r)) == enc_rows(rs) + enc_row(r),
    decreases rs.len(),
{
    reveal_with_fuel(enc_rows, 3);
    if rs.len() == 0 {
        assert(rs.push(r)[0] == r);
        assert(rs.push(r).skip(1) =~= rs);
        assert(enc_rows(rs.push(r)) =~= enc_row(r) + Seq::<u8>::empty());
        assert(enc_rows(rs.push(r)) =~= enc_rows(rs) + enc_row(r));
    } else {
        lemma_enc_rows_push(rs.skip(1), r);
        assert(rs.push(r)[0] == rs[0]);
        assert(rs.push(r).skip(1) =~= rs.skip(1).push(r));
        assert(enc_rows(rs.push(r)) == enc_row(rs[0]) + enc_rows(rs.skip(1).push(r)));
        assert(enc_row(rs[0]) + (enc_rows(rs.skip(1)) + enc_row(r))
            =~= (enc_row(rs[0]) + enc_rows(rs.skip(1))) + enc_row(r));
    }
}

/// Decode a snapshot payload.
#[verifier::rlimit(100)]
pub fn dec_rows_bytes(s: &[u8]) -> (r: Option<Vec<Row>>)
    ensures
        match r {
            Some(rows) => dec_rows(s@) == Some(rows_view(rows@)),
            None => dec_rows(s@) is None,
        },
{
    proof { reveal_with_fuel(dec_rows, 2); }
    let n = s.len();
    let mut rows: Vec<Row> = Vec::new();
    let mut pos: usize = 0;
    proof {
        assert(s@.skip(0) =~= s@);
        if dec_rows(s@) is Some {
            assert(rows_view(rows@) + dec_rows(s@)->Some_0 =~= dec_rows(s@)->Some_0);
            assert(rows_view(rows@).len() == 0);
        }
    }
    while pos < n
        invariant
            0 <= pos <= n,
            n == s@.len(),
            dec_rows(s@) == match dec_rows(s@.skip(pos as int)) {
                Some(t) => Some(rows_view(rows@) + t),
                None => None::<Seq<RowModel>>,
            },
        decreases n - pos,
    {
        proof {
            reveal_with_fuel(dec_rows, 2);
        }
        let ghost rest = s@.skip(pos as int);
        assert(rest.len() == n - pos);
        if n - pos < 16 {
            proof {
                assert(dec_rows(rest) is None);
            }
            return None;
        }
        let klen64 = be_to_u64(slice_subrange(s, pos, pos + 8));
        proof {
            lemma_be_val_bound(s@.subrange(pos as int, pos as int + 8));
            lemma_pow256_values();
            assert(rest.subrange(0, 8) =~= s@.subrange(pos as int, pos as int + 8));
        }
        if klen64 > (n - pos - 16) as u64 {
            proof {
                assert(dec_rows(rest) is None);
            }
            return None;
        }
        let klen = klen64 as usize;
        let vlen64 = be_to_u64(slice_subrange(s, pos + 8 + klen, pos + 16 + klen));
        proof {
            lemma_be_val_bound(s@.subrange(pos as int + 8 + klen as int, pos as int + 16 + klen as int));
            assert(rest.subrange(8 + klen as int, 16 + klen as int)
                =~= s@.subrange(pos as int + 8 + klen as int, pos as int + 16 + klen as int));
        }
        if vlen64 > (n - pos - 16 - klen) as u64 {
            proof {
                assert(dec_rows(rest) is None);
            }
            return None;
        }
        let vlen = vlen64 as usize;
        let key = copy_bytes(slice_subrange(s, pos + 8, pos + 8 + klen));
        let value = copy_bytes(slice_subrange(s, pos + 16 + klen, pos + 16 + klen + vlen));
        let row = Row { key, value };
        proof {
            assert(rest.subrange(8, 8 + klen as int)
                =~= s@.subrange(pos as int + 8, pos as int + 8 + klen as int));
            assert(rest.subrange(16 + klen as int, 16 + klen as int + vlen as int)
                =~= s@.subrange(pos as int + 16 + klen as int, pos as int + 16 + klen as int + vlen as int));
            assert(rest.skip(16 + klen as int + vlen as int)
                =~= s@.skip(pos as int + 16 + klen as int + vlen as int));
        }
        rows.push(row);
        proof {
            let ghost prevm = rows_view(rows@.drop_last());
            assert(rows@.drop_last().push(row) =~= rows@);
            assert(rows_view(rows@) =~= prevm.push(row@));
            let m = RowModel { key: rest.subrange(8, 8 + klen as int),
                value: rest.subrange(16 + klen as int, 16 + klen as int + vlen as int) };
            assert(m == row@);
            match dec_rows(s@.skip(pos as int + 16 + klen as int + vlen as int)) {
                Some(t) => {
                    assert(dec_rows(rest) == Some(seq![m] + t));
                    assert(prevm.push(row@) + t =~= prevm + (seq![m] + t));
                }
                None => {
                    assert(dec_rows(rest) is None);
                }
            }
        }
        pos = pos + 16 + klen + vlen;
    }
    proof {
        assert(s@.skip(n as int).len() == 0);
        assert(dec_rows(s@.skip(n as int)) == Some(Seq::<RowModel>::empty()));
        assert(rows_view(rows@) + Seq::<RowModel>::empty() =~= rows_view(rows@));
    }
    Some(rows)
}

} // verus!
