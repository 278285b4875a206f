//! In-memory ordered key-value engine.
//!
//! This is the storage-operation set the rest of the crate is written
//! against: get, put, delete, atomic batch write, ordered range scan and
//! reverse seek.  Rows are kept sorted by key in lexicographic byte order,
//! with exactly one row per key; the engine's abstract state is the map
//! [`KV::contents`].

use vstd::prelude::*;
use crate::order::{lex_lt, lex_le, lex_lt_bytes, eq_bytes, lemma_lex_irrefl, lemma_lex_total,
    lemma_lex_trans};

verus! {

/// One key-value pair of the engine or of a snapshot payload.
#[derive(Debug, Clone, PartialEq)]
pub struct Row {
    pub key: Vec<u8>,
    pub value: Vec<u8>,
}

/// One operation of an atomic batch write.
pub enum BatchOp {
    Put { key: Vec<u8>, value: Vec<u8> },
    Delete { key: Vec<u8> },
}

/// The abstract effect of one batch operation.
pub open spec fn apply_op(m: Map<Seq<u8>, Seq<u8>>, op: BatchOp) -> Map<Seq<u8>, Seq<u8>> {
    match op {
        BatchOp::Put { key, value } => m.insert(key@, value@),
        BatchOp::Delete { key } => m.remove(key@),
    }
}

/// The abstract effect of a batch, applied front to back.
pub open spec fn apply_ops(m: Map<Seq<u8>, Seq<u8>>, ops: Seq<BatchOp>) -> Map<Seq<u8>, Seq<u8>>
    decreases ops.len(),
{
    if ops.len() == 0 {
        m
    } else {
        apply_ops(apply_op(m, ops[0]), ops.skip(1))
    }
}

pub proof fn lemma_apply_ops_push(m: Map<Seq<u8>, Seq<u8>>, ops: Seq<BatchOp>, op: BatchOp)
    ensures
        apply_ops(m, ops.push(op)) == apply_op(apply_ops(m, ops), op),
    decreases ops.len(),
{
    reveal_with_fuel(apply_ops, 3);
    if ops.len() == 0 {
        assert(ops.push(op)[0] == op);
        assert(ops.push(op).skip(1) =~= ops);
    } else {
        let t = ops.push(op);
        assert(t.len() == ops.len() + 1);
        assert(apply_ops(m, t) == apply_ops(apply_op(m, t[0]), t.skip(1)));
        assert(t[0] == ops[0]);
        assert(t.skip(1) =~= ops.skip(1).push(op));
        lemma_apply_ops_push(apply_op(m, ops[0]), ops.skip(1), op);
        assert(apply_ops(m, ops) == apply_ops(apply_op(m, ops[0]), ops.skip(1)));
    }
}

/// The keys between `start` (inclusive) and `end` (exclusive).
pub open spec fn range_set(start: Seq<u8>, end: Seq<u8>) -> Set<Seq<u8>> {
    Set::new(|k: Seq<u8>| lex_le(start, k) && lex_lt(k, end))
}

/// Copy a byte string.
pub fn copy_bytes(src: &[u8]) -> (r: Vec<u8>)
    ensures
        r@ == src@,
{
    let n = src.len();
    let mut r: Vec<u8> = Vec::new();
    let mut i: usize = 0;
    while i < n
        invariant
            0 <= i <= n,
            n == src@.len(),
            r@ == src@.take(i as int),
        decreases n - i,
    {
        r.push(src[i]);
        proof {
            assert(src@.take(i as int + 1) =~= src@.take(i as int).push(src@[i as int]));
        }
        i = i + 1;
    }
    proof {
        assert(src@.take(n as int) =~= src@);
    }
    r
}

/// Copy a list of ids.
pub fn copy_u64s(src: &Vec<u64>) -> (r: Vec<u64>)
    ensures
        r@ == src@,
{
    let n = src.len();
    let mut r: Vec<u64> = Vec::new();
    let mut i: usize = 0;
    while i < n
        invariant
            0 <= i <= n,
            n == src@.len(),
            r@ == src@.take(i as int),
        decreases n - i,
    {
        r.push(src[i]);
        proof {
            assert(src@.take(i as int + 1) =~= src@.take(i as int).push(src@[i as int]));
        }
        i = i + 1;
    }
    proof {
        assert(src@.take(n as int) =~= src@);
    }
    r
}

/// Copy a row.
pub fn copy_row(r: &Row) -> (c: Row)
    ensures
        c.key@ == r.key@,
        c.value@ == r.value@,
{
    Row { key: copy_bytes(r.key.as_slice()), value: copy_bytes(r.value.as_slice()) }
}

/// The in-memory engine: rows sorted strictly by key.
pub struct KV {
    rows: Vec<Row>,
}

impl KV {
    /// Rows are strictly sorted by key, so every key occurs at most once.
    pub closed spec fn wf(self) -> bool {
        forall|i: int, j: int|
            0 <= i < j < self.rows@.len() ==> lex_lt(self.rows@[i].key@, self.rows@[j].key@)
    }

    /// The abstract state: a map from key to value.
    pub closed spec fn contents(self) -> Map<Seq<u8>, Seq<u8>> {
        Map::new(
            |k: Seq<u8>|
                exists|i: int| 0 <= i < self.rows@.len() && self.rows@[i].key@ == k,
            |k: Seq<u8>|
                self.rows@[choose|i: int|
                    0 <= i < self.rows@.len() && self.rows@[i].key@ == k].value@,
        )
    }

    proof fn lemma_distinct(self)
        requires
            self.wf(),
        ensures
            forall|i: int, j: int|
                0 <= i < self.rows@.len() && 0 <= j < self.rows@.len() && i != j
                    ==> self.rows@[i].key@ != self.rows@[j].key@,
    {
        assert forall|i: int, j: int|
            0 <= i < self.rows@.len() && 0 <= j < self.rows@.len() && i != j
            implies self.rows@[i].key@ != self.rows@[j].key@ by {
            if i < j {
                lemma_lex_irrefl(self.rows@[i].key@);
            } else {
                lemma_lex_irrefl(self.rows@[j].key@);
            }
        }
    }

    /// The row at index `i` is visible in the abstract map.
    proof fn lemma_row_present(self, i: int)
        requires
            self.wf(),
            0 <= i < self.rows@.len(),
        ensures
            self.contents().contains_key(self.rows@[i].key@),
            self.contents()[self.rows@[i].key@] == self.rows@[i].value@,
    {
        self.lemma_distinct();
        let k = self.rows@[i].key@;
        let j = choose|j: int| 0 <= j < self.rows@.len() && self.rows@[j].key@ == k;
        assert(0 <= j < self.rows@.len() && self.rows@[j].key@ == k);
        assert(j == i);
    }

    /// A fresh, empty engine.
    pub fn new() -> (r: KV)
        ensures
            r.wf(),
            r.contents() == Map::<Seq<u8>, Seq<u8>>::empty(),
    {
        let r = KV { rows: Vec::new() };
        proof {
            assert(r.contents() =~= Map::<Seq<u8>, Seq<u8>>::empty());
        }
        r
    }

    /// Read the value of a key.
    pub fn get(&self, key: &[u8]) -> (r: Option<Vec<u8>>)
        requires
            self.wf(),
        ensures
            match r {
                Some(v) => self.contents().contains_key(key@)
                    && v@ == self.contents()[key@],
                None => !self.contents().contains_key(key@),
            },
    {
        let n = self.rows.len();
        let mut i: usize = 0;
        while i < n
            invariant
                0 <= i <= n,
                n == self.rows@.len(),
                self.wf(),
                forall|j: int| 0 <= j < i ==> self.rows@[j].key@ != key@,
            decreases n - i,
        {
            if eq_bytes(self.rows[i].key.as_slice(), key) {
                let v = copy_bytes(self.rows[i].value.as_slice());
                proof {
                    self.lemma_row_present(i as int);
                }
                return Some(v);
            }
            i = i + 1;
        }
        None
    }

    /// Insert or overwrite a key.
    pub fn put(&mut self, key: &[u8], value: &[u8])
        requires
            old(self).wf(),
        ensures
            final(self).wf(),
            final(self).contents() == old(self).contents().insert(key@, value@),
    {
        let n = self.rows.len();
        let mut pos: usize = 0;
        while pos < n && lex_lt_bytes(self.rows[pos].key.as_slice(), key)
            invariant
                0 <= pos <= n,
                n == self.rows@.len(),
                self.wf(),
                self == old(self),
                forall|j: int| 0 <= j < pos ==> lex_lt(self.rows@[j].key@, key@),
            decreases n - pos,
        {
            pos = pos + 1;
        }
        let row = Row { key: copy_bytes(key), value: copy_bytes(value) };
        proof {
            old(self).lemma_distinct();
        }
        if pos < n && eq_bytes(self.rows[pos].key.as_slice(), key) {
            self.rows.remove(pos);
            self.rows.insert(pos, row);
            proof {
                assert(self.rows@ =~= old(self).rows@.update(pos as int, Row {
                    key: self.rows@[pos as int].key,
                    value: self.rows@[pos as int].value,
                }));
                assert(forall|j: int| 0 <= j < self.rows@.len() && j != pos
                    ==> self.rows@[j] == old(self).rows@[j]);
                assert(self.rows@[pos as int].key@ == key@);
                assert(self.rows@[pos as int].value@ == value@);
                assert(self.rows@.len() == old(self).rows@.len());
                assert forall|i: int, j: int| 0 <= i < j < self.rows@.len()
                    implies lex_lt(self.rows@[i].key@, self.rows@[j].key@) by {
                    assert(self.rows@[i].key@ == old(self).rows@[i].key@);
                    assert(self.rows@[j].key@ == old(self).rows@[j].key@);
                }
                self.lemma_distinct();
                assert forall|k: Seq<u8>| true implies
                    self.contents().contains_key(k)
                        == old(self).contents().insert(key@, value@).contains_key(k) by {
                    assert(forall|i: int| 0 <= i < self.rows@.len()
                        ==> self.rows@[i].key@ == old(self).rows@[i].key@);
                }
                assert forall|k: Seq<u8>| self.contents().contains_key(k) implies
                    self.contents()[k] == old(self).contents().insert(key@, value@)[k] by {
                    let i = choose|i: int|
                        0 <= i < self.rows@.len() && self.rows@[i].key@ == k;
                    if k == key@ {
                        assert(i == pos);
                        self.lemma_row_present(pos as int);
                    } else {
                        assert(i != pos);
                        self.lemma_row_present(i);
                        old(self).lemma_row_present(i);
                    }
                }
                assert(self.contents() =~= old(self).contents().insert(key@, value@));
            }
        } else {
            proof {
                // Every row at or after pos is strictly above key.
                assert forall|j: int| pos <= j < old(self).rows@.len()
                    implies lex_lt(key@, old(self).rows@[j].key@) by {
                    if j == pos {
                        lemma_lex_total(old(self).rows@[j].key@, key@);
                    } else {
                        lemma_lex_total(old(self).rows@[pos as int].key@, key@);
                        lemma_lex_trans(key@, old(self).rows@[pos as int].key@,
                            old(self).rows@[j].key@);
                    }
                }
            }
            self.rows.insert(pos, row);
            proof {
                let s = self.rows@;
                let o = old(self).rows@;
                assert(s.len() == o.len() + 1);
                assert(s[pos as int].key@ == key@);
                assert(s[pos as int].value@ == value@);
                assert(forall|j: int| 0 <= j < pos ==> s[j] == o[j]);
                assert(forall|j: int| pos < j < s.len() ==> s[j] == o[j - 1]);
                assert forall|i: int, j: int| 0 <= i < j < s.len()
                    implies lex_lt(s[i].key@, s[j].key@) by {
                    if i < pos && j == pos {
                    } else if i == pos && j > pos {
                    } else if i < pos && j > pos {
                        lemma_lex_trans(s[i].key@, key@, s[j].key@);
                    }
                }
                self.lemma_distinct();
                assert forall|k: Seq<u8>| true implies
                    self.contents().contains_key(k)
                        == old(self).contents().insert(key@, value@).contains_key(k) by {
                    if k == key@ {
                        assert(s[pos as int].key@ == k);
                    } else {
                        if self.contents().contains_key(k) {
                            let i = choose|i: int| 0 <= i < s.len() && s[i].key@ == k;
                            if i < pos {
                                assert(o[i].key@ == k);
                            } else {
                                assert(i > pos);
                                assert(o[i - 1].key@ == k);
                            }
                        }
                        if old(self).contents().contains_key(k) {
                            let i = choose|i: int| 0 <= i < o.len() && o[i].key@ == k;
                            if i < pos {
                                assert(s[i].key@ == k);
                            } else {
                                assert(s[i + 1].key@ == k);
                            }
                        }
                    }
                }
                assert forall|k: Seq<u8>| self.contents().contains_key(k) implies
                    self.contents()[k] == old(self).contents().insert(key@, value@)[k] by {
                    let i = choose|i: int| 0 <= i < s.len() && s[i].key@ == k;
                    self.lemma_row_present(i);
                    if k == key@ {
                        self.lemma_distinct();
                        assert(i == pos);
                    } else {
                        assert(i != pos);
                        if i < pos {
                            old(self).lemma_row_present(i);
                        } else {
                            old(self).lemma_row_present(i - 1);
                        }
                    }
                }
                assert(self.contents() =~= old(self).contents().insert(key@, value@));
            }
        }
    }

    /// Remove a key; removing an absent key is a no-op.
    pub fn delete(&mut self, key: &[u8])
        requires
            old(self).wf(),
        ensures
            final(self).wf(),
            final(self).contents() == old(self).contents().remove(key@),
    {
        let n = self.rows.len();
        let mut i: usize = 0;
        while i < n
            invariant
                0 <= i <= n,
                n == self.rows@.len(),
                self.wf(),
                self == old(self),
                forall|j: int| 0 <= j < i ==> self.rows@[j].key@ != key@,
            decreases n - i,
        {
            if eq_bytes(self.rows[i].key.as_slice(), key) {
                self.rows.remove(i);
                proof {
                    let s = self.rows@;
                    let o = old(self).rows@;
                    assert(forall|j: int| 0 <= j < i ==> s[j] == o[j]);
                    assert(forall|j: int| i <= j < s.len() ==> s[j] == o[j + 1]);
                    assert forall|p: int, q: int| 0 <= p < q < s.len()
                        implies lex_lt(s[p].key@, s[q].key@) by {}
                    self.lemma_distinct();
                    old(self).lemma_distinct();
                    assert forall|k: Seq<u8>| true implies
                        self.contents().contains_key(k)
                            == old(self).contents().remove(key@).contains_key(k) by {
                        if k != key@ {
                            if self.contents().contains_key(k) {
                                let p = choose|p: int| 0 <= p < s.len() && s[p].key@ == k;
                                if p < i {
                                    assert(o[p].key@ == k);
                                } else {
                                    assert(o[p + 1].key@ == k);
                                }
                            }
                            if old(self).contents().contains_key(k) {
                                let p = choose|p: int| 0 <= p < o.len() && o[p].key@ == k;
                                assert(p != i);
                                if p < i {
                                    assert(s[p].key@ == k);
                                } else {
                                    assert(s[p - 1].key@ == k);
                                }
                            }
                        } else {
                            if self.contents().contains_key(k) {
                                let p = choose|p: int| 0 <= p < s.len() && s[p].key@ == k;
                                if p < i {
                                    assert(o[p].key@ == k);
                                    assert(false);
                                } else {
                                    assert(o[p + 1].key@ == k);
                                    assert(false);
                                }
                            }
                        }
                    }
                    assert forall|k: Seq<u8>| self.contents().contains_key(k) implies
                        self.contents()[k] == old(self).contents().remove(key@)[k] by {
                        let p = choose|p: int| 0 <= p < s.len() && s[p].key@ == k;
                        self.lemma_row_present(p);
                        if p < i {
                            old(self).lemma_row_present(p);
                        } else {
                            old(self).lemma_row_present(p + 1);
                        }
                    }
                    assert(self.contents() =~= old(self).contents().remove(key@));
                }
                return;
            }
            i = i + 1;
        }
        proof {
            assert(!old(self).contents().contains_key(key@));
            assert(self.contents() =~= old(self).contents().remove(key@));
        }
    }

    /// Apply a batch of operations as one atomic step.
    pub fn write_batch(&mut self, ops: &Vec<BatchOp>)
        requires
            old(self).wf(),
        ensures
            final(self).wf(),
            final(self).contents() == apply_ops(old(self).contents(), ops@),
    {
        let n = ops.len();
        let mut i: usize = 0;
        while i < n
            invariant
                0 <= i <= n,
                n == ops@.len(),
                self.wf(),
                self.contents() == apply_ops(old(self).contents(), ops@.take(i as int)),
            decreases n - i,
        {
            proof {
                lemma_apply_ops_push(old(self).contents(), ops@.take(i as int), ops@[i as int]);
                assert(ops@.take(i as int).push(ops@[i as int]) =~= ops@.take(i as int + 1));
            }
            match &ops[i] {
                BatchOp::Put { key, value } => {
                    self.put(key.as_slice(), value.as_slice());
                }
                BatchOp::Delete { key } => {
                    self.delete(key.as_slice());
                }
            }
            i = i + 1;
        }
        proof {
            assert(ops@.take(n as int) =~= ops@);
        }
    }

    /// Whether row `j` of the result is a faithful copy of a source row
    /// among the first `i`.
    spec fn from_prefix(self, r: Seq<Row>, j: int, i: int) -> bool {
        exists|idx: int|
            0 <= idx < i && #[trigger] self.rows@[idx].key@ == r[j].key@
                && self.rows@[idx].value@ == r[j].value@
    }

    /// Whether every in-range row among the first `i` appears in the result.
    spec fn covers_prefix(self, r: Seq<Row>, i: int, start: Seq<u8>, end: Seq<u8>) -> bool {
        forall|idx: int|
            0 <= idx < i && lex_le(start, #[trigger] self.rows@[idx].key@)
                && lex_lt(self.rows@[idx].key@, end)
                ==> exists|j: int| 0 <= j < r.len() && #[trigger] r[j].key@ == self.rows@[idx].key@
    }

    /// All rows with keys in `[start, end)`, in ascending key order.
    #[verifier::rlimit(100)]
    pub fn scan(&self, start: &[u8], end: &[u8]) -> (r: Vec<Row>)
        requires
            self.wf(),
        ensures
            forall|j: int| 0 <= j < r@.len() ==> {
                &&& lex_le(start@, #[trigger] r@[j].key@)
                &&& lex_lt(r@[j].key@, end@)
                &&& self.contents().contains_key(r@[j].key@)
                &&& r@[j].value@ == self.contents()[r@[j].key@]
            },
            forall|k: Seq<u8>|
                self.contents().contains_key(k) && lex_le(start@, k) && lex_lt(k, end@)
                    ==> exists|j: int| 0 <= j < r@.len() && #[trigger] r@[j].key@ == k,
            forall|p: int, q: int| 0 <= p < q < r@.len()
                ==> lex_lt(r@[p].key@, r@[q].key@),
    {
        let n = self.rows.len();
        let mut r: Vec<Row> = Vec::new();
        let mut i: usize = 0;
        while i < n
            invariant
                0 <= i <= n,
                n == self.rows@.len(),
                self.wf(),
                forall|j: int| 0 <= j < r@.len() ==> {
                    &&& lex_le(start@, #[trigger] r@[j].key@)
                    &&& lex_lt(r@[j].key@, end@)
                    &&& self.from_prefix(r@, j, i as int)
                },
                self.covers_prefix(r@, i as int, start@, end@),
                forall|p: int, q: int| 0 <= p < q < r@.len()
                    ==> lex_lt(r@[p].key@, r@[q].key@),
            decreases n - i,
        {
            let key_ok_lo = !lex_lt_bytes(self.rows[i].key.as_slice(), start);
            let key_ok_hi = lex_lt_bytes(self.rows[i].key.as_slice(), end);
            proof {
                lemma_lex_total(start@, self.rows@[i as int].key@);
                lemma_lex_irrefl(self.rows@[i as int].key@);
                if lex_lt(self.rows@[i as int].key@, start@) {
                    crate::order::lemma_lex_asym(self.rows@[i as int].key@, start@);
                }
            }
            let ghost prev = r@;
            if key_ok_lo && key_ok_hi {
                let c = copy_row(&self.rows[i]);
                r.push(c);
                proof {
                    assert(r@ == prev.push(c));
                    assert forall|j: int| 0 <= j < r@.len() implies {
                        &&& lex_le(start@, #[trigger] r@[j].key@)
                        &&& lex_lt(r@[j].key@, end@)
                        &&& self.from_prefix(r@, j, i as int + 1)
                    } by {
                        if j < prev.len() {
                            assert(r@[j] == prev[j]);
                            let idx = choose|idx: int|
                                0 <= idx < i && #[trigger] self.rows@[idx].key@ == prev[j].key@
                                    && self.rows@[idx].value@ == prev[j].value@;
                            assert(self.rows@[idx].key@ == r@[j].key@
                                && self.rows@[idx].value@ == r@[j].value@);
                        } else {
                            assert(r@[j] == c);
                            assert(self.rows@[i as int].key@ == r@[j].key@
                                && self.rows@[i as int].value@ == r@[j].value@);
                        }
                    }
                    assert forall|idx: int|
                        0 <= idx < i as int + 1 && lex_le(start@, #[trigger] self.rows@[idx].key@)
                            && lex_lt(self.rows@[idx].key@, end@)
                        implies exists|j: int|
                            0 <= j < r@.len() && #[trigger] r@[j].key@ == self.rows@[idx].key@ by {
                        if idx < i as int {
                            let j = choose|j: int|
                                0 <= j < prev.len()
                                    && #[trigger] prev[j].key@ == self.rows@[idx].key@;
                            assert(r@[j].key@ == self.rows@[idx].key@);
                        } else {
                            assert(r@[r@.len() - 1].key@ == self.rows@[idx].key@);
                        }
                    }
                    assert forall|p: int, q: int| 0 <= p < q < r@.len()
                        implies lex_lt(r@[p].key@, r@[q].key@) by {
                        if q == r@.len() - 1 && p < q {
                            let idx = choose|idx: int|
                                0 <= idx < i && #[trigger] self.rows@[idx].key@ == prev[p].key@
                                    && self.rows@[idx].value@ == prev[p].value@;
                            assert(lex_lt(self.rows@[idx].key@, self.rows@[i as int].key@));
                        }
                    }
                }
            } else {
                proof {
                    assert forall|idx: int|
                        0 <= idx < i as int + 1 && lex_le(start@, #[trigger] self.rows@[idx].key@)
                            && lex_lt(self.rows@[idx].key@, end@)
                        implies exists|j: int|
                            0 <= j < r@.len() && #[trigger] r@[j].key@ == self.rows@[idx].key@ by {
                        assert(idx < i as int);
                        let j = choose|j: int|
                            0 <= j < prev.len() && #[trigger] prev[j].key@ == self.rows@[idx].key@;
                        assert(r@[j].key@ == self.rows@[idx].key@);
                    }
                    assert forall|j: int| #![trigger r@[j]] 0 <= j < r@.len()
                        implies self.from_prefix(r@, j, i as int + 1) by {
                        let idx = choose|idx: int|
                            0 <= idx < i && #[trigger] self.rows@[idx].key@ == r@[j].key@
                                && self.rows@[idx].value@ == r@[j].value@;
                        assert(0 <= idx < i as int + 1 && self.rows@[idx].key@ == r@[j].key@
                            && self.rows@[idx].value@ == r@[j].value@);
                    }
                }
            }
            i = i + 1;
        }
        proof {
            assert forall|j: int| 0 <= j < r@.len() implies
                self.contents().contains_key(r@[j].key@)
                    && r@[j].value@ == self.contents()[r@[j].key@] by {
                let idx = choose|idx: int|
                    0 <= idx < n && #[trigger] self.rows@[idx].key@ == r@[j].key@
                        && self.rows@[idx].value@ == r@[j].value@;
                self.lemma_row_present(idx);
            }
            assert forall|k: Seq<u8>|
                self.contents().contains_key(k) && lex_le(start@, k) && lex_lt(k, end@)
                implies exists|j: int| 0 <= j < r@.len() && #[trigger] r@[j].key@ == k by {
                let idx = choose|idx: int|
                    0 <= idx < self.rows@.len() && #[trigger] self.rows@[idx].key@ == k;
                assert(lex_le(start@, self.rows@[idx].key@) && lex_lt(self.rows@[idx].key@, end@));
            }
        }
        r
    }

    /// The row with the least key at or above `start`.
    pub fn seek(&self, start: &[u8]) -> (r: Option<Row>)
        requires
            self.wf(),
        ensures
            match r {
                Some(row) => {
                    &&& self.contents().contains_key(row.key@)
                    &&& row.value@ == self.contents()[row.key@]
                    &&& lex_le(start@, row.key@)
                    &&& forall|k: Seq<u8>| self.contents().contains_key(k) && lex_le(start@, k)
                        ==> lex_le(row.key@, k)
                },
                None => forall|k: Seq<u8>|
                    self.contents().contains_key(k) ==> !lex_le(start@, k),
            },
    {
        let n = self.rows.len();
        let mut i: usize = 0;
        while i < n
            invariant
                0 <= i <= n,
                n == self.rows@.len(),
                self.wf(),
                forall|j: int| 0 <= j < i ==> !lex_le(start@, #[trigger] self.rows@[j].key@),
            decreases n - i,
        {
            let at_or_above = !lex_lt_bytes(self.rows[i].key.as_slice(), start);
            proof {
                lemma_lex_total(start@, self.rows@[i as int].key@);
                lemma_lex_irrefl(self.rows@[i as int].key@);
                if lex_lt(self.rows@[i as int].key@, start@) {
                    crate::order::lemma_lex_asym(self.rows@[i as int].key@, start@);
                }
            }
            if at_or_above {
                let row = copy_row(&self.rows[i]);
                proof {
                    self.lemma_row_present(i as int);
                    assert forall|k: Seq<u8>|
                        self.contents().contains_key(k) && lex_le(start@, k)
                        implies lex_le(row.key@, k) by {
                        let p = choose|p: int|
                            0 <= p < self.rows@.len() && self.rows@[p].key@ == k;
                        if p < i {
                            assert(!lex_le(start@, self.rows@[p].key@));
                        } else if p > i {
                            assert(lex_lt(self.rows@[i as int].key@, self.rows@[p].key@));
                        }
                    }
                }
                return Some(row);
            }
            i = i + 1;
        }
        proof {
            assert forall|k: Seq<u8>| self.contents().contains_key(k)
                implies !lex_le(start@, k) by {
                let p = choose|p: int| 0 <= p < self.rows@.len() && self.rows@[p].key@ == k;
            }
        }
        None
    }

    /// The row with the greatest key not exceeding `end`.
    pub fn seek_for_prev(&self, end: &[u8]) -> (r: Option<Row>)
        requires
            self.wf(),
        ensures
            match r {
                Some(row) => {
                    &&& self.contents().contains_key(row.key@)
                    &&& row.value@ == self.contents()[row.key@]
                    &&& lex_le(row.key@, end@)
                    &&& forall|k: Seq<u8>| self.contents().contains_key(k) && lex_le(k, end@)
                        ==> lex_le(k, row.key@)
                },
                None => forall|k: Seq<u8>|
                    self.contents().contains_key(k) ==> !lex_le(k, end@),
            },
    {
        let n = self.rows.len();
        let mut i: usize = n;
        while i > 0
            invariant
                0 <= i <= n,
                n == self.rows@.len(),
                self.wf(),
                forall|j: int| i <= j < n ==> !lex_le(#[trigger] self.rows@[j].key@, end@),
            decreases i,
        {
            i = i - 1;
            let below = !lex_lt_bytes(end, self.rows[i].key.as_slice());
            proof {
                lemma_lex_total(self.rows@[i as int].key@, end@);
            }
            if below {
                let row = copy_row(&self.rows[i]);
                proof {
                    self.lemma_row_present(i as int);
                    assert forall|k: Seq<u8>|
                        self.contents().contains_key(k) && lex_le(k, end@)
                        implies lex_le(k, row.key@) by {
                        let p = choose|p: int|
                            0 <= p < self.rows@.len() && self.rows@[p].key@ == k;
                        if p > i {
                            assert(!lex_le(self.rows@[p].key@, end@));
                        } else if p < i {
                            assert(lex_lt(self.rows@[p].key@, self.rows@[i as int].key@));
                        }
                    }
                }
                return Some(row);
            } else {
                proof {
                    crate::order::lemma_lex_asym(end@, self.rows@[i as int].key@);
                }
            }
        }
        proof {
            assert forall|k: Seq<u8>| self.contents().contains_key(k)
                implies !lex_le(k, end@) by {
                let p = choose|p: int| 0 <= p < self.rows@.len() && self.rows@[p].key@ == k;
            }
        }
        None
    }

    /// Whether row `j` of `kept` is a faithful out-of-range copy of a source
    /// row among the first `i`.
    spec fn kept_from_prefix(self, kept: Seq<Row>, j: int, i: int) -> bool {
        exists|idx: int|
            0 <= idx < i && #[trigger] self.rows@[idx].key@ == kept[j].key@
                && self.rows@[idx].value@ == kept[j].value@
    }

    /// Whether every out-of-range row among the first `i` appears in `kept`.
    spec fn keeps_prefix(self, kept: Seq<Row>, i: int, start: Seq<u8>, end: Seq<u8>) -> bool {
        forall|idx: int|
            0 <= idx < i && !(lex_le(start, #[trigger] self.rows@[idx].key@)
                && lex_lt(self.rows@[idx].key@, end))
                ==> exists|j: int| 0 <= j < kept.len()
                    && #[trigger] kept[j].key@ == self.rows@[idx].key@
                    && kept[j].value@ == self.rows@[idx].value@
    }

    /// Remove every key in `[start, end)` as one atomic step.
    #[verifier::rlimit(100)]
    pub fn delete_range(&mut self, start: &[u8], end: &[u8])
        requires
            old(self).wf(),
        ensures
            final(self).wf(),
            final(self).contents() == old(self).contents().remove_keys(range_set(start@, end@)),
    {
        let n = self.rows.len();
        let mut kept: Vec<Row> = Vec::new();
        let mut i: usize = 0;
        while i < n
            invariant
                0 <= i <= n,
                n == self.rows@.len(),
                self == old(self),
                self.wf(),
                forall|j: int| 0 <= j < kept@.len() ==> {
                    &&& !(lex_le(start@, #[trigger] kept@[j].key@)
                        && lex_lt(kept@[j].key@, end@))
                    &&& self.kept_from_prefix(kept@, j, i as int)
                },
                self.keeps_prefix(kept@, i as int, start@, end@),
                forall|p: int, q: int| 0 <= p < q < kept@.len()
                    ==> lex_lt(kept@[p].key@, kept@[q].key@),
            decreases n - i,
        {
            let in_lo = !lex_lt_bytes(self.rows[i].key.as_slice(), start);
            let in_hi = lex_lt_bytes(self.rows[i].key.as_slice(), end);
            proof {
                lemma_lex_total(start@, self.rows@[i as int].key@);
                lemma_lex_irrefl(self.rows@[i as int].key@);
                if lex_lt(self.rows@[i as int].key@, start@) {
                    crate::order::lemma_lex_asym(self.rows@[i as int].key@, start@);
                }
            }
            let ghost prev = kept@;
            if !(in_lo && in_hi) {
                let c = copy_row(&self.rows[i]);
                kept.push(c);
                proof {
                    assert(kept@ == prev.push(c));
                    assert forall|j: int| 0 <= j < kept@.len() implies {
                        &&& !(lex_le(start@, #[trigger] kept@[j].key@)
                            && lex_lt(kept@[j].key@, end@))
                        &&& self.kept_from_prefix(kept@, j, i as int + 1)
                    } by {
                        if j < prev.len() {
                            assert(kept@[j] == prev[j]);
                            let idx = choose|idx: int|
                                0 <= idx < i && #[trigger] self.rows@[idx].key@ == prev[j].key@
                                    && self.rows@[idx].value@ == prev[j].value@;
                            assert(self.rows@[idx].key@ == kept@[j].key@
                                && self.rows@[idx].value@ == kept@[j].value@);
                        } else {
                            assert(kept@[j] == c);
                            assert(self.rows@[i as int].key@ == kept@[j].key@
                                && self.rows@[i as int].value@ == kept@[j].value@);
                        }
                    }
                    assert forall|idx: int|
                        0 <= idx < i as int + 1
                            && !(lex_le(start@, #[trigger] self.rows@[idx].key@)
                                && lex_lt(self.rows@[idx].key@, end@))
                        implies exists|j: int| 0 <= j < kept@.len()
                            && #[trigger] kept@[j].key@ == self.rows@[idx].key@
                            && kept@[j].value@ == self.rows@[idx].value@ by {
                        if idx < i as int {
                            let j = choose|j: int|
                                0 <= j < prev.len()
                                    && #[trigger] prev[j].key@ == self.rows@[idx].key@
                                    && prev[j].value@ == self.rows@[idx].value@;
                            assert(kept@[j].key@ == self.rows@[idx].key@
                                && kept@[j].value@ == self.rows@[idx].value@);
                        } else {
                            assert(kept@[kept@.len() - 1].key@ == self.rows@[idx].key@
                                && kept@[kept@.len() - 1].value@ == self.rows@[idx].value@);
                        }
                    }
                    assert forall|p: int, q: int| 0 <= p < q < kept@.len()
                        implies lex_lt(kept@[p].key@, kept@[q].key@) by {
                        if q == kept@.len() - 1 && p < q {
                            let idx = choose|idx: int|
                                0 <= idx < i && #[trigger] self.rows@[idx].key@ == prev[p].key@
                                    && self.rows@[idx].value@ == prev[p].value@;
                            assert(lex_lt(self.rows@[idx].key@, self.rows@[i as int].key@));
                        }
                    }
                }
            } else {
                proof {
                    assert forall|idx: int|
                        0 <= idx < i as int + 1
                            && !(lex_le(start@, #[trigger] self.rows@[idx].key@)
                                && lex_lt(self.rows@[idx].key@, end@))
                        implies exists|j: int| 0 <= j < kept@.len()
                            && #[trigger] kept@[j].key@ == self.rows@[idx].key@
                            && kept@[j].value@ == self.rows@[idx].value@ by {
                        assert(idx < i as int);
                        let j = choose|j: int|
                            0 <= j < prev.len() && #[trigger] prev[j].key@ == self.rows@[idx].key@
                                && prev[j].value@ == self.rows@[idx].value@;
                        assert(kept@[j].key@ == self.rows@[idx].key@
                            && kept@[j].value@ == self.rows@[idx].value@);
                    }
                    assert forall|j: int| #![trigger kept@[j]] 0 <= j < kept@.len()
                        implies self.kept_from_prefix(kept@, j, i as int + 1) by {
                        let idx = choose|idx: int|
                            0 <= idx < i && #[trigger] self.rows@[idx].key@ == kept@[j].key@
                                && self.rows@[idx].value@ == kept@[j].value@;
                        assert(0 <= idx < i as int + 1
                            && self.rows@[idx].key@ == kept@[j].key@
                            && self.rows@[idx].value@ == kept@[j].value@);
                    }
                }
            }
            i = i + 1;
        }
        proof {
            old(self).lemma_distinct();
        }
        let ghost prev_kv = *self;
        self.rows = kept;
        proof {
            assert forall|k: Seq<u8>| true implies
                self.contents().contains_key(k)
                    == old(self).contents().remove_keys(range_set(start@, end@))
                        .contains_key(k) by {
                if self.contents().contains_key(k) {
                    let j = choose|j: int|
                        0 <= j < self.rows@.len() && #[trigger] self.rows@[j].key@ == k;
                    let idx = choose|idx: int|
                        0 <= idx < n && #[trigger] prev_kv.rows@[idx].key@ == self.rows@[j].key@
                            && prev_kv.rows@[idx].value@ == self.rows@[j].value@;
                    assert(old(self).rows@[idx].key@ == k);
                }
                if old(self).contents().remove_keys(range_set(start@, end@)).contains_key(k) {
                    let idx = choose|idx: int|
                        0 <= idx < old(self).rows@.len()
                            && #[trigger] old(self).rows@[idx].key@ == k;
                    assert(!(lex_le(start@, k) && lex_lt(k, end@)));
                    let j = choose|j: int|
                        0 <= j < self.rows@.len()
                            && #[trigger] self.rows@[j].key@ == old(self).rows@[idx].key@
                            && self.rows@[j].value@ == old(self).rows@[idx].value@;
                    assert(self.rows@[j].key@ == k);
                }
            }
            assert forall|k: Seq<u8>| self.contents().contains_key(k) implies
                self.contents()[k]
                    == old(self).contents().remove_keys(range_set(start@, end@))[k] by {
                let j = choose|j: int|
                    0 <= j < self.rows@.len() && #[trigger] self.rows@[j].key@ == k;
                self.lemma_row_present(j);
                let idx = choose|idx: int|
                    0 <= idx < n && #[trigger] prev_kv.rows@[idx].key@ == self.rows@[j].key@
                        && prev_kv.rows@[idx].value@ == self.rows@[j].value@;
                old(self).lemma_row_present(idx);
            }
            assert(self.contents()
                =~= old(self).contents().remove_keys(range_set(start@, end@)));
        }
    }
}

} // verus!
