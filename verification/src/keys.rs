//! Key codec for the persisted namespaces.
//!
//! A log-entry key is a one-byte prefix followed by the entry index as eight
//! big-endian bytes, so that lexicographic order on keys agrees with numeric
//! order on indexes.  Metadata keys are fixed single bytes, and the data
//! namespace prepends its own one-byte prefix to the caller's key; the three
//! regions are disjoint by their first byte.

use vstd::prelude::*;
use crate::order::{lex_lt, lex_le, lemma_lex_skip};
use vstd::arithmetic::div_mod::{lemma_mod_breakdown, lemma_small_mod};

verus! {

/// Tag byte of the persisted hard state.
pub const RAFT_HARD_STATE_KEY: u8 = 0x01;

/// Tag byte of the persisted conf state.
pub const RAFT_CONF_STATE_KEY: u8 = 0x02;

/// Tag byte of the persisted truncated state.
pub const RAFT_TRUNCATED_STATE_KEY: u8 = 0x03;

/// Tag byte of the persisted apply index.
pub const RAFT_APPLY_INDEX_KEY: u8 = 0x04;

/// Tag byte of the persisted node id.
pub const NODE_ID_KEY: u8 = 0x05;

/// First byte of every data-namespace key.
pub const DATA_PREFIX: u8 = 0x06;

/// First byte of every log-entry key.
pub const LOG_PREFIX: u8 = 0x07;

/// 256 to the power `n`.
pub open spec fn pow256(n: nat) -> int
    decreases n,
{
    if n == 0 {
        1
    } else {
        256 * pow256((n - 1) as nat)
    }
}

pub proof fn lemma_pow256_values()
    ensures
        pow256(0) == 1,
        pow256(1) == 0x100,
        pow256(2) == 0x1_0000,
        pow256(3) == 0x100_0000,
        pow256(4) == 0x1_0000_0000,
        pow256(5) == 0x100_0000_0000,
        pow256(6) == 0x1_0000_0000_0000,
        pow256(7) == 0x100_0000_0000_0000,
        pow256(8) == 0x1_0000_0000_0000_0000,
{
    reveal_with_fuel(pow256, 9);
}

pub proof fn lemma_pow256_pos(n: nat)
    ensures
        pow256(n) >= 1,
    decreases n,
{
    if n > 0 {
        lemma_pow256_pos((n - 1) as nat);
    }
}

/// The eight big-endian bytes of `v`, most significant first.
#[verifier::opaque]
pub open spec fn be_bytes(v: u64) -> Seq<u8> {
    seq![
        ((v as int / pow256(7)) % 256) as u8,
        ((v as int / pow256(6)) % 256) as u8,
        ((v as int / pow256(5)) % 256) as u8,
        ((v as int / pow256(4)) % 256) as u8,
        ((v as int / pow256(3)) % 256) as u8,
        ((v as int / pow256(2)) % 256) as u8,
        ((v as int / pow256(1)) % 256) as u8,
        ((v as int / pow256(0)) % 256) as u8,
    ]
}

/// The number a big-endian byte string denotes.
#[verifier::opaque]
pub open spec fn be_val(s: Seq<u8>) -> int
    decreases s.len(),
{
    if s.len() == 0 {
        0
    } else {
        s[0] * pow256((s.len() - 1) as nat) + be_val(s.skip(1))
    }
}

pub proof fn lemma_be_val_bound(s: Seq<u8>)
    ensures
        0 <= be_val(s) < pow256(s.len() as nat),
    decreases s.len(),
{
    reveal_with_fuel(be_val, 2);
    if s.len() == 0 {
    } else {
        lemma_be_val_bound(s.skip(1));
        let p = pow256((s.len() - 1) as nat);
        lemma_pow256_pos((s.len() - 1) as nat);
        assert(s[0] * p <= 255 * p) by (nonlinear_arith)
            requires
                0 <= s[0] <= 255,
                p >= 1,
        ;
        assert(s[0] * p >= 0) by (nonlinear_arith)
            requires
                0 <= s[0],
                p >= 1,
        ;
        assert(255 * p + p == 256 * p);
    }
}

proof fn lemma_be_bytes_tail(v: u64, i: int)
    requires
        0 <= i <= 8,
    ensures
        be_val(be_bytes(v).skip(i)) == (v as int) % pow256((8 - i) as nat),
    decreases 8 - i,
{
    reveal(be_bytes);
    reveal_with_fuel(be_val, 2);
    let s = be_bytes(v);
    if i == 8 {
        assert(s.skip(8).len() == 0);
        assert(pow256(0) == 1);
        assert((v as int) % 1 == 0) by (nonlinear_arith);
    } else {
        lemma_be_bytes_tail(v, i + 1);
        let p = pow256((7 - i) as nat);
        lemma_pow256_pos((7 - i) as nat);
        assert(s.skip(i).len() == 8 - i);
        assert(s.skip(i)[0] == s[i]);
        assert(s.skip(i).skip(1) =~= s.skip(i + 1));
        assert(s[i] == (((v as int) / p) % 256) as u8);
        assert(be_val(s.skip(i)) == (((v as int) / p) % 256) * p + be_val(s.skip(i + 1)));
        lemma_mod_breakdown(v as int, p, 256);
        assert(p * 256 == pow256((8 - i) as nat)) by {
            assert(pow256((8 - i) as nat) == 256 * pow256((7 - i) as nat));
        }
        assert((v as int) % (p * 256) == p * (((v as int) / p) % 256) + (v as int) % p);
        assert(p * (((v as int) / p) % 256) == (((v as int) / p) % 256) * p);
    }
}

pub proof fn lemma_be_bytes_val(v: u64)
    ensures
        be_val(be_bytes(v)) == v,
        be_bytes(v).len() == 8,
{
    reveal(be_bytes);
    lemma_be_bytes_tail(v, 0);
    assert(be_bytes(v).skip(0) =~= be_bytes(v));
    lemma_pow256_values();
    lemma_small_mod(v as nat, 0x1_0000_0000_0000_0000 as nat);
}

/// Big-endian order agrees with lexicographic order on equal-length strings.
pub proof fn lemma_be_order(a: Seq<u8>, b: Seq<u8>)
    requires
        a.len() == b.len(),
    ensures
        lex_lt(a, b) <==> be_val(a) < be_val(b),
    decreases a.len(),
{
    reveal_with_fuel(be_val, 2);
    if a.len() == 0 {
    } else {
        let p = pow256((a.len() - 1) as nat);
        lemma_pow256_pos((a.len() - 1) as nat);
        lemma_be_val_bound(a.skip(1));
        lemma_be_val_bound(b.skip(1));
        if a[0] < b[0] {
            assert(a[0] * p + p <= b[0] * p) by (nonlinear_arith)
                requires
                    a[0] < b[0],
                    p >= 1,
            ;
        } else if a[0] > b[0] {
            assert(b[0] * p + p <= a[0] * p) by (nonlinear_arith)
                requires
                    b[0] < a[0],
                    p >= 1,
            ;
        } else {
            lemma_be_order(a.skip(1), b.skip(1));
        }
    }
}

/// Encode `v` as eight big-endian bytes.
#[verifier::rlimit(30)]
pub fn u64_to_be(v: u64) -> (r: Vec<u8>)
    ensures
        r@ == be_bytes(v),
        r@.len() == 8,
{
    proof {
        reveal(be_bytes);
        lemma_pow256_values();
    }
    let mut r: Vec<u8> = Vec::new();
    r.push(((v / 0x100_0000_0000_0000u64) % 256) as u8);
    r.push(((v / 0x1_0000_0000_0000u64) % 256) as u8);
    r.push(((v / 0x100_0000_0000u64) % 256) as u8);
    r.push(((v / 0x1_0000_0000u64) % 256) as u8);
    r.push(((v / 0x100_0000u64) % 256) as u8);
    r.push(((v / 0x1_0000u64) % 256) as u8);
    r.push(((v / 0x100u64) % 256) as u8);
    r.push((v % 256) as u8);
    proof {
        assert(r@.len() == 8);
        assert(r@[0] == be_bytes(v)[0]);
        assert(r@[1] == be_bytes(v)[1]);
        assert(r@[2] == be_bytes(v)[2]);
        assert(r@[3] == be_bytes(v)[3]);
        assert(r@[4] == be_bytes(v)[4]);
        assert(r@[5] == be_bytes(v)[5]);
        assert(r@[6] == be_bytes(v)[6]);
        assert(r@[7] == be_bytes(v)[7]);
        assert(r@ =~= be_bytes(v));
    }
    r
}

proof fn lemma_be_val_push(s: Seq<u8>, b: u8)
    ensures
        be_val(s.push(b)) == 256 * be_val(s) + b,
    decreases s.len(),
{
    reveal_with_fuel(be_val, 3);
    if s.len() == 0 {
        assert(s.push(b).len() == 1);
        assert(s.push(b)[0] == b);
        assert(s.push(b).skip(1) =~= Seq::<u8>::empty());
        assert(be_val(Seq::<u8>::empty()) == 0);
        assert(pow256(0) == 1);
        assert(be_val(s.push(b))
            == s.push(b)[0] * pow256((s.push(b).len() - 1) as nat) + be_val(s.push(b).skip(1)));
        assert(be_val(s.push(b).skip(1)) == 0);
        assert(be_val(s) == 0);
        assert(256 * be_val(s) + b == b);
        assert((s.push(b).len() - 1) as nat == 0);
        assert(pow256((s.push(b).len() - 1) as nat) == 1);
        assert(s.push(b)[0] * pow256((s.push(b).len() - 1) as nat) == b) by (nonlinear_arith)
            requires
                s.push(b)[0] == b,
                pow256((s.push(b).len() - 1) as nat) == 1,
        ;
        assert(be_val(s.push(b)) == b);
        assert(be_val(s.push(b)) == 256 * be_val(s) + b);
    } else {
        lemma_be_val_push(s.skip(1), b);
        let t = s.push(b);
        assert(t[0] == s[0]);
        assert(t.skip(1) =~= s.skip(1).push(b));
        let p = pow256((s.len() - 1) as nat);
        assert(pow256(s.len() as nat) == 256 * p);
        assert(t.len() == s.len() + 1);
        assert(be_val(t) == t[0] * pow256((t.len() - 1) as nat) + be_val(t.skip(1)));
        assert(be_val(t) == s[0] * (256 * p) + be_val(s.skip(1).push(b)));
        assert(be_val(s.skip(1).push(b)) == 256 * be_val(s.skip(1)) + b);
        assert(be_val(s) == s[0] * p + be_val(s.skip(1)));
        assert(s[0] * (256 * p) == 256 * (s[0] * p)) by (nonlinear_arith);
        assert(256 * be_val(s) == 256 * (s[0] * p) + 256 * be_val(s.skip(1)));
        assert(be_val(s.push(b)) == 256 * be_val(s) + b);
    }
}

/// Decode eight big-endian bytes.
pub fn be_to_u64(s: &[u8]) -> (r: u64)
    requires
        s@.len() == 8,
    ensures
        r as int == be_val(s@),
{
    proof {
        reveal_with_fuel(be_val, 2);
        lemma_pow256_values();
    }
    let mut r: u64 = 0;
    let mut i: usize = 0;
    while i < 8
        invariant
            0 <= i <= 8,
            s@.len() == 8,
            r as int == be_val(s@.take(i as int)),
            (r as int) < pow256(i as nat),
            pow256(8) == 0x1_0000_0000_0000_0000,
        decreases 8 - i,
    {
        proof {
            reveal_with_fuel(be_val, 2);
            lemma_be_val_push(s@.take(i as int), s@[i as int]);
            assert(s@.take(i as int).push(s@[i as int]) =~= s@.take(i as int + 1));
            assert(pow256((i + 1) as nat) == 256 * pow256(i as nat));
            lemma_pow256_pos(i as nat);
            assert(256 * (r as int) + s@[i as int] < 256 * pow256(i as nat)) by (nonlinear_arith)
                requires
                    (r as int) < pow256(i as nat),
                    0 <= s@[i as int] < 256,
            ;
            assert(pow256(i as nat) <= pow256(7)) by {
                lemma_pow256_mono(i as nat, 7);
            }
            assert(pow256(7) * 256 == pow256(8));
            assert(256 * pow256(i as nat) <= pow256(8)) by (nonlinear_arith)
                requires
                    pow256(i as nat) <= pow256(7),
                    pow256(7) * 256 == pow256(8),
            ;
        }
        r = r * 256 + (s[i] as u64);
        i = i + 1;
    }
    proof {
        assert(s@.take(8) =~= s@);
    }
    r
}

pub proof fn lemma_pow256_mono(m: nat, n: nat)
    requires
        m <= n,
    ensures
        pow256(m) <= pow256(n),
    decreases n,
{
    if m < n {
        lemma_pow256_mono(m, (n - 1) as nat);
        lemma_pow256_pos((n - 1) as nat);
    }
}

/// The persisted key of the log entry at `index`.
pub open spec fn log_key(index: u64) -> Seq<u8> {
    seq![LOG_PREFIX] + be_bytes(index)
}

/// Whether `k` has the shape of a log-entry key.
pub open spec fn is_log_key(k: Seq<u8>) -> bool {
    k.len() == 9 && k[0] == LOG_PREFIX
}

/// The index a log-entry key denotes.
pub open spec fn log_key_index(k: Seq<u8>) -> int {
    be_val(k.skip(1))
}

/// The persisted key of the data row at user key `k`.
pub open spec fn data_key(k: Seq<u8>) -> Seq<u8> {
    seq![DATA_PREFIX] + k
}

/// Whether `k` lies in the data namespace.
pub open spec fn is_data_key(k: Seq<u8>) -> bool {
    k.len() >= 1 && k[0] == DATA_PREFIX
}

/// A fixed single-byte metadata key.
pub open spec fn meta_key(tag: u8) -> Seq<u8> {
    seq![tag]
}

pub proof fn lemma_log_key_parts(i: u64)
    ensures
        is_log_key(log_key(i)),
        log_key(i).skip(1) =~= be_bytes(i),
        log_key_index(log_key(i)) == i,
{
    lemma_be_bytes_val(i);
    assert(log_key(i).skip(1) =~= be_bytes(i));
}

/// Log keys order exactly as their indexes.
pub proof fn lemma_log_key_order(i: u64, j: u64)
    ensures
        lex_lt(log_key(i), log_key(j)) <==> i < j,
{
    lemma_be_bytes_val(i);
    lemma_be_bytes_val(j);
    let a = log_key(i);
    let b = log_key(j);
    assert(a.len() == 9 && b.len() == 9);
    assert(a[0] == b[0]);
    lemma_lex_skip(a, b, 1);
    assert(a.skip(1) =~= be_bytes(i));
    assert(b.skip(1) =~= be_bytes(j));
    lemma_be_order(be_bytes(i), be_bytes(j));
}

/// The shape of a log key: nine bytes, the log prefix, then the index.
pub broadcast proof fn lemma_log_key_shape(i: u64)
    ensures
        (#[trigger] log_key(i)).len() == 9,
        log_key(i)[0] == LOG_PREFIX,
        is_log_key(log_key(i)),
        log_key_index(log_key(i)) == i,
{
    lemma_be_bytes_val(i);
    assert(log_key(i).skip(1) =~= be_bytes(i));
}

/// Distinct indexes give distinct log keys.
pub proof fn lemma_log_key_injective(i: u64, j: u64)
    requires
        i != j,
    ensures
        log_key(i) != log_key(j),
{
    lemma_log_key_parts(i);
    lemma_log_key_parts(j);
}

/// Bracketing with `[p]` and `[p + 1]` captures exactly the keys whose first
/// byte is `p`.
pub proof fn lemma_prefix_bracket(s: Seq<u8>, p: u8)
    requires
        p < 255,
    ensures
        (lex_le(seq![p], s) && lex_lt(s, seq![(p + 1) as u8])) <==> (s.len() >= 1 && s[0] == p),
{
    reveal_with_fuel(lex_lt, 3);
    let lo = seq![p];
    let hi = seq![(p + 1) as u8];
    if s.len() == 0 {
        assert(!lex_lt(lo, s));
        assert(lo != s);
    } else {
        if s[0] == p {
            if s.len() == 1 {
                assert(s =~= lo);
            } else {
                assert(lex_lt(lo, s)) by {
                    assert(lo.skip(1).len() == 0);
                    assert(s.skip(1).len() > 0);
                }
            }
            assert(lex_lt(s, hi));
        } else if s[0] < p {
            assert(!lex_lt(lo, s));
            assert(lo != s);
        } else {
            // s[0] > p, so s is not below the upper bracket.
            if s[0] == p + 1 {
                assert(!lex_lt(s, hi)) by {
                    assert(hi.skip(1).len() == 0);
                }
            } else {
                assert(!lex_lt(s, hi));
            }
        }
    }
}

/// The three namespaces are disjoint by their first byte.
pub proof fn lemma_namespaces_disjoint(i: u64, k: Seq<u8>, tag: u8)
    requires
        tag < DATA_PREFIX,
    ensures
        log_key(i) != data_key(k),
        log_key(i) != meta_key(tag),
        data_key(k) != meta_key(tag),
{
    lemma_log_key_shape(i);
    assert(log_key(i)[0] == LOG_PREFIX);
    assert(data_key(k)[0] == DATA_PREFIX);
    assert(meta_key(tag)[0] == tag);
    assert(meta_key(tag).len() == 1);
}

/// Encode a log-entry key.
pub fn raft_log_key(index: u64) -> (k: Vec<u8>)
    ensures
        k@ == log_key(index),
{
    let mut k: Vec<u8> = Vec::new();
    k.push(LOG_PREFIX);
    let mut b = u64_to_be(index);
    k.append(&mut b);
    proof {
        lemma_be_bytes_val(index);
        assert(k@ =~= log_key(index));
    }
    k
}

/// Decode a log-entry key back to its index; `None` if `k` is not a
/// log-entry key.
pub fn decode_raft_log_key(k: &[u8]) -> (r: Option<u64>)
    ensures
        match r {
            Some(i) => is_log_key(k@) && i as int == log_key_index(k@),
            None => !is_log_key(k@),
        },
{
    if k.len() == 9 && k[0] == LOG_PREFIX {
        let tail = vstd::slice::slice_subrange(k, 1, 9);
        proof {
            assert(k@.subrange(1, 9) =~= k@.skip(1));
            lemma_be_val_bound(k@.skip(1));
            lemma_pow256_values();
        }
        Some(be_to_u64(tail))
    } else {
        None
    }
}

/// Encode a data-namespace key.
pub fn data_key_of(user_key: &[u8]) -> (k: Vec<u8>)
    ensures
        k@ == data_key(user_key@),
{
    let mut k: Vec<u8> = Vec::new();
    k.push(DATA_PREFIX);
    let n = user_key.len();
    let mut i: usize = 0;
    while i < n
        invariant
            0 <= i <= n,
            n == user_key@.len(),
            k@ == seq![DATA_PREFIX] + user_key@.take(i as int),
        decreases n - i,
    {
        k.push(user_key[i]);
        proof {
            assert(seq![DATA_PREFIX] + user_key@.take(i as int + 1)
                =~= (seq![DATA_PREFIX] + user_key@.take(i as int)).push(user_key@[i as int]));
        }
        i = i + 1;
    }
    proof {
        assert(user_key@.take(n as int) =~= user_key@);
    }
    k
}

/// Build a single-byte metadata key.
pub fn mk_meta_key(tag: u8) -> (k: Vec<u8>)
    ensures
        k@ == meta_key(tag),
{
    let mut k: Vec<u8> = Vec::new();
    k.push(tag);
    proof {
        assert(k@ =~= meta_key(tag));
    }
    k
}

} // verus!
