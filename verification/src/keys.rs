//! Byte-string ordering and the internal key layout of the cache columns.
//!
//! An internal key is `user_key ++ trailer`, where the trailer packs the
//! insertion sequence number (inverted, so that higher sequences sort first
//! within one user key) and a value type into eight big-endian bytes.
//! A user key in the MVCC columns is `mvcc_prefix ++ ts_suffix(commit_ts)`,
//! where the timestamp is likewise inverted so that newer versions sort first.

use vstd::prelude::*;

verus! {

/// Strict lexicographic order on byte strings.
pub open spec fn lex_lt(a: Seq<u8>, b: Seq<u8>) -> bool
    decreases a.len(),
{
    if b.len() == 0 {
        false
    } else if a.len() == 0 {
        true
    } else if a[0] < b[0] {
        true
    } else if a[0] > b[0] {
        false
    } else {
        lex_lt(a.skip(1), b.skip(1))
    }
}

pub open spec fn lex_le(a: Seq<u8>, b: Seq<u8>) -> bool {
    lex_lt(a, b) || a == b
}

pub proof fn lemma_lex_irreflexive(a: Seq<u8>)
    ensures
        !lex_lt(a, a),
    decreases a.len(),
{
    if a.len() > 0 {
        lemma_lex_irreflexive(a.skip(1));
    }
}

pub proof fn lemma_lex_asymmetric(a: Seq<u8>, b: Seq<u8>)
    requires
        lex_lt(a, b),
    ensures
        !lex_lt(b, a),
        a != b,
    decreases a.len(),
{
    if a.len() > 0 && b.len() > 0 && a[0] == b[0] {
        lemma_lex_asymmetric(a.skip(1), b.skip(1));
        assert(a != b) by {
            if a =~= b {
                assert(lex_lt(a.skip(1), a.skip(1)));
                lemma_lex_irreflexive(a.skip(1));
            }
        }
    } else {
        if a =~= b {
            assert(false);
        }
    }
}

pub proof fn lemma_lex_total(a: Seq<u8>, b: Seq<u8>)
    ensures
        lex_lt(a, b) || lex_lt(b, a) || a == b,
    decreases a.len(),
{
    if a.len() > 0 && b.len() > 0 && a[0] == b[0] {
        lemma_lex_total(a.skip(1), b.skip(1));
        if a.skip(1) == b.skip(1) {
            assert forall|i: int| 0 <= i < a.len() implies a[i] == b[i] by {
                if i > 0 {
                    assert(a.skip(1)[i - 1] == a[i]);
                    assert(b.skip(1)[i - 1] == b[i]);
                }
            }
            assert(a =~= b);
        }
    }
}

pub proof fn lemma_lex_transitive(a: Seq<u8>, b: Seq<u8>, c: Seq<u8>)
    requires
        lex_lt(a, b),
        lex_lt(b, c),
    ensures
        lex_lt(a, c),
    decreases a.len(),
{
    if a.len() > 0 && b.len() > 0 && c.len() > 0 && a[0] == b[0] && b[0] == c[0] {
        lemma_lex_transitive(a.skip(1), b.skip(1), c.skip(1));
    }
}

pub proof fn lemma_lex_le_lt_trans(a: Seq<u8>, b: Seq<u8>, c: Seq<u8>)
    requires
        lex_le(a, b),
        lex_lt(b, c),
    ensures
        lex_lt(a, c),
{
    if a != b {
        lemma_lex_transitive(a, b, c);
    }
}

pub proof fn lemma_lex_lt_le_trans(a: Seq<u8>, b: Seq<u8>, c: Seq<u8>)
    requires
        lex_lt(a, b),
        lex_le(b, c),
    ensures
        lex_lt(a, c),
{
    if b != c {
        lemma_lex_transitive(a, b, c);
    }
}

/// Three-way comparison of two byte strings.
pub fn bytes_cmp_lt(a: &Vec<u8>, b: &Vec<u8>) -> (r: bool)
    ensures
        r == lex_lt(a@, b@),
{
    let mut i: usize = 0;
    assert(a@.skip(0) =~= a@);
    assert(b@.skip(0) =~= b@);
    loop
        invariant
            i <= a.len(),
            i <= b.len(),
            lex_lt(a@, b@) == lex_lt(a@.skip(i as int), b@.skip(i as int)),
        decreases a.len() - i,
    {
        if i == b.len() {
            assert(b@.skip(i as int).len() == 0);
            return false;
        }
        if i == a.len() {
            assert(a@.skip(i as int).len() == 0);
            return true;
        }
        let x = a[i];
        let y = b[i];
        assert(a@.skip(i as int)[0] == a@[i as int]);
        assert(b@.skip(i as int)[0] == b@[i as int]);
        if x < y {
            return true;
        }
        if x > y {
            return false;
        }
        assert(a@.skip(i as int).skip(1) =~= a@.skip(i as int + 1));
        assert(b@.skip(i as int).skip(1) =~= b@.skip(i as int + 1));
        i = i + 1;
    }
}

pub fn bytes_eq(a: &Vec<u8>, b: &Vec<u8>) -> (r: bool)
    ensures
        r == (a@ == b@),
{
    if a.len() != b.len() {
        assert(a@ != b@);
        return false;
    }
    let mut i: usize = 0;
    while i < a.len()
        invariant
            i <= a.len(),
            a.len() == b.len(),
            forall|j: int| 0 <= j < i ==> a@[j] == b@[j],
        decreases a.len() - i,
    {
        if a[i] != b[i] {
            assert(a@ != b@);
            return false;
        }
        i = i + 1;
    }
    assert(a@ =~= b@);
    true
}

pub fn bytes_le(a: &Vec<u8>, b: &Vec<u8>) -> (r: bool)
    ensures
        r == lex_le(a@, b@),
{
    if bytes_cmp_lt(a, b) {
        true
    } else {
        bytes_eq(a, b)
    }
}

/// The value type stored in an internal key's trailer.
#[derive(Clone, Copy, PartialEq, Eq, Structural, Debug)]
pub enum ValueType {
    Value,
    Deletion,
}

pub open spec fn value_type_code(t: ValueType) -> u64 {
    match t {
        ValueType::Value => 0u64,
        ValueType::Deletion => 1u64,
    }
}

/// The largest sequence number that the trailer can carry.
pub const MAX_SEQUENCE_NUMBER: u64 = 0x00ff_ffff_ffff_ffff;

/// Big-endian bytes of a 64-bit integer.
pub open spec fn spec_u64_to_be_bytes(x: u64) -> Seq<u8> {
    seq![
        ((x >> 56) & 0xff) as u8,
        ((x >> 48) & 0xff) as u8,
        ((x >> 40) & 0xff) as u8,
        ((x >> 32) & 0xff) as u8,
        ((x >> 24) & 0xff) as u8,
        ((x >> 16) & 0xff) as u8,
        ((x >> 8) & 0xff) as u8,
        (x & 0xff) as u8,
    ]
}

pub open spec fn spec_u64_from_be_bytes(s: Seq<u8>) -> u64
    recommends
        s.len() == 8,
{
    ((s[0] as u64) << 56 | (s[1] as u64) << 48 | (s[2] as u64) << 40 | (s[3] as u64) << 32 | (
    s[4] as u64) << 24 | (s[5] as u64) << 16 | (s[6] as u64) << 8 | (s[7] as u64)) as u64
}

pub proof fn lemma_u64_be_bytes_roundtrip(x: u64)
    ensures
        spec_u64_to_be_bytes(x).len() == 8,
        spec_u64_from_be_bytes(spec_u64_to_be_bytes(x)) == x,
{
    assert((((((x >> 56) & 0xff) as u8) as u64) << 56 | ((((x >> 48) & 0xff) as u8) as u64) << 48
        | ((((x >> 40) & 0xff) as u8) as u64) << 40 | ((((x >> 32) & 0xff) as u8) as u64) << 32
        | ((((x >> 24) & 0xff) as u8) as u64) << 24 | ((((x >> 16) & 0xff) as u8) as u64) << 16
        | ((((x >> 8) & 0xff) as u8) as u64) << 8 | (((x & 0xff) as u8) as u64)) == x)
        by (bit_vector);
}

/// Appends the big-endian bytes of `x` to `out`.
pub fn push_u64_be(out: &mut Vec<u8>, x: u64)
    ensures
        final(out)@ == old(out)@ + spec_u64_to_be_bytes(x),
{
    proof {
        assert((x >> 56) & 0xff < 256 && (x >> 48) & 0xff < 256 && (x >> 40) & 0xff < 256 && (x
            >> 32) & 0xff < 256 && (x >> 24) & 0xff < 256 && (x >> 16) & 0xff < 256 && (x >> 8)
            & 0xff < 256 && x & 0xff < 256) by (bit_vector);
    }
    out.push(((x >> 56) & 0xff) as u8);
    out.push(((x >> 48) & 0xff) as u8);
    out.push(((x >> 40) & 0xff) as u8);
    out.push(((x >> 32) & 0xff) as u8);
    out.push(((x >> 24) & 0xff) as u8);
    out.push(((x >> 16) & 0xff) as u8);
    out.push(((x >> 8) & 0xff) as u8);
    out.push((x & 0xff) as u8);

}

/// Reads the big-endian integer stored in `v` at positions `at .. at + 8`.
pub fn read_u64_be(v: &Vec<u8>, at: usize) -> (x: u64)
    requires
        at + 8 <= v@.len(),
    ensures
        x == spec_u64_from_be_bytes(v@.subrange(at as int, at as int + 8)),
{
    let n = v.len();
    let b0 = v[at] as u64;
    let b1 = v[at + 1] as u64;
    let b2 = v[at + 2] as u64;
    let b3 = v[at + 3] as u64;
    let b4 = v[at + 4] as u64;
    let b5 = v[at + 5] as u64;
    let b6 = v[at + 6] as u64;
    let b7 = v[at + 7] as u64;
    proof {
        let s = v@.subrange(at as int, at as int + 8);
        assert(s[0] == v@[at as int] && s[1] == v@[at as int + 1] && s[2] == v@[at as int + 2]
            && s[3] == v@[at as int + 3] && s[4] == v@[at as int + 4] && s[5] == v@[at as int + 5]
            && s[6] == v@[at as int + 6] && s[7] == v@[at as int + 7]);
    }
    b0 << 56 | b1 << 48 | b2 << 40 | b3 << 32 | b4 << 24 | b5 << 16 | b6 << 8 | b7
}

/// The packed trailer of an internal key, as an integer: the sequence is
/// inverted so that a higher sequence sorts first, and the value type sits
/// in the low byte.
pub open spec fn spec_trailer(seq_no: u64, t: ValueType) -> u64
    recommends
        seq_no <= MAX_SEQUENCE_NUMBER,
{
    ((MAX_SEQUENCE_NUMBER - seq_no) * 256 + value_type_code(t)) as u64
}

/// An internal key: the user key followed by the eight trailer bytes.
pub open spec fn spec_encode_key(user_key: Seq<u8>, seq_no: u64, t: ValueType) -> Seq<u8> {
    user_key + spec_u64_to_be_bytes(spec_trailer(seq_no, t))
}

/// Builds the internal key for `user_key` at sequence `seq_no`.
pub fn encode_key(user_key: &Vec<u8>, seq_no: u64, t: ValueType) -> (r: Vec<u8>)
    requires
        seq_no <= MAX_SEQUENCE_NUMBER,
    ensures
        r@ == spec_encode_key(user_key@, seq_no, t),
{
    let mut out: Vec<u8> = Vec::new();
    let mut i: usize = 0;
    while i < user_key.len()
        invariant
            i <= user_key.len(),
            out@ =~= user_key@.take(i as int),
        decreases user_key.len() - i,
    {
        out.push(user_key[i]);
        assert(out@ =~= user_key@.take(i as int + 1));
        i = i + 1;
    }
    assert(out@ =~= user_key@);
    let inverted = MAX_SEQUENCE_NUMBER - seq_no;
    let code: u64 = match t {
        ValueType::Value => 0,
        ValueType::Deletion => 1,
    };
    let trailer = inverted * 256 + code;
    assert(trailer == spec_trailer(seq_no, t));
    push_u64_be(&mut out, trailer);
    out
}

/// The fields read back out of an internal key.
pub struct InternalKey {
    pub user_key: Vec<u8>,
    pub sequence: u64,
    pub v_type: ValueType,
}

pub open spec fn spec_user_key(k: Seq<u8>) -> Seq<u8>
    recommends
        k.len() >= 8,
{
    k.take(k.len() - 8)
}

pub open spec fn spec_sequence(k: Seq<u8>) -> u64
    recommends
        k.len() >= 8,
{
    (MAX_SEQUENCE_NUMBER - spec_u64_from_be_bytes(k.skip(k.len() - 8)) / 256) as u64
}

pub open spec fn spec_v_type(k: Seq<u8>) -> ValueType
    recommends
        k.len() >= 8,
{
    if spec_u64_from_be_bytes(k.skip(k.len() - 8)) % 256 == 1 {
        ValueType::Deletion
    } else {
        ValueType::Value
    }
}

/// A key is decodable when it has room for the eight trailer bytes. The
/// trailer's inverted-sequence field always fits: a 64-bit trailer shifted
/// down a byte is at most the largest sequence number.
pub open spec fn key_decodable(k: Seq<u8>) -> bool {
    k.len() >= 8
}

pub proof fn lemma_trailer_seq_in_range(trailer: u64)
    ensures
        trailer / 256 <= MAX_SEQUENCE_NUMBER,
{
    assert(trailer / 256 <= 0x00ff_ffff_ffff_ffffu64) by (bit_vector);
}

pub proof fn lemma_encode_key_fields(user_key: Seq<u8>, seq_no: u64, t: ValueType)
    requires
        seq_no <= MAX_SEQUENCE_NUMBER,
    ensures
        key_decodable(spec_encode_key(user_key, seq_no, t)),
        spec_user_key(spec_encode_key(user_key, seq_no, t)) == user_key,
        spec_sequence(spec_encode_key(user_key, seq_no, t)) == seq_no,
        spec_v_type(spec_encode_key(user_key, seq_no, t)) == t,
{
    let k = spec_encode_key(user_key, seq_no, t);
    let trailer = spec_trailer(seq_no, t);
    assert(k.skip(k.len() - 8) =~= spec_u64_to_be_bytes(trailer));
    assert(k.take(k.len() - 8) =~= user_key);
    lemma_u64_be_bytes_roundtrip(trailer);
    let inv = (MAX_SEQUENCE_NUMBER - seq_no) as u64;
    let code = value_type_code(t);
    assert(trailer == inv * 256 + code);
    assert(code < 256);
    assert((inv * 256 + code) / 256 == inv && (inv * 256 + code) % 256 == code) by (nonlinear_arith)
        requires
            code < 256,
            inv >= 0,
    ;
}

/// Splits an internal key into its user key, sequence and value type.
pub fn decode_key(k: &Vec<u8>) -> (r: InternalKey)
    requires
        key_decodable(k@),
    ensures
        r.user_key@ == spec_user_key(k@),
        r.sequence == spec_sequence(k@),
        r.v_type == spec_v_type(k@),
{
    let cut = k.len() - 8;
    let mut user_key: Vec<u8> = Vec::new();
    let mut i: usize = 0;
    while i < cut
        invariant
            i <= cut,
            cut == k@.len() - 8,
            user_key@ =~= k@.take(i as int),
        decreases cut - i,
    {
        user_key.push(k[i]);
        assert(user_key@ =~= k@.take(i as int + 1));
        i = i + 1;
    }
    let trailer = read_u64_be(k, cut);
    assert(k@.subrange(cut as int, cut as int + 8) =~= k@.skip(k@.len() - 8));
    proof {
        lemma_trailer_seq_in_range(trailer);
    }
    let inverted = trailer / 256;
    let code = trailer % 256;
    let sequence = MAX_SEQUENCE_NUMBER - inverted;
    let v_type = if code == 1 {
        ValueType::Deletion
    } else {
        ValueType::Value
    };
    InternalKey { user_key, sequence, v_type }
}

/// The inverted-timestamp suffix that an MVCC user key carries, so that a
/// newer commit sorts before an older one under the same prefix.
pub open spec fn spec_ts_suffix(ts: u64) -> Seq<u8> {
    spec_u64_to_be_bytes((u64::MAX - ts) as u64)
}

/// An MVCC user key: the raw key followed by the inverted commit timestamp.
pub open spec fn spec_append_ts(raw: Seq<u8>, ts: u64) -> Seq<u8> {
    raw + spec_ts_suffix(ts)
}

pub fn append_ts(raw: &Vec<u8>, ts: u64) -> (r: Vec<u8>)
    ensures
        r@ == spec_append_ts(raw@, ts),
{
    let mut out: Vec<u8> = Vec::new();
    let mut i: usize = 0;
    while i < raw.len()
        invariant
            i <= raw.len(),
            out@ =~= raw@.take(i as int),
        decreases raw.len() - i,
    {
        out.push(raw[i]);
        assert(out@ =~= raw@.take(i as int + 1));
        i = i + 1;
    }
    assert(out@ =~= raw@);
    push_u64_be(&mut out, u64::MAX - ts);
    out
}

pub open spec fn spec_mvcc_prefix(user_key: Seq<u8>) -> Seq<u8>
    recommends
        user_key.len() >= 8,
{
    user_key.take(user_key.len() - 8)
}

pub open spec fn spec_commit_ts(user_key: Seq<u8>) -> u64
    recommends
        user_key.len() >= 8,
{
    (u64::MAX - spec_u64_from_be_bytes(user_key.skip(user_key.len() - 8))) as u64
}

pub proof fn lemma_append_ts_fields(raw: Seq<u8>, ts: u64)
    ensures
        spec_append_ts(raw, ts).len() == raw.len() + 8,
        spec_mvcc_prefix(spec_append_ts(raw, ts)) == raw,
        spec_commit_ts(spec_append_ts(raw, ts)) == ts,
{
    let k = spec_append_ts(raw, ts);
    assert(k.take(k.len() - 8) =~= raw);
    assert(k.skip(k.len() - 8) =~= spec_ts_suffix(ts));
    lemma_u64_be_bytes_roundtrip((u64::MAX - ts) as u64);
}

/// Whether internal key `k` carries exactly the user key `u`.
pub open spec fn spec_same_user(k: Seq<u8>, u: Seq<u8>) -> bool {
    k.len() >= 8 && spec_user_key(k) == u
}

/// Compares an internal key's user-key part against `u`.
pub fn user_key_matches(k: &Vec<u8>, u: &Vec<u8>) -> (r: bool)
    ensures
        r == spec_same_user(k@, u@),
{
    if k.len() < 8 {
        return false;
    }
    let cut = k.len() - 8;
    if cut != u.len() {
        proof {
            if spec_same_user(k@, u@) {
                assert(spec_user_key(k@).len() == u@.len());
            }
        }
        return false;
    }
    let mut j: usize = 0;
    while j < cut
        invariant
            j <= cut,
            cut == k@.len() - 8,
            cut == u@.len(),
            forall|t: int| 0 <= t < j ==> k@[t] == u@[t],
        decreases cut - j,
    {
        if k[j] != u[j] {
            proof {
                if spec_same_user(k@, u@) {
                    assert(spec_user_key(k@)[j as int] == k@[j as int]);
                }
            }
            return false;
        }
        j = j + 1;
    }
    proof {
        assert(spec_user_key(k@) =~= u@);
    }
    true
}

/// Splits an MVCC user key into its raw prefix and commit timestamp.
/// Fails exactly on keys that are too short to carry the suffix.
pub fn split_ts(user_key: &Vec<u8>) -> (r: Result<(Vec<u8>, u64), ()>)
    ensures
        match r {
            Ok((prefix, ts)) => {
                &&& user_key@.len() >= 8
                &&& prefix@ == spec_mvcc_prefix(user_key@)
                &&& ts == spec_commit_ts(user_key@)
            },
            Err(()) => user_key@.len() < 8,
        },
{
    if user_key.len() < 8 {
        return Err(());
    }
    let cut = user_key.len() - 8;
    let mut prefix: Vec<u8> = Vec::new();
    let mut i: usize = 0;
    while i < cut
        invariant
            i <= cut,
            cut == user_key@.len() - 8,
            prefix@ =~= user_key@.take(i as int),
        decreases cut - i,
    {
        prefix.push(user_key[i]);
        assert(prefix@ =~= user_key@.take(i as int + 1));
        i = i + 1;
    }
    let inv = read_u64_be(user_key, cut);
    assert(user_key@.subrange(cut as int, cut as int + 8) =~= user_key@.skip(
        user_key@.len() - 8));
    Ok((prefix, u64::MAX - inv))
}

} // verus!
