//! An ordered in-memory column: the model of one logical column of the
//! cache's skiplist. Entries are keyed by encoded internal keys and kept in
//! strictly increasing lexicographic order.

use vstd::prelude::*;

use crate::keys::{lex_le, lex_lt, lemma_lex_asymmetric, lemma_lex_total, lemma_lex_transitive};

verus! {

/// The ghost form of one entry: encoded key and raw value.
pub type KvView = (Seq<u8>, Seq<u8>);

/// Fixed per-entry bookkeeping charge: the model of the node overhead and
/// sequence bookkeeping that the in-memory structure pays per insertion.
pub const ENTRY_OVERHEAD: u64 = 112;

/// The bytes that one entry charges against the memory controller.
pub open spec fn entry_size(e: KvView) -> nat {
    e.0.len() + e.1.len() + ENTRY_OVERHEAD as nat
}

/// Total charge of a sequence of entries.
pub open spec fn col_size(s: Seq<KvView>) -> nat
    decreases s.len(),
{
    if s.len() == 0 {
        0
    } else {
        entry_size(s[0]) + col_size(s.skip(1))
    }
}

pub proof fn lemma_col_size_concat(a: Seq<KvView>, b: Seq<KvView>)
    ensures
        col_size(a + b) == col_size(a) + col_size(b),
    decreases a.len(),
{
    if a.len() == 0 {
        assert(a + b =~= b);
    } else {
        assert((a + b).skip(1) =~= a.skip(1) + b);
        lemma_col_size_concat(a.skip(1), b);
    }
}

pub proof fn lemma_col_size_push(s: Seq<KvView>, e: KvView)
    ensures
        col_size(s.push(e)) == col_size(s) + entry_size(e),
{
    assert(s.push(e) =~= s + seq![e]);
    lemma_col_size_concat(s, seq![e]);
    assert(col_size(seq![e]) == entry_size(e)) by {
        assert(seq![e].len() == 1);
        assert(seq![e][0] == e);
        assert(seq![e].skip(1) =~= Seq::<KvView>::empty());
        assert(col_size(seq![e].skip(1)) == 0);
    }
}

pub proof fn lemma_col_size_update(s: Seq<KvView>, p: int, e: KvView)
    requires
        0 <= p < s.len(),
    ensures
        col_size(s.update(p, e)) == col_size(s) - entry_size(s[p]) + entry_size(e),
{
    assert(s =~= s.take(p) + seq![s[p]] + s.skip(p + 1));
    assert(s.update(p, e) =~= s.take(p) + seq![e] + s.skip(p + 1));
    lemma_col_size_concat(s.take(p) + seq![s[p]], s.skip(p + 1));
    lemma_col_size_concat(s.take(p), seq![s[p]]);
    lemma_col_size_concat(s.take(p) + seq![e], s.skip(p + 1));
    lemma_col_size_concat(s.take(p), seq![e]);
    lemma_col_size_singleton(s[p]);
    lemma_col_size_singleton(e);
}

pub proof fn lemma_col_size_insert_at(s: Seq<KvView>, p: int, e: KvView)
    requires
        0 <= p <= s.len(),
    ensures
        col_size(s.take(p) + seq![e] + s.skip(p)) == col_size(s) + entry_size(e),
{
    assert(s =~= s.take(p) + s.skip(p));
    lemma_col_size_concat(s.take(p), s.skip(p));
    lemma_col_size_concat(s.take(p) + seq![e], s.skip(p));
    lemma_col_size_concat(s.take(p), seq![e]);
    lemma_col_size_singleton(e);
}

pub proof fn lemma_col_size_remove(s: Seq<KvView>, p: int)
    requires
        0 <= p < s.len(),
    ensures
        col_size(s.remove(p)) == col_size(s) - entry_size(s[p]),
{
    assert(s =~= s.take(p) + seq![s[p]] + s.skip(p + 1));
    assert(s.remove(p) =~= s.take(p) + s.skip(p + 1));
    lemma_col_size_concat(s.take(p) + seq![s[p]], s.skip(p + 1));
    lemma_col_size_concat(s.take(p), seq![s[p]]);
    lemma_col_size_concat(s.take(p), s.skip(p + 1));
    lemma_col_size_singleton(s[p]);
}

/// In a sorted column, an entry's own key seeks exactly to its position.
pub proof fn lemma_sorted_lower_bound_self(s: Seq<KvView>, p: int)
    requires
        entries_sorted(s),
        0 <= p < s.len(),
    ensures
        lower_bound(s, s[p].0) == p,
        has_key(s, s[p].0),
        col_remove(s, s[p].0) == s.remove(p),
{
    assert forall|j: int| 0 <= j < p implies !lex_le(s[p].0, (#[trigger] s[j]).0) by {
        assert(lex_lt(s[j].0, s[p].0));
        lemma_lex_asymmetric(s[j].0, s[p].0);
    }
    lemma_lower_bound_from_props(s, s[p].0, p);
}

pub proof fn lemma_entry_size_le_col_size(s: Seq<KvView>, p: int)
    requires
        0 <= p < s.len(),
    ensures
        entry_size(s[p]) <= col_size(s),
{
    assert(s =~= s.take(p) + seq![s[p]] + s.skip(p + 1));
    lemma_col_size_concat(s.take(p) + seq![s[p]], s.skip(p + 1));
    lemma_col_size_concat(s.take(p), seq![s[p]]);
    lemma_col_size_singleton(s[p]);
}

pub proof fn lemma_col_size_singleton(e: KvView)
    ensures
        col_size(seq![e]) == entry_size(e),
{
    assert(seq![e].len() == 1);
    assert(seq![e][0] == e);
    assert(seq![e].skip(1) =~= Seq::<KvView>::empty());
    assert(col_size(seq![e].skip(1)) == 0);
}

/// Strictly increasing key order.
pub open spec fn entries_sorted(s: Seq<KvView>) -> bool {
    forall|i: int, j: int| 0 <= i < j < s.len() ==> lex_lt(#[trigger] s[i].0, #[trigger] s[j].0)
}

/// The least index whose key is at or above `k`; `s.len()` when there is none.
pub open spec fn lower_bound(s: Seq<KvView>, k: Seq<u8>) -> int
    decreases s.len(),
{
    if s.len() == 0 {
        0
    } else if lex_le(k, s[0].0) {
        0
    } else {
        1 + lower_bound(s.skip(1), k)
    }
}

pub proof fn lemma_lower_bound_props(s: Seq<KvView>, k: Seq<u8>)
    ensures
        0 <= lower_bound(s, k) <= s.len(),
        forall|j: int| 0 <= j < lower_bound(s, k) ==> !lex_le(k, #[trigger] s[j].0),
        lower_bound(s, k) < s.len() ==> lex_le(k, s[lower_bound(s, k)].0),
    decreases s.len(),
{
    if s.len() > 0 && !lex_le(k, s[0].0) {
        lemma_lower_bound_props(s.skip(1), k);
        let p = lower_bound(s, k);
        assert forall|j: int| 0 <= j < p implies !lex_le(k, #[trigger] s[j].0) by {
            if j > 0 {
                assert(s.skip(1)[j - 1] == s[j]);
            }
        }
        if p < s.len() {
            assert(s.skip(1)[p - 1] == s[p]);
        }
    }
}

pub proof fn lemma_lower_bound_from_props(s: Seq<KvView>, k: Seq<u8>, i: int)
    requires
        0 <= i <= s.len(),
        forall|j: int| 0 <= j < i ==> !lex_le(k, #[trigger] s[j].0),
        i < s.len() ==> lex_le(k, s[i].0),
    ensures
        lower_bound(s, k) == i,
    decreases s.len(),
{
    if s.len() > 0 {
        if i == 0 {
        } else {
            assert(!lex_le(k, s[0].0));
            assert forall|j: int| 0 <= j < i - 1 implies !lex_le(k, #[trigger] s.skip(1)[j].0) by {
                assert(s.skip(1)[j] == s[j + 1]);
            }
            if i - 1 < s.skip(1).len() {
                assert(s.skip(1)[i - 1] == s[i]);
            }
            lemma_lower_bound_from_props(s.skip(1), k, i - 1);
        }
    }
}

/// Whether `s` holds an entry with key `k`.
pub open spec fn has_key(s: Seq<KvView>, k: Seq<u8>) -> bool {
    lower_bound(s, k) < s.len() && s[lower_bound(s, k)].0 == k
}

/// The value stored under `k`.
pub open spec fn spec_get(s: Seq<KvView>, k: Seq<u8>) -> Seq<u8>
    recommends
        has_key(s, k),
{
    s[lower_bound(s, k)].1
}

/// The sequence after storing `v` under `k`: an existing entry with the same
/// key is replaced, otherwise the entry enters at its ordered position.
pub open spec fn col_insert(s: Seq<KvView>, k: Seq<u8>, v: Seq<u8>) -> Seq<KvView> {
    let p = lower_bound(s, k);
    if has_key(s, k) {
        s.update(p, (k, v))
    } else {
        s.take(p) + seq![(k, v)] + s.skip(p)
    }
}

/// The sequence after removing the entry keyed `k`, if present.
pub open spec fn col_remove(s: Seq<KvView>, k: Seq<u8>) -> Seq<KvView> {
    if has_key(s, k) {
        s.remove(lower_bound(s, k))
    } else {
        s
    }
}

/// Membership of a key in the half-open byte range `[start, end)`.
pub open spec fn in_byte_range(k: Seq<u8>, start: Seq<u8>, end: Seq<u8>) -> bool {
    lex_le(start, k) && lex_lt(k, end)
}

/// The entries that survive erasing the byte range `[start, end)`.
pub open spec fn col_delete_range(s: Seq<KvView>, start: Seq<u8>, end: Seq<u8>) -> Seq<KvView>
    decreases s.len(),
{
    if s.len() == 0 {
        Seq::empty()
    } else if in_byte_range(s[0].0, start, end) {
        col_delete_range(s.skip(1), start, end)
    } else {
        seq![s[0]] + col_delete_range(s.skip(1), start, end)
    }
}

/// The entries inside the byte range `[start, end)`, in order.
pub open spec fn col_range(s: Seq<KvView>, start: Seq<u8>, end: Seq<u8>) -> Seq<KvView>
    decreases s.len(),
{
    if s.len() == 0 {
        Seq::empty()
    } else if in_byte_range(s[0].0, start, end) {
        seq![s[0]] + col_range(s.skip(1), start, end)
    } else {
        col_range(s.skip(1), start, end)
    }
}

pub proof fn lemma_col_delete_range_push(s: Seq<KvView>, e: KvView, start: Seq<u8>, end: Seq<u8>)
    ensures
        col_delete_range(s.push(e), start, end) == if in_byte_range(e.0, start, end) {
            col_delete_range(s, start, end)
        } else {
            col_delete_range(s, start, end).push(e)
        },
    decreases s.len(),
{
    if s.len() == 0 {
        assert(s.push(e)[0] == e);
        assert(s.push(e).skip(1) =~= Seq::<KvView>::empty());
        assert(col_delete_range(Seq::<KvView>::empty(), start, end) == Seq::<KvView>::empty());
        assert(col_delete_range(s, start, end) == Seq::<KvView>::empty());
        if in_byte_range(e.0, start, end) {
            assert(col_delete_range(s.push(e), start, end) == col_delete_range(
                s.push(e).skip(1), start, end));
        } else {
            assert(col_delete_range(s.push(e), start, end) == seq![e] + col_delete_range(
                s.push(e).skip(1), start, end));
            assert(seq![e] + Seq::<KvView>::empty() =~= Seq::<KvView>::empty().push(e));
        }
    } else {
        assert(s.push(e).skip(1) =~= s.skip(1).push(e));
        assert(s.push(e)[0] == s[0]);
        lemma_col_delete_range_push(s.skip(1), e, start, end);
        if in_byte_range(s[0].0, start, end) {
            assert(col_delete_range(s.push(e), start, end) == col_delete_range(
                s.skip(1).push(e), start, end));
            assert(col_delete_range(s, start, end) == col_delete_range(s.skip(1), start, end));
        } else {
            assert(col_delete_range(s.push(e), start, end) == seq![s[0]] + col_delete_range(
                s.skip(1).push(e), start, end));
            assert(col_delete_range(s, start, end) == seq![s[0]] + col_delete_range(s.skip(1),
                start, end));
            if !in_byte_range(e.0, start, end) {
                assert(seq![s[0]] + col_delete_range(s.skip(1), start, end).push(e) =~= (
                seq![s[0]] + col_delete_range(s.skip(1), start, end)).push(e));
            }
        }
    }
}

pub proof fn lemma_col_range_push(s: Seq<KvView>, e: KvView, start: Seq<u8>, end: Seq<u8>)
    ensures
        col_range(s.push(e), start, end) == if in_byte_range(e.0, start, end) {
            col_range(s, start, end).push(e)
        } else {
            col_range(s, start, end)
        },
    decreases s.len(),
{
    if s.len() == 0 {
        assert(s.push(e)[0] == e);
        assert(s.push(e).skip(1) =~= Seq::<KvView>::empty());
        assert(col_range(Seq::<KvView>::empty(), start, end) == Seq::<KvView>::empty());
        assert(col_range(s, start, end) == Seq::<KvView>::empty());
        if in_byte_range(e.0, start, end) {
            assert(col_range(s.push(e), start, end) == seq![e] + col_range(s.push(e).skip(1),
                start, end));
            assert(seq![e] + Seq::<KvView>::empty() =~= Seq::<KvView>::empty().push(e));
        } else {
            assert(col_range(s.push(e), start, end) == col_range(s.push(e).skip(1), start, end));
        }
    } else {
        assert(s.push(e).skip(1) =~= s.skip(1).push(e));
        assert(s.push(e)[0] == s[0]);
        lemma_col_range_push(s.skip(1), e, start, end);
        if in_byte_range(s[0].0, start, end) {
            assert(col_range(s.push(e), start, end) == seq![s[0]] + col_range(s.skip(1).push(e),
                start, end));
            assert(col_range(s, start, end) == seq![s[0]] + col_range(s.skip(1), start, end));
            if in_byte_range(e.0, start, end) {
                assert(seq![s[0]] + col_range(s.skip(1), start, end).push(e) =~= (seq![s[0]]
                    + col_range(s.skip(1), start, end)).push(e));
            }
        } else {
            assert(col_range(s.push(e), start, end) == col_range(s.skip(1).push(e), start, end));
            assert(col_range(s, start, end) == col_range(s.skip(1), start, end));
        }
    }
}

/// Every entry that survives a range erase came from the input.
pub proof fn lemma_col_delete_range_contains(s: Seq<KvView>, start: Seq<u8>, end: Seq<u8>)
    ensures
        forall|x: KvView| col_delete_range(s, start, end).contains(x) ==> s.contains(x)
            && !in_byte_range(x.0, start, end),
    decreases s.len(),
{
    if s.len() > 0 {
        lemma_col_delete_range_contains(s.skip(1), start, end);
        assert forall|x: KvView| col_delete_range(s, start, end).contains(x) implies s.contains(x)
            && !in_byte_range(x.0, start, end) by {
            if in_byte_range(s[0].0, start, end) {
                assert(s.skip(1).contains(x));
                let i = choose|i: int| 0 <= i < s.skip(1).len() && s.skip(1)[i] == x;
                assert(s[i + 1] == x);
            } else {
                let r = col_delete_range(s, start, end);
                let i = choose|i: int| 0 <= i < r.len() && r[i] == x;
                if i == 0 {
                    assert(x == s[0]);
                    assert(s[0int] == x);
                } else {
                    assert(col_delete_range(s.skip(1), start, end).contains(x)) by {
                        assert(r[i] == col_delete_range(s.skip(1), start, end)[i - 1]);
                    }
                    assert(s.skip(1).contains(x));
                    let j = choose|j: int| 0 <= j < s.skip(1).len() && s.skip(1)[j] == x;
                    assert(s[j + 1] == x);
                }
            }
        }
    }
}

/// A column of the cache: entries in strictly increasing key order.
pub struct Column {
    entries: Vec<ColEntry>,
}

/// One owned entry.
pub struct ColEntry {
    pub key: Vec<u8>,
    pub value: Vec<u8>,
}

impl View for ColEntry {
    type V = KvView;

    open spec fn view(&self) -> KvView {
        (self.key@, self.value@)
    }
}

impl View for Column {
    type V = Seq<KvView>;

    closed spec fn view(&self) -> Seq<KvView> {
        self.entries@.map_values(|e: ColEntry| e@)
    }
}

/// Copies a byte string.
pub fn clone_bytes(v: &Vec<u8>) -> (r: Vec<u8>)
    ensures
        r@ == v@,
{
    let mut out: Vec<u8> = Vec::new();
    let mut i: usize = 0;
    while i < v.len()
        invariant
            i <= v.len(),
            out@ =~= v@.take(i as int),
        decreases v.len() - i,
    {
        out.push(v[i]);
        assert(out@ =~= v@.take(i as int + 1));
        i = i + 1;
    }
    assert(out@ =~= v@);
    out
}

impl Column {
    /// The ordering invariant.
    pub open spec fn wf(&self) -> bool {
        entries_sorted(self@)
    }

    pub fn new() -> (c: Column)
        ensures
            c@ == Seq::<KvView>::empty(),
            c.wf(),
    {
        let c = Column { entries: Vec::new() };
        proof {
            assert(c@ =~= Seq::<KvView>::empty());
        }
        c
    }

    pub fn len(&self) -> (n: usize)
        ensures
            n == self@.len(),
    {
        self.entries.len()
    }

    pub fn key_at(&self, i: usize) -> (k: &Vec<u8>)
        requires
            i < self@.len(),
        ensures
            k@ == self@[i as int].0,
    {
        &self.entries[i].key
    }

    pub fn value_at(&self, i: usize) -> (v: &Vec<u8>)
        requires
            i < self@.len(),
        ensures
            v@ == self@[i as int].1,
    {
        &self.entries[i].value
    }

    /// The least position whose key is at or above `k`.
    pub fn seek(&self, k: &Vec<u8>) -> (p: usize)
        ensures
            p == lower_bound(self@, k@),
    {
        let mut i: usize = 0;
        while i < self.entries.len()
            invariant
                i <= self@.len(),
                self@.len() == self.entries@.len(),
                forall|j: int| 0 <= j < i ==> !lex_le(k@, #[trigger] self@[j].0),
            decreases self@.len() - i,
        {
            if !crate::keys::bytes_cmp_lt(&self.entries[i].key, k) {
                proof {
                    lemma_lex_total(k@, self@[i as int].0);
                    lemma_lower_bound_from_props(self@, k@, i as int);
                }
                return i;
            }
            proof {
                lemma_lex_asymmetric(self@[i as int].0, k@);
            }
            i = i + 1;
        }
        proof {
            lemma_lower_bound_from_props(self@, k@, i as int);
        }
        i
    }

    /// Stores `v` under `k`, replacing any entry with the same key, and
    /// returns the replaced entry.
    pub fn insert(&mut self, k: Vec<u8>, v: Vec<u8>) -> (replaced: Option<ColEntry>)
        requires
            old(self).wf(),
        ensures
            final(self).wf(),
            final(self)@ == col_insert(old(self)@, k@, v@),
            match replaced {
                Some(e) => has_key(old(self)@, k@) && e@ == (k@, spec_get(old(self)@, k@)),
                None => !has_key(old(self)@, k@),
            },
    {
        let ghost s = self@;
        let p = self.seek(&k);
        proof {
            lemma_lower_bound_props(s, k@);
        }
        if p < self.entries.len() && crate::keys::bytes_eq(&self.entries[p].key, &k) {
            let old_entry = self.entries.remove(p);
            self.entries.insert(p, ColEntry { key: k, value: v });
            proof {
                assert(self@ =~= s.update(p as int, (k@, v@)));
                assert forall|i: int, j: int| 0 <= i < j < self@.len() implies lex_lt(
                    #[trigger] self@[i].0, #[trigger] self@[j].0) by {
                    assert(s[p as int].0 == k@);
                    assert(lex_lt(s[i].0, s[j].0));
                }
            }
            Some(old_entry)
        } else {
            proof {
                if has_key(s, k@) {
                    assert(lex_le(k@, s[p as int].0));
                    assert(false);
                }
            }
            self.entries.insert(p, ColEntry { key: k, value: v });
            proof {
                assert(self@ =~= s.take(p as int) + seq![(k@, v@)] + s.skip(p as int));
                let t = self@;
                assert forall|i: int, j: int| 0 <= i < j < t.len() implies lex_lt(
                    #[trigger] t[i].0, #[trigger] t[j].0) by {
                    if i < p && j < p {
                        assert(t[i] == s[i] && t[j] == s[j]);
                    } else if i < p && j == p {
                        assert(t[i] == s[i]);
                        assert(!lex_le(k@, s[i].0));
                        lemma_lex_total(s[i].0, k@);
                    } else if i < p && j > p {
                        assert(t[i] == s[i] && t[j] == s[j - 1]);
                        assert(!lex_le(k@, s[i].0));
                        lemma_lex_total(s[i].0, k@);
                        if p < s.len() {
                            if i < j - 1 {
                                assert(lex_lt(s[i].0, s[j - 1].0));
                            } else {
                                assert(lex_lt(s[i].0, k@));
                                assert(lex_le(k@, s[p as int].0));
                                assert(s[p as int].0 != k@);
                                lemma_lex_total(k@, s[p as int].0);
                                assert(lex_lt(k@, s[j - 1].0));
                                lemma_lex_transitive(s[i].0, k@, s[j - 1].0);
                            }
                        }
                    } else if i == p {
                        assert(t[i] == (k@, v@) && t[j] == s[j - 1]);
                        assert(lex_le(k@, s[p as int].0));
                        assert(s[p as int].0 != k@);
                        lemma_lex_total(k@, s[p as int].0);
                        if j - 1 == p {
                        } else {
                            assert(lex_lt(s[p as int].0, s[j - 1].0));
                            lemma_lex_transitive(k@, s[p as int].0, s[j - 1].0);
                        }
                    } else {
                        assert(t[i] == s[i - 1] && t[j] == s[j - 1]);
                        assert(lex_lt(s[i - 1].0, s[j - 1].0));
                    }
                }
            }
            None
        }
    }

    /// Removes the entry keyed `k`, returning it when it was present.
    pub fn remove(&mut self, k: &Vec<u8>) -> (removed: Option<ColEntry>)
        requires
            old(self).wf(),
        ensures
            final(self).wf(),
            final(self)@ == col_remove(old(self)@, k@),
            match removed {
                Some(e) => has_key(old(self)@, k@) && e@ == (k@, spec_get(old(self)@, k@)),
                None => !has_key(old(self)@, k@),
            },
    {
        let ghost s = self@;
        let p = self.seek(k);
        proof {
            lemma_lower_bound_props(s, k@);
        }
        if p < self.entries.len() && crate::keys::bytes_eq(&self.entries[p].key, k) {
            let e = self.entries.remove(p);
            proof {
                assert(self@ =~= s.remove(p as int));
                assert forall|i: int, j: int| 0 <= i < j < self@.len() implies lex_lt(
                    #[trigger] self@[i].0, #[trigger] self@[j].0) by {
                    let i0 = if i < p { i } else { i + 1 };
                    let j0 = if j < p { j } else { j + 1 };
                    assert(self@[i] == s[i0] && self@[j] == s[j0]);
                    assert(lex_lt(s[i0].0, s[j0].0));
                }
            }
            Some(e)
        } else {
            proof {
                if has_key(s, k@) {
                    assert(lex_le(k@, s[p as int].0));
                    assert(false);
                }
            }
            None
        }
    }

    /// Erases every entry whose key lies in `[start, end)` and reports the
    /// bytes the erase released.
    pub fn delete_range(&mut self, start: &Vec<u8>, end: &Vec<u8>) -> (freed: u64)
        requires
            old(self).wf(),
            col_size(old(self)@) <= u64::MAX,
        ensures
            final(self).wf(),
            final(self)@ == col_delete_range(old(self)@, start@, end@),
            freed == col_size(old(self)@) - col_size(final(self)@),
    {
        let ghost s = self@;
        let mut kept: Vec<ColEntry> = Vec::new();
        let mut freed: u64 = 0;
        let mut i: usize = 0;
        proof {
            assert(s.take(0) =~= Seq::<KvView>::empty());
        }
        while i < self.entries.len()
            invariant
                i <= self.entries@.len(),
                s == self.entries@.map_values(|e: ColEntry| e@),
                s.len() == self.entries@.len(),
                kept@.map_values(|e: ColEntry| e@) == col_delete_range(s.take(i as int), start@,
                    end@),
                freed + col_size(kept@.map_values(|e: ColEntry| e@)) == col_size(
                    s.take(i as int)),
                col_size(s) <= u64::MAX,
            decreases self.entries@.len() - i,
        {
            let ghost ks = kept@.map_values(|e: ColEntry| e@);
            proof {
                assert(s.take(i as int + 1) =~= s.take(i as int).push(s[i as int]));
                lemma_col_delete_range_push(s.take(i as int), s[i as int], start@, end@);
                lemma_col_size_push(s.take(i as int), s[i as int]);
                assert(col_size(s) == col_size(s.take(i as int + 1)) + col_size(
                    s.skip(i as int + 1))) by {
                    assert(s =~= s.take(i as int + 1) + s.skip(i as int + 1));
                    lemma_col_size_concat(s.take(i as int + 1), s.skip(i as int + 1));
                }
            }
            let e = &self.entries[i];
            let key_in = crate::keys::bytes_le(start, &e.key) && crate::keys::bytes_cmp_lt(
                &e.key, end);
            if key_in {
                let klen = e.key.len() as u64;
                let vlen = e.value.len() as u64;
                freed = freed + klen;
                freed = freed + vlen;
                freed = freed + ENTRY_OVERHEAD;
            } else {
                let ck = clone_bytes(&e.key);
                let cv = clone_bytes(&e.value);
                kept.push(ColEntry { key: ck, value: cv });
                proof {
                    assert(kept@.map_values(|e: ColEntry| e@) =~= ks.push(s[i as int]));
                    lemma_col_size_push(ks, s[i as int]);
                }
            }
            i = i + 1;
        }
        proof {
            assert(s.take(i as int) =~= s);
        }
        self.entries = kept;
        proof {
            let t = self@;
            lemma_col_delete_range_contains(s, start@, end@);
            assert forall|a: int, b: int| 0 <= a < b < t.len() implies lex_lt(
                #[trigger] t[a].0, #[trigger] t[b].0) by {
                lemma_delete_range_sorted_pair(s, start@, end@, a, b);
            }
        }
        freed
    }

    /// Clones the entries whose keys lie in `[start, end)`, in order.
    pub fn entries_in_range(&self, start: &Vec<u8>, end: &Vec<u8>) -> (out: Vec<ColEntry>)
        ensures
            out@.map_values(|e: ColEntry| e@) == col_range(self@, start@, end@),
    {
        let s_len = self.entries.len();
        let ghost s = self@;
        let mut out: Vec<ColEntry> = Vec::new();
        let mut i: usize = 0;
        proof {
            assert(s.take(0) =~= Seq::<KvView>::empty());
        }
        while i < s_len
            invariant
                i <= self.entries@.len(),
                s_len == self.entries@.len(),
                s == self.entries@.map_values(|e: ColEntry| e@),
                s.len() == self.entries@.len(),
                out@.map_values(|e: ColEntry| e@) == col_range(s.take(i as int), start@, end@),
            decreases s_len - i,
        {
            let ghost os = out@.map_values(|e: ColEntry| e@);
            proof {
                assert(s.take(i as int + 1) =~= s.take(i as int).push(s[i as int]));
                lemma_col_range_push(s.take(i as int), s[i as int], start@, end@);
            }
            let e = &self.entries[i];
            let key_in = crate::keys::bytes_le(start, &e.key) && crate::keys::bytes_cmp_lt(
                &e.key, end);
            if key_in {
                let ck = clone_bytes(&e.key);
                let cv = clone_bytes(&e.value);
                out.push(ColEntry { key: ck, value: cv });
                proof {
                    assert(out@.map_values(|e: ColEntry| e@) =~= os.push(s[i as int]));
                }
            }
            i = i + 1;
        }
        proof {
            assert(s.take(i as int) =~= s);
        }
        out
    }
}

impl Column {
    /// The total charge of the column's entries.
    pub fn total_size(&self) -> (n: u64)
        requires
            col_size(self@) <= u64::MAX,
        ensures
            n == col_size(self@),
    {
        let ghost s = self@;
        let mut n: u64 = 0;
        let mut i: usize = 0;
        proof {
            assert(s.take(0) =~= Seq::<KvView>::empty());
        }
        while i < self.len()
            invariant
                i <= s.len(),
                s == self@,
                n == col_size(s.take(i as int)),
                col_size(s) <= u64::MAX,
            decreases s.len() - i,
        {
            proof {
                assert(s.take(i as int + 1) =~= s.take(i as int).push(s[i as int]));
                lemma_col_size_push(s.take(i as int), s[i as int]);
                assert(s =~= s.take(i as int + 1) + s.skip(i as int + 1));
                lemma_col_size_concat(s.take(i as int + 1), s.skip(i as int + 1));
            }
            let k = self.key_at(i);
            let v = self.value_at(i);
            n = n + k.len() as u64;
            n = n + v.len() as u64;
            n = n + ENTRY_OVERHEAD;
            i = i + 1;
        }
        proof {
            assert(s.take(i as int) =~= s);
        }
        n
    }
}

/// Removal by key never grows the charge.
pub proof fn lemma_col_remove_size_le(s: Seq<KvView>, k: Seq<u8>)
    ensures
        col_size(col_remove(s, k)) <= col_size(s),
{
    if has_key(s, k) {
        lemma_lower_bound_props(s, k);
        lemma_col_size_remove(s, lower_bound(s, k));
    }
}


impl Column {
    /// Clones every entry, in order.
    pub fn entries_cloned(&self) -> (out: Vec<ColEntry>)
        ensures
            out@.map_values(|e: ColEntry| e@) == self@,
    {
        let ghost s = self@;
        let mut out: Vec<ColEntry> = Vec::new();
        let mut i: usize = 0;
        proof {
            assert(out@.map_values(|e: ColEntry| e@) =~= s.take(0));
        }
        while i < self.len()
            invariant
                i <= s.len(),
                s == self@,
                out@.map_values(|e: ColEntry| e@) == s.take(i as int),
            decreases s.len() - i,
        {
            let ghost os = out@.map_values(|e: ColEntry| e@);
            let ck = clone_bytes(self.key_at(i));
            let cv = clone_bytes(self.value_at(i));
            out.push(ColEntry { key: ck, value: cv });
            proof {
                assert(out@.map_values(|e: ColEntry| e@) =~= os.push(s[i as int]));
                assert(s.take(i as int + 1) =~= s.take(i as int).push(s[i as int]));
            }
            i = i + 1;
        }
        proof {
            assert(s.take(i as int) =~= s);
        }
        out
    }
}

/// Order is kept between any two survivors of a range erase.
proof fn lemma_delete_range_sorted_pair(s: Seq<KvView>, start: Seq<u8>, end: Seq<u8>, a: int,
    b: int)
    requires
        entries_sorted(s),
        0 <= a < b < col_delete_range(s, start, end).len(),
    ensures
        lex_lt(col_delete_range(s, start, end)[a].0, col_delete_range(s, start, end)[b].0),
    decreases s.len(),
{
    if s.len() > 0 {
        assert(forall|j: int| 1 <= j < s.len() ==> s[j] == #[trigger] s.skip(1)[j - 1]);
        if in_byte_range(s[0].0, start, end) {
            lemma_delete_range_sorted_pair(s.skip(1), start, end, a, b);
        } else {
            let r = col_delete_range(s, start, end);
            let r1 = col_delete_range(s.skip(1), start, end);
            assert(r == seq![s[0]] + r1);
            if a == 0 {
                assert(r[b] == r1[b - 1]);
                lemma_col_delete_range_contains(s.skip(1), start, end);
                assert(r1.contains(r1[b - 1]));
                assert(s.skip(1).contains(r1[b - 1]));
                let j = choose|j: int| 0 <= j < s.skip(1).len() && s.skip(1)[j] == r1[b - 1];
                assert(s[j + 1] == r1[b - 1]);
                assert(lex_lt(s[0].0, s[j + 1].0));
            } else {
                assert(r[a] == r1[a - 1] && r[b] == r1[b - 1]);
                lemma_delete_range_sorted_pair(s.skip(1), start, end, a - 1, b - 1);
            }
        }
    }
}

} // verus!
