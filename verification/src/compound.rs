//! The order of compound keys and the map operations on compounds.
use vstd::prelude::*;
use vstd::utf8::*;
use crate::{Compound, NbtValue, Variant, compound_model, variant_model};

verus! {

/// The values of entries.
pub open spec fn entry_values(es: Seq<(String, Variant)>) -> Seq<(Seq<char>, NbtValue)> {
    es.map_values(|e: (String, Variant)| (e.0@, variant_model(e.1)))
}

/// Lexicographic order on byte strings, as `[u8]` orders them.
pub open spec fn bytes_lt(a: Seq<u8>, b: Seq<u8>) -> bool
    decreases a.len(),
{
    if a.len() == 0 {
        b.len() > 0
    } else if b.len() == 0 {
        false
    } else if a[0] != b[0] {
        a[0] < b[0]
    } else {
        bytes_lt(a.drop_first(), b.drop_first())
    }
}

/// The order of keys: that of their UTF-8 bytes, which is the order of `String`.
pub open spec fn key_lt(a: Seq<char>, b: Seq<char>) -> bool {
    bytes_lt(encode_utf8(a), encode_utf8(b))
}

/// The keys of `entries` strictly increase.
pub open spec fn entries_sorted(entries: Seq<(Seq<char>, NbtValue)>) -> bool {
    forall|i: int, j: int|
        0 <= i < j < entries.len() ==> key_lt(#[trigger] entries[i].0, #[trigger] entries[j].0)
}

/// The number of leading entries whose keys come before `k`, counting from the end while the
/// keys do not.
pub open spec fn lower_bound(entries: Seq<(Seq<char>, NbtValue)>, k: Seq<char>) -> int
    decreases entries.len(),
{
    if entries.len() == 0 {
        0
    } else if key_lt(entries.last().0, k) {
        entries.len() as int
    } else {
        lower_bound(entries.drop_last(), k)
    }
}

/// `entries` with the value of `k` set to `v`: an entry with key `k` at the place that the
/// order gives is replaced, otherwise a new entry goes there.
pub open spec fn insert_entry(entries: Seq<(Seq<char>, NbtValue)>, k: Seq<char>, v: NbtValue) -> Seq<
    (Seq<char>, NbtValue),
> {
    let i = lower_bound(entries, k);
    if i < entries.len() && entries[i].0 == k {
        entries.update(i, (k, v))
    } else {
        entries.insert(i, (k, v))
    }
}

pub proof fn lemma_lower_bound_range(entries: Seq<(Seq<char>, NbtValue)>, k: Seq<char>)
    ensures
        0 <= lower_bound(entries, k) <= entries.len(),
    decreases entries.len(),
{
    if entries.len() > 0 && !key_lt(entries.last().0, k) {
        lemma_lower_bound_range(entries.drop_last(), k);
    }
}

pub proof fn lemma_bytes_lt_irreflexive(a: Seq<u8>)
    ensures
        !bytes_lt(a, a),
    decreases a.len(),
{
    if a.len() > 0 {
        lemma_bytes_lt_irreflexive(a.drop_first());
    }
}

pub proof fn lemma_bytes_lt_transitive(a: Seq<u8>, b: Seq<u8>, c: Seq<u8>)
    requires
        bytes_lt(a, b),
        bytes_lt(b, c),
    ensures
        bytes_lt(a, c),
    decreases a.len(),
{
    if a.len() > 0 && b.len() > 0 && c.len() > 0 && a[0] == b[0] && b[0] == c[0] {
        lemma_bytes_lt_transitive(a.drop_first(), b.drop_first(), c.drop_first());
    }
}

pub proof fn lemma_bytes_lt_total(a: Seq<u8>, b: Seq<u8>)
    requires
        a != b,
    ensures
        bytes_lt(a, b) || bytes_lt(b, a),
    decreases a.len(),
{
    if a.len() > 0 && b.len() > 0 && a[0] == b[0] {
        if a.drop_first() == b.drop_first() {
            assert(a =~= seq![a[0]] + a.drop_first());
            assert(b =~= seq![b[0]] + b.drop_first());
        }
        lemma_bytes_lt_total(a.drop_first(), b.drop_first());
    } else if a.len() == 0 && b.len() == 0 {
        assert(a =~= b);
    }
}

pub proof fn lemma_key_lt_irreflexive(a: Seq<char>)
    ensures
        !key_lt(a, a),
{
    lemma_bytes_lt_irreflexive(encode_utf8(a));
}

pub proof fn lemma_key_lt_transitive(a: Seq<char>, b: Seq<char>, c: Seq<char>)
    requires
        key_lt(a, b),
        key_lt(b, c),
    ensures
        key_lt(a, c),
{
    lemma_bytes_lt_transitive(encode_utf8(a), encode_utf8(b), encode_utf8(c));
}

pub proof fn lemma_key_lt_total(a: Seq<char>, b: Seq<char>)
    requires
        a != b,
    ensures
        key_lt(a, b) || key_lt(b, a),
{
    encode_utf8_decode_utf8(a);
    encode_utf8_decode_utf8(b);
    lemma_bytes_lt_total(encode_utf8(a), encode_utf8(b));
}

/// In sorted entries, the entries before [`lower_bound`] have keys before `k`, and the others
/// do not.
pub proof fn lemma_lower_bound_sorted(entries: Seq<(Seq<char>, NbtValue)>, k: Seq<char>)
    requires
        entries_sorted(entries),
    ensures
        0 <= lower_bound(entries, k) <= entries.len(),
        forall|j: int| 0 <= j < lower_bound(entries, k) ==> key_lt(#[trigger] entries[j].0, k),
        forall|j: int| lower_bound(entries, k) <= j < entries.len() ==> !key_lt(#[trigger] entries[j].0, k),
    decreases entries.len(),
{
    if entries.len() > 0 {
        let last = entries.len() - 1;
        if key_lt(entries.last().0, k) {
            assert forall|j: int| 0 <= j < entries.len() implies key_lt(#[trigger] entries[j].0, k) by {
                if j < last {
                    lemma_key_lt_transitive(entries[j].0, entries[last].0, k);
                }
            }
        } else {
            let d = entries.drop_last();
            assert forall|i: int, j: int| 0 <= i < j < d.len() implies key_lt(#[trigger] d[i].0, #[trigger] d[j].0) by {
                assert(d[i] == entries[i] && d[j] == entries[j]);
            }
            lemma_lower_bound_sorted(d, k);
            assert forall|j: int| 0 <= j < lower_bound(entries, k) implies key_lt(#[trigger] entries[j].0, k) by {
                assert(d[j] == entries[j]);
            }
            assert forall|j: int| lower_bound(entries, k) <= j < entries.len() implies !key_lt(#[trigger] entries[j].0, k) by {
                if j < last {
                    assert(d[j] == entries[j]);
                }
            }
        }
    }
}

/// Inserting into entries whose keys strictly increase keeps them so.
pub proof fn law_insert_keeps_order(entries: Seq<(Seq<char>, NbtValue)>, k: Seq<char>, v: NbtValue)
    requires
        entries_sorted(entries),
    ensures
        entries_sorted(insert_entry(entries, k, v)),
{
    lemma_lower_bound_sorted(entries, k);
    let i = lower_bound(entries, k);
    let r = insert_entry(entries, k, v);
    if i < entries.len() && entries[i].0 == k {
        assert forall|a: int, b: int| 0 <= a < b < r.len() implies key_lt(#[trigger] r[a].0, #[trigger] r[b].0) by {
            assert(r[a].0 == entries[a].0 && r[b].0 == entries[b].0);
        }
    } else {
        assert forall|j: int| i <= j < entries.len() implies key_lt(k, #[trigger] entries[j].0) by {
            if entries[j].0 == k {
                if j > i {
                    assert(key_lt(entries[i].0, entries[j].0));
                }
            } else {
                lemma_key_lt_total(entries[j].0, k);
            }
        }
        assert forall|a: int, b: int| 0 <= a < b < r.len() implies key_lt(#[trigger] r[a].0, #[trigger] r[b].0) by {
            if b < i {
                assert(r[a] == entries[a] && r[b] == entries[b]);
            } else if b == i {
                assert(r[a] == entries[a]);
            } else if a < i {
                assert(r[a] == entries[a] && r[b] == entries[b - 1]);
                lemma_key_lt_transitive(entries[a].0, k, entries[b - 1].0);
            } else if a == i {
                assert(r[b] == entries[b - 1]);
            } else {
                assert(r[a] == entries[a - 1] && r[b] == entries[b - 1]);
            }
        }
    }
}

/// The value of the first entry with key `k`, where there is one.
pub open spec fn lookup(entries: Seq<(Seq<char>, NbtValue)>, k: Seq<char>) -> Option<NbtValue>
    decreases entries.len(),
{
    if entries.len() == 0 {
        None
    } else if entries[0].0 == k {
        Some(entries[0].1)
    } else {
        lookup(entries.drop_first(), k)
    }
}

pub proof fn lemma_lookup_none(entries: Seq<(Seq<char>, NbtValue)>, k: Seq<char>)
    requires
        forall|j: int| 0 <= j < entries.len() ==> #[trigger] entries[j].0 != k,
    ensures
        lookup(entries, k) is None,
    decreases entries.len(),
{
    if entries.len() > 0 {
        let d = entries.drop_first();
        assert forall|j: int| 0 <= j < d.len() implies #[trigger] d[j].0 != k by {
            assert(d[j] == entries[j + 1]);
        }
        assert(entries[0].0 != k);
        lemma_lookup_none(d, k);
    }
}

pub proof fn lemma_lookup_at(entries: Seq<(Seq<char>, NbtValue)>, i: int)
    requires
        entries_sorted(entries),
        0 <= i < entries.len(),
    ensures
        lookup(entries, entries[i].0) == Some(entries[i].1),
    decreases i,
{
    if i > 0 {
        assert(key_lt(entries[0].0, entries[i].0));
        lemma_key_lt_irreflexive(entries[i].0);
        let d = entries.drop_first();
        assert forall|a: int, b: int| 0 <= a < b < d.len() implies key_lt(#[trigger] d[a].0, #[trigger] d[b].0) by {
            assert(d[a] == entries[a + 1] && d[b] == entries[b + 1]);
        }
        assert(d[i - 1] == entries[i]);
        lemma_lookup_at(d, i - 1);
    }
}

/// After `k` is set to `v` in sorted entries, `k` has the value `v`, and every other key has
/// the value it had.
pub proof fn law_insert_lookup(entries: Seq<(Seq<char>, NbtValue)>, k: Seq<char>, v: NbtValue, other: Seq<char>)
    requires
        entries_sorted(entries),
    ensures
        lookup(insert_entry(entries, k, v), k) == Some(v),
        other != k ==> lookup(insert_entry(entries, k, v), other) == lookup(entries, other),
{
    lemma_lower_bound_sorted(entries, k);
    law_insert_keeps_order(entries, k, v);
    let i = lower_bound(entries, k);
    let r = insert_entry(entries, k, v);
    let replaced = i < entries.len() && entries[i].0 == k;
    assert(r[i] == (k, v));
    lemma_lookup_at(r, i);
    if other != k {
        if exists|j: int| 0 <= j < entries.len() && #[trigger] entries[j].0 == other {
            let j = choose|j: int| 0 <= j < entries.len() && #[trigger] entries[j].0 == other;
            lemma_lookup_at(entries, j);
            let jr = if replaced || j < i { j } else { j + 1 };
            assert(r[jr] == entries[j]);
            lemma_lookup_at(r, jr);
        } else {
            assert forall|j: int| 0 <= j < r.len() implies #[trigger] r[j].0 != other by {
                if j != i {
                    let je = if replaced || j < i { j } else { j - 1 };
                    assert(r[j] == entries[je]);
                }
            }
            lemma_lookup_none(entries, other);
            lemma_lookup_none(r, other);
        }
    }
}

/// `a < b` on the bytes of `a` and `b`.
pub fn bytes_less(a: &[u8], b: &[u8]) -> (r: bool)
    ensures
        r == bytes_lt(a@, b@),
{
    let mut i: usize = 0;
    assert(a@.subrange(0, a@.len() as int) =~= a@);
    assert(b@.subrange(0, b@.len() as int) =~= b@);
    while i < a.len() && i < b.len() && a[i] == b[i]
        invariant
            i <= a@.len(),
            i <= b@.len(),
            bytes_lt(a@, b@) == bytes_lt(a@.subrange(i as int, a@.len() as int), b@.subrange(i as int, b@.len() as int)),
        decreases a@.len() - i,
    {
        proof {
            let sa = a@.subrange(i as int, a@.len() as int);
            let sb = b@.subrange(i as int, b@.len() as int);
            assert(sa.drop_first() =~= a@.subrange(i + 1, a@.len() as int));
            assert(sb.drop_first() =~= b@.subrange(i + 1, b@.len() as int));
        }
        i = i + 1;
    }
    if i == a.len() {
        i < b.len()
    } else if i == b.len() {
        false
    } else {
        a[i] < b[i]
    }
}

/// `a` comes before `b` in the order of keys.
pub fn key_less(a: &String, b: &String) -> (r: bool)
    ensures
        r == key_lt(a@, b@),
{
    bytes_less(a.as_str().as_bytes(), b.as_str().as_bytes())
}

/// The place of `k` in the entries, as [`lower_bound`] gives it.
fn find_place(entries: &Vec<(String, Variant)>, k: &String) -> (i: usize)
    ensures
        i as int == lower_bound(compound_model(Compound(*entries)), k@),
{
    let ghost m = compound_model(Compound(*entries));
    let mut i: usize = entries.len();
    assert(m.take(i as int) =~= m);
    while i > 0 && !key_less(&entries[i - 1].0, k)
        invariant
            i <= entries@.len(),
            m == compound_model(Compound(*entries)),
            m.len() == entries@.len(),
            lower_bound(m, k@) == lower_bound(m.take(i as int), k@),
        decreases i,
    {
        proof {
            let t = m.take(i as int);
            assert(t.drop_last() =~= m.take(i - 1));
            assert(t.last().0 == entries@[i - 1].0@);
        }
        i = i - 1;
    }
    proof {
        if i > 0 {
            let t = m.take(i as int);
            assert(t.last().0 == entries@[i - 1].0@);
        }
    }
    i
}

impl Compound {
    /// The compound without entries.
    pub fn new() -> (c: Compound)
        ensures
            c@ == Seq::<(Seq<char>, NbtValue)>::empty(),
    {
        let c = Compound(Vec::new());
        assert(c@ =~= Seq::<(Seq<char>, NbtValue)>::empty());
        c
    }

    /// The entries, in increasing order of their keys.
    pub fn entries(&self) -> (r: &Vec<(String, Variant)>)
        ensures
            entry_values(r@) == self@,
            entries_sorted(self@),
    {
        proof {
            use_type_invariant(self);
        }
        assert(entry_values(self.0@) =~= self@);
        &self.0
    }

    /// Sets the value of `key` to `value`, keeping the entries in key order.
    pub fn insert(&mut self, key: String, value: Variant)
        ensures
            final(self)@ == insert_entry(old(self)@, key@, value@),
    {
        proof {
            use_type_invariant(&*self);
        }
        let ghost m = self@;
        let mut entries: Vec<(String, Variant)> = Vec::new();
        std::mem::swap(&mut entries, &mut self.0);
        assert(compound_model(Compound(entries)) =~= m);
        let i = find_place(&entries, &key);
        proof {
            lemma_lower_bound_range(m, key@);
            law_insert_keeps_order(m, key@, value@);
        }
        if i < entries.len() && entries[i].0 == key {
            entries.set(i, (key, value));
            assert(compound_model(Compound(entries)) =~= m.update(i as int, (key@, value@)));
        } else {
            entries.insert(i, (key, value));
            assert(compound_model(Compound(entries)) =~= m.insert(i as int, (key@, value@)));
        }
        self.0 = entries;
    }
}

} // verus!
