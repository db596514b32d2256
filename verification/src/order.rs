//! Byte-wise ordering of keys and the stable ordering of override entries.

use vstd::prelude::*;
use vstd::string::StrSliceExecFns;
use vstd::utf8::encode_utf8;

verus! {

/// An override as the table sees it: the bytes of the key and of the value.
pub type Entry = (Seq<u8>, Seq<u8>);

/// The UTF-8 bytes of a string.
pub open spec fn text_bytes(s: String) -> Seq<u8> {
    encode_utf8(s@)
}

/// The overrides as entries of bytes, in the order given.
pub open spec fn pairs_of(s: Seq<(String, String)>) -> Seq<Entry> {
    Seq::new(s.len(), |i: int| (text_bytes(s[i].0), text_bytes(s[i].1)))
}

/// What a vector of byte pairs holds.
pub open spec fn entries_view(s: Seq<(Vec<u8>, Vec<u8>)>) -> Seq<Entry> {
    Seq::new(s.len(), |i: int| (s[i].0@, s[i].1@))
}

/// Lexicographic "strictly before", deciding from position `i` on; the
/// bytes before `i` are taken to agree.
pub open spec fn lt_from(a: Seq<u8>, b: Seq<u8>, i: int) -> bool
    decreases a.len() - i,
{
    if i < 0 || i >= b.len() {
        false
    } else if i >= a.len() {
        true
    } else if a[i] != b[i] {
        a[i] < b[i]
    } else {
        lt_from(a, b, i + 1)
    }
}

/// `a` comes strictly before `b` in byte-wise lexicographic order.
pub open spec fn bytes_lt(a: Seq<u8>, b: Seq<u8>) -> bool {
    lt_from(a, b, 0)
}

/// Keys never decrease along `s`.
pub open spec fn sorted_by_key(s: Seq<Entry>) -> bool {
    forall|i: int, j: int| 0 <= i < j < s.len() ==> !bytes_lt(#[trigger] s[j].0, #[trigger] s[i].0)
}

/// Where `e` goes in `s`: behind the last entry whose key is not greater.
pub open spec fn insert_pos(s: Seq<Entry>, e: Entry) -> int
    decreases s.len(),
{
    if s.len() > 0 && bytes_lt(e.0, s.last().0) {
        insert_pos(s.drop_last(), e)
    } else {
        s.len() as int
    }
}

/// `s` with `e` put behind the last entry whose key is not greater.
pub open spec fn insert_entry(s: Seq<Entry>, e: Entry) -> Seq<Entry> {
    s.insert(insert_pos(s, e), e)
}

/// The entries of `s` in ascending key order; entries with equal keys keep
/// the order they had in `s`.
pub open spec fn sort_entries(s: Seq<Entry>) -> Seq<Entry>
    decreases s.len(),
{
    if s.len() == 0 {
        Seq::empty()
    } else {
        insert_entry(sort_entries(s.drop_last()), s.last())
    }
}

/// No byte string comes before itself or before one that comes before it.
pub proof fn lemma_lt_asymmetric(a: Seq<u8>, b: Seq<u8>, i: int)
    requires
        0 <= i,
    ensures
        lt_from(a, b, i) ==> !lt_from(b, a, i),
    decreases a.len() - i,
{
    if i < a.len() && i < b.len() && a[i] == b[i] {
        lemma_lt_asymmetric(a, b, i + 1);
    }
}

/// If `a` comes before `c`, any `b` lies behind `a` or before `c`.
pub proof fn lemma_lt_splits(a: Seq<u8>, b: Seq<u8>, c: Seq<u8>, i: int)
    requires
        0 <= i,
    ensures
        lt_from(a, c, i) ==> lt_from(a, b, i) || lt_from(b, c, i),
    decreases a.len() - i,
{
    if i < a.len() && i < b.len() && i < c.len() && a[i] == b[i] && b[i] == c[i] {
        lemma_lt_splits(a, b, c, i + 1);
    }
}

/// The place found for `e` lies inside `s`, every entry from it on has a
/// greater key, and the entry just before it has none.
pub proof fn lemma_insert_pos(s: Seq<Entry>, e: Entry)
    ensures
        0 <= insert_pos(s, e) <= s.len(),
        forall|j: int| insert_pos(s, e) <= j < s.len() ==> bytes_lt(e.0, #[trigger] s[j].0),
        insert_pos(s, e) > 0 ==> !bytes_lt(e.0, s[insert_pos(s, e) - 1].0),
    decreases s.len(),
{
    if s.len() > 0 && bytes_lt(e.0, s.last().0) {
        let front = s.drop_last();
        lemma_insert_pos(front, e);
        assert forall|j: int| insert_pos(s, e) <= j < s.len() implies bytes_lt(
            e.0,
            #[trigger] s[j].0,
        ) by {
            if j < front.len() {
                assert(s[j] == front[j]);
            }
        }
    }
}

/// A place with the two properties of `insert_pos` is that place.
pub proof fn lemma_insert_pos_unique(s: Seq<Entry>, e: Entry, p: int)
    requires
        0 <= p <= s.len(),
        forall|j: int| p <= j < s.len() ==> bytes_lt(e.0, #[trigger] s[j].0),
        p > 0 ==> !bytes_lt(e.0, s[p - 1].0),
    ensures
        insert_pos(s, e) == p,
    decreases s.len(),
{
    if s.len() > 0 && bytes_lt(e.0, s.last().0) {
        assert(p < s.len());
        lemma_insert_pos_unique(s.drop_last(), e, p);
    } else if p < s.len() {
        assert(bytes_lt(e.0, s[s.len() - 1].0));
    }
}

/// Putting an entry into a sorted sequence leaves it sorted.
pub proof fn lemma_insert_keeps_sorted(s: Seq<Entry>, e: Entry)
    requires
        sorted_by_key(s),
    ensures
        sorted_by_key(insert_entry(s, e)),
{
    let p = insert_pos(s, e);
    let r = insert_entry(s, e);
    lemma_insert_pos(s, e);
    assert forall|i: int, j: int| 0 <= i < j < r.len() implies !bytes_lt(
        #[trigger] r[j].0,
        #[trigger] r[i].0,
    ) by {
        if j == p {
            // r[i] is s[i], in front of the new entry
            if i < p - 1 {
                assert(!bytes_lt(s[p - 1].0, s[i].0));
            }
            lemma_lt_splits(e.0, s[p - 1].0, s[i].0, 0);
        } else if i == p {
            assert(r[j] == s[j - 1]);
            lemma_lt_asymmetric(e.0, s[j - 1].0, 0);
        } else {
            let si = if i < p { i } else { i - 1 };
            let sj = if j < p { j } else { j - 1 };
            assert(r[i] == s[si] && r[j] == s[sj]);
            assert(!bytes_lt(s[sj].0, s[si].0));
        }
    }
}

/// Keys never decrease along the sorted entries.
pub proof fn lemma_sort_is_sorted(s: Seq<Entry>)
    ensures
        sorted_by_key(sort_entries(s)),
    decreases s.len(),
{
    if s.len() > 0 {
        lemma_sort_is_sorted(s.drop_last());
        lemma_insert_keeps_sorted(sort_entries(s.drop_last()), s.last());
    }
}

/// Sorting neither adds nor drops an entry: the sorted entries are the
/// given ones, each as often as it was given.
pub proof fn lemma_sort_is_permutation(s: Seq<Entry>)
    ensures
        sort_entries(s).to_multiset() == s.to_multiset(),
        sort_entries(s).len() == s.len(),
    decreases s.len(),
{
    broadcast use vstd::seq_lib::to_multiset_build, vstd::seq_lib::to_multiset_insert;

    if s.len() > 0 {
        let front = s.drop_last();
        lemma_sort_is_permutation(front);
        lemma_insert_pos(sort_entries(front), s.last());
        assert(s == front.push(s.last()));
    } else {
        assert(s == Seq::<Entry>::empty());
    }
}

/// Whether an entry has the key `k`.
pub open spec fn key_is(k: Seq<u8>) -> spec_fn(Entry) -> bool {
    |e: Entry| e.0 == k
}

/// The entries of `s` that have the key `k`, in the order they have in `s`.
pub open spec fn with_key(s: Seq<Entry>, k: Seq<u8>) -> Seq<Entry> {
    s.filter(key_is(k))
}

/// Where no entry has the key, there are no entries with the key.
proof fn lemma_none_with_key(s: Seq<Entry>, k: Seq<u8>)
    requires
        forall|j: int| 0 <= j < s.len() ==> (#[trigger] s[j]).0 != k,
    ensures
        with_key(s, k) == Seq::<Entry>::empty(),
    decreases s.len(),
{
    reveal(Seq::filter);
    if s.len() > 0 {
        let front = s.drop_last();
        assert forall|j: int| 0 <= j < front.len() implies (#[trigger] front[j]).0 != k by {
            assert(front[j] == s[j]);
        }
        lemma_none_with_key(front, k);
        assert(s[s.len() - 1].0 != k);
    }
}

/// Sorting is stable: the overrides that share a key stay in the order in
/// which they were given.
pub proof fn lemma_sort_is_stable(s: Seq<Entry>, k: Seq<u8>)
    ensures
        with_key(sort_entries(s), k) == with_key(s, k),
    decreases s.len(),
{
    let f = key_is(k);
    if s.len() > 0 {
        let front = s.drop_last();
        let e = s.last();
        let sf = sort_entries(front);
        lemma_sort_is_stable(front, k);
        lemma_insert_pos(sf, e);
        let p = insert_pos(sf, e);
        let a = sf.take(p);
        let b = sf.skip(p);
        assert(sf =~= a + b);
        assert(sf.insert(p, e) =~= a.push(e) + b);
        Seq::filter_distributes_over_add(a, b, f);
        Seq::filter_distributes_over_add(a.push(e), b, f);
        assert(a.push(e).drop_last() =~= a);
        assert(a.push(e).filter(f) == if f(e) {
            a.filter(f).push(e)
        } else {
            a.filter(f)
        }) by {
            reveal(Seq::filter);
        }
        assert(s.filter(f) == if f(e) {
            front.filter(f).push(e)
        } else {
            front.filter(f)
        }) by {
            reveal(Seq::filter);
        }
        if e.0 == k {
            assert forall|j: int| 0 <= j < b.len() implies (#[trigger] b[j]).0 != k by {
                assert(b[j] == sf[p + j]);
                assert(bytes_lt(e.0, sf[p + j].0));
                lemma_lt_asymmetric(e.0, e.0, 0);
            }
            lemma_none_with_key(b, k);
            assert(a.filter(f).push(e) + Seq::<Entry>::empty() =~= a.filter(f).push(e));
            assert(a.filter(f) + Seq::<Entry>::empty() =~= a.filter(f));
        }
    } else {
        assert(sort_entries(s) =~= s);
    }
}

/// No two entries of `s` have the same key.
pub open spec fn distinct_keys(s: Seq<Entry>) -> bool {
    forall|i: int, j: int| 0 <= i < j < s.len() ==> (#[trigger] s[i]).0 != (#[trigger] s[j]).0
}

/// Two byte strings of which neither comes before the other are the same.
pub proof fn lemma_lt_total(a: Seq<u8>, b: Seq<u8>, i: int)
    requires
        0 <= i <= a.len(),
        i <= b.len(),
        forall|j: int| 0 <= j < i ==> a[j] == b[j],
        !lt_from(a, b, i),
        !lt_from(b, a, i),
    ensures
        a == b,
    decreases a.len() - i,
{
    if i < a.len() && i < b.len() {
        lemma_lt_total(a, b, i + 1);
    } else {
        assert(a =~= b);
    }
}

/// Sequences with the same entries, each as often, hold the same entries.
pub proof fn lemma_entry_kept(a: Seq<Entry>, b: Seq<Entry>, e: Entry)
    requires
        a.to_multiset() == b.to_multiset(),
    ensures
        a.contains(e) <==> b.contains(e),
{
    vstd::seq_lib::to_multiset_contains(a, e);
    vstd::seq_lib::to_multiset_contains(b, e);
}

/// An override is in the sorted entries exactly if it was given: a key
/// that was given is found with a value given for it, and no other key is
/// found.
pub proof fn lemma_sort_keeps_entries(es: Seq<Entry>, e: Entry)
    ensures
        sort_entries(es).contains(e) <==> es.contains(e),
{
    lemma_sort_is_permutation(es);
    lemma_entry_kept(es, sort_entries(es), e);
}

/// Sorting entries with distinct keys leaves the keys distinct.
pub proof fn lemma_sort_keeps_distinct(s: Seq<Entry>)
    requires
        distinct_keys(s),
    ensures
        distinct_keys(sort_entries(s)),
    decreases s.len(),
{
    if s.len() > 0 {
        let front = s.drop_last();
        let e = s.last();
        let sf = sort_entries(front);
        assert(distinct_keys(front)) by {
            assert forall|i: int, j: int| 0 <= i < j < front.len() implies (#[trigger] front[i]).0 != (
            #[trigger] front[j]).0 by {
                assert(front[i] == s[i] && front[j] == s[j]);
            }
        }
        lemma_sort_keeps_distinct(front);
        lemma_insert_pos(sf, e);
        let p = insert_pos(sf, e);
        let r = sf.insert(p, e);
        assert forall|i: int| 0 <= i < sf.len() implies (#[trigger] sf[i]).0 != e.0 by {
            assert(sf.contains(sf[i]));
            lemma_sort_keeps_entries(front, sf[i]);
            let j = choose|j: int| 0 <= j < front.len() && front[j] == sf[i];
            assert(s[j] == sf[i]);
            assert(s[s.len() - 1] == e);
        }
        assert forall|i: int, j: int| 0 <= i < j < r.len() implies (#[trigger] r[i]).0 != (
        #[trigger] r[j]).0 by {
            let si = if i < p { i } else { i - 1 };
            let sj = if j < p { j } else { j - 1 };
            if i == p {
                assert(r[j] == sf[sj]);
            } else if j == p {
                assert(r[i] == sf[si]);
            } else {
                assert(r[i] == sf[si] && r[j] == sf[sj]);
            }
        }
    }
}

/// Only one sorted sequence holds given entries with distinct keys.
pub proof fn lemma_sorted_unique(s: Seq<Entry>, t: Seq<Entry>)
    requires
        sorted_by_key(s),
        sorted_by_key(t),
        distinct_keys(s),
        s.to_multiset() == t.to_multiset(),
    ensures
        s == t,
    decreases s.len(),
{
    broadcast use vstd::seq_lib::to_multiset_build;

    vstd::seq_lib::to_multiset_len(s);
    vstd::seq_lib::to_multiset_len(t);
    if s.len() == 0 {
        assert(s =~= t);
    } else {
        let n = s.len() - 1;
        let x = s[n];
        let y = t[n];
        assert(s.contains(x));
        assert(t.contains(y));
        lemma_entry_kept(s, t, x);
        lemma_entry_kept(s, t, y);
        let j = choose|j: int| 0 <= j < t.len() && t[j] == x;
        let i = choose|i: int| 0 <= i < s.len() && s[i] == y;
        if j < n {
            assert(!bytes_lt(t[n].0, t[j].0));
        } else {
            lemma_lt_asymmetric(x.0, x.0, 0);
        }
        if i < n {
            assert(!bytes_lt(s[n].0, s[i].0));
        } else {
            lemma_lt_asymmetric(x.0, x.0, 0);
        }
        lemma_lt_total(x.0, y.0, 0);
        assert(i == n);
        let sf = s.drop_last();
        let tf = t.drop_last();
        assert(s == sf.push(x));
        assert(t == tf.push(x));
        assert(sf.to_multiset() =~= tf.to_multiset()) by {
            assert(sf.to_multiset() =~= sf.to_multiset().insert(x).remove(x));
            assert(tf.to_multiset() =~= tf.to_multiset().insert(x).remove(x));
        }
        assert(sorted_by_key(sf)) by {
            assert forall|a: int, b: int| 0 <= a < b < sf.len() implies !bytes_lt(
                #[trigger] sf[b].0,
                #[trigger] sf[a].0,
            ) by {
                assert(!bytes_lt(s[b].0, s[a].0));
            }
        }
        assert(sorted_by_key(tf)) by {
            assert forall|a: int, b: int| 0 <= a < b < tf.len() implies !bytes_lt(
                #[trigger] tf[b].0,
                #[trigger] tf[a].0,
            ) by {
                assert(!bytes_lt(t[b].0, t[a].0));
            }
        }
        assert(distinct_keys(sf)) by {
            assert forall|a: int, b: int| 0 <= a < b < sf.len() implies (#[trigger] sf[a]).0 != (
            #[trigger] sf[b]).0 by {
                assert(sf[a] == s[a] && sf[b] == s[b]);
            }
        }
        lemma_sorted_unique(sf, tf);
    }
}

/// Overrides with distinct keys are sorted alike in whatever order they
/// are given.
pub proof fn lemma_sort_ignores_order(a: Seq<Entry>, b: Seq<Entry>)
    requires
        distinct_keys(a),
        a.to_multiset() == b.to_multiset(),
    ensures
        sort_entries(a) == sort_entries(b),
{
    lemma_sort_is_permutation(a);
    lemma_sort_is_permutation(b);
    lemma_sort_is_sorted(a);
    lemma_sort_is_sorted(b);
    lemma_sort_keeps_distinct(a);
    lemma_sorted_unique(sort_entries(a), sort_entries(b));
}

/// Whether `a` comes strictly before `b` in byte-wise lexicographic order.
pub fn key_before(a: &Vec<u8>, b: &Vec<u8>) -> (r: bool)
    ensures
        r == bytes_lt(a@, b@),
{
    let mut i: usize = 0;
    while i < a.len() && i < b.len() && a[i] == b[i]
        invariant
            i <= a.len(),
            i <= b.len(),
            bytes_lt(a@, b@) == lt_from(a@, b@, i as int),
        decreases a.len() - i,
    {
        i += 1;
    }
    if i >= b.len() {
        false
    } else if i >= a.len() {
        true
    } else {
        a[i] < b[i]
    }
}

/// The overrides as bytes, in ascending byte-wise order of their keys;
/// overrides with equal keys stay in the order given.
pub fn sorted_entries(overrides: &Vec<(String, String)>) -> (out: Vec<(Vec<u8>, Vec<u8>)>)
    ensures
        entries_view(out@) == sort_entries(pairs_of(overrides@)),
{
    let ghost pairs = pairs_of(overrides@);
    let mut out: Vec<(Vec<u8>, Vec<u8>)> = Vec::new();
    let mut i: usize = 0;
    while i < overrides.len()
        invariant
            i <= overrides.len(),
            pairs == pairs_of(overrides@),
            entries_view(out@) == sort_entries(pairs.take(i as int)),
        decreases overrides.len() - i,
    {
        let key = overrides[i].0.as_str().as_bytes_vec();
        let value = overrides[i].1.as_str().as_bytes_vec();
        let mut p: usize = out.len();
        while p > 0 && key_before(&key, &out[p - 1].0)
            invariant
                p <= out.len(),
                forall|j: int| p <= j < out.len() ==> bytes_lt(key@, #[trigger] entries_view(out@)[j].0),
            decreases p,
        {
            p -= 1;
        }
        proof {
            let e = (key@, value@);
            let before = entries_view(out@);
            assert(pairs.take(i + 1).drop_last() == pairs.take(i as int));
            assert(pairs.take(i + 1).last() == e);
            lemma_insert_pos_unique(before, e, p as int);
            assert(entries_view(out@.insert(p as int, (key, value))) == before.insert(p as int, e));
        }
        out.insert(p, (key, value));
        i += 1;
    }
    proof {
        assert(pairs.take(i as int) == pairs);
    }
    out
}

} // verus!
