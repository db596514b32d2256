//! The field table: every key and value with a length prefix, padded to
//! words, in ascending order of the keys.

use vstd::prelude::*;
use crate::layout::{le32, push_le32, push_zeros, zeros, TABLE_ALIGN, WORD};
use crate::order::{entries_view, pairs_of, sort_entries, sorted_entries, Entry};

verus! {

/// How many zero bytes bring a text of `n` bytes up to a word boundary.
pub open spec fn pad_len(n: nat) -> nat {
    if n % 4 == 0 {
        0
    } else {
        (4 - n % 4) as nat
    }
}

/// One text in the table: its length, its bytes, zeros up to the next word.
#[verifier::opaque]
pub open spec fn encode_text(s: Seq<u8>) -> Seq<u8> {
    le32(s.len()) + s + zeros(pad_len(s.len()))
}

/// The entries one after the other, each as its key and then its value.
pub open spec fn encode_entries(es: Seq<Entry>) -> Seq<u8>
    decreases es.len(),
{
    if es.len() == 0 {
        Seq::empty()
    } else {
        encode_entries(es.drop_last()) + encode_text(es.last().0) + encode_text(es.last().1)
    }
}

/// The table for the entries `es`, given in any order: the sorted entries,
/// then one word of zeros where the length would else be an odd number of
/// words.
pub open spec fn field_table(es: Seq<Entry>) -> Seq<u8> {
    let body = encode_entries(sort_entries(es));
    if body.len() % 8 == 0 {
        body
    } else {
        body + zeros(4)
    }
}

/// Where the length prefix of the key of entry `i` stands in the
/// encoding of `es`.
pub open spec fn key_offset(es: Seq<Entry>, i: int) -> int {
    encode_entries(es.take(i)).len() as int
}

/// Where the length prefix of the value of entry `i` stands in the
/// encoding of `es`.
pub open spec fn value_offset(es: Seq<Entry>, i: int) -> int {
    key_offset(es, i) + encode_text(es[i].0).len()
}

/// An encoded text fills whole words.
pub proof fn lemma_text_len(s: Seq<u8>)
    ensures
        encode_text(s).len() == 4 + s.len() + pad_len(s.len()),
        encode_text(s).len() % 4 == 0,
{
    reveal(encode_text);
}

/// An encoded text opens with its length.
pub proof fn lemma_text_prefix(s: Seq<u8>)
    ensures
        encode_text(s).len() >= 4,
        encode_text(s).subrange(0, 4) == le32(s.len()),
{
    reveal(encode_text);
}

/// Encoded entries fill whole words, and only no entries give no bytes.
pub proof fn lemma_entries_len(es: Seq<Entry>)
    ensures
        encode_entries(es).len() % 4 == 0,
        encode_entries(es).len() == 0 <==> es.len() == 0,
    decreases es.len(),
{
    if es.len() > 0 {
        let front = encode_entries(es.drop_last());
        let key = encode_text(es.last().0);
        let value = encode_text(es.last().1);
        lemma_entries_len(es.drop_last());
        lemma_text_len(es.last().0);
        lemma_text_len(es.last().1);
        assert(encode_entries(es).len() == front.len() + key.len() + value.len());
    }
}

/// The length of every table is a multiple of eight, and the table is
/// empty exactly when there are no entries.
pub proof fn lemma_table_len(es: Seq<Entry>)
    ensures
        field_table(es).len() % 8 == 0,
        field_table(es).len() == 0 <==> es.len() == 0,
{
    crate::order::lemma_sort_is_permutation(es);
    lemma_entries_len(sort_entries(es));
}

/// The encoding of the first `k` entries opens the encoding of all.
pub proof fn lemma_entries_prefix(es: Seq<Entry>, k: int)
    requires
        0 <= k <= es.len(),
    ensures
        encode_entries(es.take(k)).is_prefix_of(encode_entries(es)),
    decreases es.len(),
{
    if k == es.len() {
        assert(es.take(k) == es);
    } else {
        lemma_entries_prefix(es.drop_last(), k);
        assert(es.drop_last().take(k) == es.take(k));
    }
}

/// In the encoding of `s` the encoded key of entry `i` stands behind the
/// entries before it, and its encoded value behind the key.
proof fn lemma_entry_split(s: Seq<Entry>, i: int)
    requires
        0 <= i < s.len(),
    ensures
        value_offset(s, i) + encode_text(s[i].1).len() <= encode_entries(s).len(),
        encode_entries(s).subrange(key_offset(s, i), value_offset(s, i)) == encode_text(s[i].0),
        encode_entries(s).subrange(
            value_offset(s, i),
            value_offset(s, i) + encode_text(s[i].1).len(),
        ) == encode_text(s[i].1),
{
    let upto = s.take(i + 1);
    let front = encode_entries(s.take(i));
    let key = encode_text(s[i].0);
    let value = encode_text(s[i].1);
    let part = encode_entries(upto);
    let body = encode_entries(s);
    lemma_entries_prefix(s, i + 1);
    assert(upto.drop_last() == s.take(i));
    assert(upto.last() == s[i]);
    assert(part == front + key + value);
    assert(part.len() == front.len() + key.len() + value.len());
    let k = front.len() as int;
    let v = k + key.len();
    assert(body.subrange(k, v) =~= key) by {
        assert forall|j: int| 0 <= j < key.len() implies body[k + j] == key[j] by {
            assert(body[k + j] == part[k + j]);
        }
    }
    assert(body.subrange(v, v + value.len()) =~= value) by {
        assert forall|j: int| 0 <= j < value.len() implies body[v + j] == value[j] by {
            assert(body[v + j] == part[v + j]);
        }
    }
}

/// In the encoding of `s` every key and every value begins at a multiple
/// of four.
pub proof fn lemma_entry_offsets(s: Seq<Entry>, i: int)
    requires
        0 <= i < s.len(),
    ensures
        0 <= key_offset(s, i),
        key_offset(s, i) + 4 <= value_offset(s, i),
        key_offset(s, i) % 4 == 0,
        value_offset(s, i) % 4 == 0,
{
    lemma_entries_len(s.take(i));
    lemma_text_len(s[i].0);
}

/// In the encoding of `s` every key and every value opens with its length.
pub proof fn lemma_entry_lengths(s: Seq<Entry>, i: int)
    requires
        0 <= i < s.len(),
    ensures
        value_offset(s, i) + 4 <= encode_entries(s).len(),
        encode_entries(s).subrange(key_offset(s, i), key_offset(s, i) + 4) == le32(s[i].0.len()),
        encode_entries(s).subrange(value_offset(s, i), value_offset(s, i) + 4) == le32(
            s[i].1.len(),
        ),
{
    let key = encode_text(s[i].0);
    let value = encode_text(s[i].1);
    let body = encode_entries(s);
    let k = key_offset(s, i);
    let v = value_offset(s, i);
    lemma_entry_split(s, i);
    lemma_text_prefix(s[i].0);
    lemma_text_prefix(s[i].1);
    assert(v == k + key.len());
    assert(body.subrange(k, k + 4) =~= body.subrange(k, v).subrange(0, 4));
    assert(body.subrange(v, v + 4) =~= body.subrange(v, v + value.len()).subrange(0, 4));
}

/// In the encoding of `s` the length prefix of each key and of each value
/// begins at a multiple of four and holds the length of what follows it.
pub proof fn lemma_entry_prefixes(s: Seq<Entry>, i: int)
    requires
        0 <= i < s.len(),
    ensures
        0 <= key_offset(s, i) < value_offset(s, i),
        key_offset(s, i) % 4 == 0,
        value_offset(s, i) % 4 == 0,
        value_offset(s, i) + 4 <= encode_entries(s).len(),
        encode_entries(s).subrange(key_offset(s, i), key_offset(s, i) + 4) == le32(s[i].0.len()),
        encode_entries(s).subrange(value_offset(s, i), value_offset(s, i) + 4) == le32(
            s[i].1.len(),
        ),
{
    lemma_entry_offsets(s, i);
    lemma_entry_lengths(s, i);
}

/// In every table the length prefix of each key and of each value of the
/// sorted entries begins at a multiple of four and holds the length of what
/// follows it, and the keys never decrease from one entry to the next.
pub proof fn lemma_table_prefixes(es: Seq<Entry>, i: int)
    requires
        0 <= i < es.len(),
    ensures
        sort_entries(es).len() == es.len(),
        key_offset(sort_entries(es), i) % 4 == 0,
        value_offset(sort_entries(es), i) % 4 == 0,
        value_offset(sort_entries(es), i) + 4 <= field_table(es).len(),
        field_table(es).subrange(
            key_offset(sort_entries(es), i),
            key_offset(sort_entries(es), i) + 4,
        ) == le32(sort_entries(es)[i].0.len()),
        field_table(es).subrange(
            value_offset(sort_entries(es), i),
            value_offset(sort_entries(es), i) + 4,
        ) == le32(sort_entries(es)[i].1.len()),
        crate::order::sorted_by_key(sort_entries(es)),
{
    let s = sort_entries(es);
    crate::order::lemma_sort_is_permutation(es);
    crate::order::lemma_sort_is_sorted(es);
    lemma_entry_prefixes(s, i);
    let body = encode_entries(s);
    let k = key_offset(s, i);
    let v = value_offset(s, i);
    assert(body.is_prefix_of(field_table(es)));
    assert(field_table(es).subrange(k, k + 4) == body.subrange(k, k + 4));
    assert(field_table(es).subrange(v, v + 4) == body.subrange(v, v + 4));
}

/// Overrides that hold the same texts in the same order have the same
/// table.
pub proof fn lemma_table_deterministic(a: Seq<(String, String)>, b: Seq<(String, String)>)
    requires
        a.len() == b.len(),
        forall|i: int| 0 <= i < a.len() ==> a[i].0@ == b[i].0@ && a[i].1@ == b[i].1@,
    ensures
        field_table(pairs_of(a)) == field_table(pairs_of(b)),
{
    assert(pairs_of(a) == pairs_of(b));
}

/// Overrides with distinct keys have the same table in whatever order they
/// are given.
pub proof fn lemma_table_ignores_order(a: Seq<Entry>, b: Seq<Entry>)
    requires
        crate::order::distinct_keys(a),
        a.to_multiset() == b.to_multiset(),
    ensures
        field_table(a) == field_table(b),
{
    crate::order::lemma_sort_ignores_order(a, b);
}

/// Appends one text: its length in four bytes, its bytes, and zeros up to
/// the next word.
pub fn push_text(buf: &mut Vec<u8>, text: &Vec<u8>)
    ensures
        final(buf)@ == old(buf)@ + encode_text(text@),
{
    proof {
        reveal(encode_text);
    }
    push_le32(buf, text.len());
    let mut i: usize = 0;
    while i < text.len()
        invariant
            i <= text.len(),
            buf@ == old(buf)@ + le32(text@.len()) + text@.take(i as int),
        decreases text.len() - i,
    {
        buf.push(text[i]);
        i += 1;
        assert(buf@ == old(buf)@ + le32(text@.len()) + text@.take(i as int));
    }
    assert(text@.take(i as int) == text@);
    let rem = text.len() % WORD;
    if rem > 0 {
        push_zeros(buf, WORD - rem);
    } else {
        assert(buf@ + zeros(0) == buf@);
    }
    assert(buf@ == old(buf)@ + encode_text(text@));
}

/// The field table of the overrides, and how many overrides there are,
/// reduced modulo 2^32.
pub fn encode_field_table(overrides: &Vec<(String, String)>) -> (r: (Vec<u8>, u32))
    ensures
        r.0@ == field_table(pairs_of(overrides@)),
        r.1 == overrides@.len() % 0x1_0000_0000,
        r.0@.len() % 8 == 0,
        r.0@.len() == 0 <==> overrides@.len() == 0,
{
    let sorted = sorted_entries(overrides);
    let ghost es = entries_view(sorted@);
    let mut bytes: Vec<u8> = Vec::new();
    let mut i: usize = 0;
    while i < sorted.len()
        invariant
            i <= sorted.len(),
            es == entries_view(sorted@),
            bytes@ == encode_entries(es.take(i as int)),
        decreases sorted.len() - i,
    {
        proof {
            assert(es.take(i + 1).drop_last() == es.take(i as int));
            assert(es.take(i + 1).last() == es[i as int]);
        }
        push_text(&mut bytes, &sorted[i].0);
        push_text(&mut bytes, &sorted[i].1);
        i += 1;
    }
    proof {
        assert(es.take(i as int) == es);
        lemma_table_len(pairs_of(overrides@));
    }
    if bytes.len() % TABLE_ALIGN != 0 {
        push_zeros(&mut bytes, WORD);
    }
    let count = (overrides.len() as u64 % 0x1_0000_0000u64) as u32;
    (bytes, count)
}

} // verus!
