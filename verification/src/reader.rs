//! How a field table is read back, and that reading a table gives the
//! overrides it was made from.

use vstd::prelude::*;
use crate::layout::le32;
use crate::order::{lemma_entry_kept, lemma_sort_is_permutation, sort_entries, Entry};
use crate::table::{encode_entries, encode_text, field_table, pad_len};

verus! {

/// The number held by the four little-endian bytes from `at` on.
pub open spec fn word_at(bytes: Seq<u8>, at: int) -> int {
    bytes[at] + 256 * bytes[at + 1] + 65536 * bytes[at + 2] + 16777216 * bytes[at + 3]
}

/// The text whose length prefix stands at `at`, and the place of the
/// prefix behind it; nothing where the bytes end before the text does.
pub open spec fn text_at(bytes: Seq<u8>, at: int) -> Option<(Seq<u8>, int)> {
    if 0 <= at && at + 4 <= bytes.len() {
        let n = word_at(bytes, at);
        let next = at + 4 + n + pad_len(n as nat);
        if next <= bytes.len() {
            Some((bytes.subrange(at + 4, at + 4 + n), next))
        } else {
            None
        }
    } else {
        None
    }
}

/// The first `n` entries of a table, and the place behind them.
pub open spec fn read_entries(bytes: Seq<u8>, n: nat) -> Option<(Seq<Entry>, int)>
    decreases n,
{
    if n == 0 {
        Some((Seq::empty(), 0))
    } else {
        match read_entries(bytes, (n - 1) as nat) {
            Some((front, at)) => match text_at(bytes, at) {
                Some((key, mid)) => match text_at(bytes, mid) {
                    Some((value, next)) => Some((front.push((key, value)), next)),
                    None => None,
                },
                None => None,
            },
            None => None,
        }
    }
}

/// Every key and value is shorter than 2^32 bytes, so that a word holds
/// its length.
pub open spec fn lengths_fit(es: Seq<Entry>) -> bool {
    forall|i: int|
        0 <= i < es.len() ==> (#[trigger] es[i]).0.len() < 0x1_0000_0000 && es[i].1.len()
            < 0x1_0000_0000
}

/// A word read back is the number written, for numbers below 2^32.
pub proof fn lemma_word_round_trip(n: nat)
    requires
        n < 0x1_0000_0000,
    ensures
        word_at(le32(n), 0) == n,
{
    let x = n as u32;
    assert(x % 256 + 256 * (x / 256 % 256) + 65536 * (x / 65536 % 256) + 16777216 * (x / 16777216
        % 256) == x) by (bit_vector);
    assert(x / 16777216 < 256) by (bit_vector);
}

/// An encoded text is read back, wherever it stands.
pub proof fn lemma_text_round_trip(front: Seq<u8>, s: Seq<u8>, rest: Seq<u8>)
    requires
        s.len() < 0x1_0000_0000,
    ensures
        text_at(front + encode_text(s) + rest, front.len() as int) == Some(
            (s, (front.len() + encode_text(s).len()) as int),
        ),
{
    reveal(encode_text);
    let bytes = front + encode_text(s) + rest;
    let at = front.len() as int;
    lemma_word_round_trip(s.len());
    let word = le32(s.len());
    assert(bytes[at] == word[0] && bytes[at + 1] == word[1] && bytes[at + 2] == word[2] && bytes[at
        + 3] == word[3]);
    assert(word_at(bytes, at) == word_at(word, 0));
    assert(bytes.subrange(at + 4, at + 4 + s.len()) =~= s);
}

/// Encoded entries are read back, whatever follows them.
pub proof fn lemma_entries_round_trip(es: Seq<Entry>, rest: Seq<u8>)
    requires
        lengths_fit(es),
    ensures
        read_entries(encode_entries(es) + rest, es.len()) == Some(
            (es, encode_entries(es).len() as int),
        ),
    decreases es.len(),
{
    if es.len() == 0 {
        assert(es == Seq::<Entry>::empty());
    } else {
        let head = es.drop_last();
        let front = encode_entries(head);
        let key = encode_text(es.last().0);
        let value = encode_text(es.last().1);
        let bytes = encode_entries(es) + rest;
        assert(lengths_fit(head)) by {
            assert forall|i: int| 0 <= i < head.len() implies (#[trigger] head[i]).0.len()
                < 0x1_0000_0000 && head[i].1.len() < 0x1_0000_0000 by {
                assert(head[i] == es[i]);
            }
        }
        assert(bytes =~= front + (key + value + rest));
        lemma_entries_round_trip(head, key + value + rest);
        assert(bytes =~= front + key + (value + rest));
        lemma_text_round_trip(front, es.last().0, value + rest);
        assert(bytes =~= (front + key) + value + rest);
        lemma_text_round_trip(front + key, es.last().1, rest);
        assert(head.push((es.last().0, es.last().1)) =~= es);
    }
}

/// Reading a table gives the overrides it was made from, in ascending
/// order of their keys: the same entries, each as often as it was given.
pub proof fn lemma_table_round_trip(es: Seq<Entry>)
    requires
        lengths_fit(es),
    ensures
        read_entries(field_table(es), es.len()) matches Some((read, _)) && read == sort_entries(es)
            && read.to_multiset() == es.to_multiset(),
{
    let sorted = sort_entries(es);
    lemma_sort_is_permutation(es);
    assert(lengths_fit(sorted)) by {
        assert forall|i: int| 0 <= i < sorted.len() implies (#[trigger] sorted[i]).0.len()
            < 0x1_0000_0000 && sorted[i].1.len() < 0x1_0000_0000 by {
            lemma_entry_kept(es, sorted, sorted[i]);
            let j = choose|j: int| 0 <= j < es.len() && es[j] == sorted[i];
            assert(es[j].0.len() < 0x1_0000_0000);
        }
    }
    let body = encode_entries(sorted);
    if body.len() % 8 == 0 {
        assert(field_table(es) =~= body + Seq::<u8>::empty());
        lemma_entries_round_trip(sorted, Seq::empty());
    } else {
        lemma_entries_round_trip(sorted, crate::layout::zeros(4));
    }
}

} // verus!
