//! The in-memory entry list: a vector of key/value pairs with pairwise
//! distinct keys, its view as a map from keys to optional values, and the
//! scan/replace/remove operations the store is built from.
use vstd::prelude::*;
use vstd::utf8::*;

use crate::codec::ByteEntry;
use crate::codec::enc_entries;
use crate::codec::enc_entry;
use crate::codec::entries_storable;
use crate::codec::entry_storable;
use crate::codec::lemma_enc_entries_push;
use crate::codec::lemma_enc_entries_remove_len;
use crate::codec::lemma_enc_entries_take_len;
use crate::codec::lemma_enc_entries_update_len;

verus! {

/// One entry at the character level: the key and the optional value.
pub type CharEntry = (Seq<char>, Option<Seq<char>>);

/// The characters of an optional value.
pub open spec fn opt_chars(v: Option<String>) -> Option<Seq<char>> {
    match v {
        Some(s) => Some(s@),
        None => None,
    }
}

/// The key stream a secret yields for the obfuscation: the secret's UTF-8
/// bytes, or the empty sequence when no secret is set.
pub open spec fn key_stream_of(secret: Option<Seq<char>>) -> Seq<u8> {
    match secret {
        Some(s) => encode_utf8(s),
        None => Seq::<u8>::empty(),
    }
}

/// The UTF-8 bytes of an optional value.
pub open spec fn opt_bytes(v: Option<String>) -> Option<Seq<u8>> {
    match v {
        Some(s) => Some(encode_utf8(s@)),
        None => None,
    }
}

/// The entry list at the character level.
pub open spec fn char_entries(s: Seq<(String, Option<String>)>) -> Seq<CharEntry> {
    s.map(|i: int, e: (String, Option<String>)| (e.0@, opt_chars(e.1)))
}

/// The entry list at the byte level, each key and value UTF-8 encoded.
pub open spec fn byte_entries_of(s: Seq<(String, Option<String>)>) -> Seq<ByteEntry> {
    s.map(|i: int, e: (String, Option<String>)| (encode_utf8(e.0@), opt_bytes(e.1)))
}

/// The bytes of one entry of the list.
pub open spec fn byte_entry_of(key: String, value: Option<String>) -> ByteEntry {
    (encode_utf8(key@), opt_bytes(value))
}

/// Decoding an entry's key and value bytes back to characters.
pub open spec fn decode_entries(es: Seq<ByteEntry>) -> Seq<CharEntry> {
    es.map(
        |i: int, e: ByteEntry|
            (
                decode_utf8(e.0),
                match e.1 {
                    Some(vb) => Some(decode_utf8(vb)),
                    None => None,
                },
            ),
    )
}

/// Decoding the byte-level view of an entry list gives its character-level
/// view back: UTF-8 decoding undoes UTF-8 encoding.
pub proof fn lemma_decode_byte_entries(s: Seq<(String, Option<String>)>)
    ensures
        decode_entries(byte_entries_of(s)) == char_entries(s),
{
    broadcast use encode_utf8_decode_utf8;

    assert(decode_entries(byte_entries_of(s)) =~= char_entries(s));
}

/// No two entries of the list share a key.
pub open spec fn keys_distinct(es: Seq<CharEntry>) -> bool {
    forall|i: int, j: int| 0 <= i < j < es.len() ==> es[i].0 != es[j].0
}

/// The entry list folded into a map; a later binding of a key wins over an
/// earlier one.
pub open spec fn map_of(es: Seq<CharEntry>) -> Map<Seq<char>, Option<Seq<char>>>
    decreases es.len(),
{
    if es.len() == 0 {
        Map::<Seq<char>, Option<Seq<char>>>::empty()
    } else {
        map_of(es.drop_last()).insert(es.last().0, es.last().1)
    }
}

/// Distinctness of keys carries over to the list without its last entry.
pub proof fn lemma_keys_distinct_drop_last(es: Seq<CharEntry>)
    requires
        keys_distinct(es),
        es.len() > 0,
    ensures
        keys_distinct(es.drop_last()),
{
    assert forall|x: int, y: int|
        0 <= x < y < es.drop_last().len() implies es.drop_last()[x].0 != es.drop_last()[y].0 by {
        assert(es.drop_last()[x] == es[x]);
        assert(es.drop_last()[y] == es[y]);
    }
}

/// A key is bound in the map exactly when some entry of the list carries it.
pub proof fn lemma_map_of_contains(es: Seq<CharEntry>, k: Seq<char>)
    ensures
        map_of(es).contains_key(k) <==> exists|i: int| 0 <= i < es.len() && es[i].0 == k,
    decreases es.len(),
{
    if es.len() > 0 {
        lemma_map_of_contains(es.drop_last(), k);
        if es.last().0 == k {
            assert(es[es.len() - 1].0 == k);
        } else if map_of(es).contains_key(k) {
            let i = choose|i: int| 0 <= i < es.drop_last().len() && es.drop_last()[i].0 == k;
            assert(es[i].0 == k);
        } else if exists|i: int| 0 <= i < es.len() && es[i].0 == k {
            let i = choose|i: int| 0 <= i < es.len() && es[i].0 == k;
            assert(es.drop_last()[i].0 == k);
        }
    }
}

/// With distinct keys, the map binds each entry's key to that entry's value.
pub proof fn lemma_map_of_index(es: Seq<CharEntry>, i: int)
    requires
        keys_distinct(es),
        0 <= i < es.len(),
    ensures
        map_of(es).contains_key(es[i].0),
        map_of(es)[es[i].0] == es[i].1,
    decreases es.len(),
{
    if i == es.len() - 1 {
    } else {
        lemma_keys_distinct_drop_last(es);
        lemma_map_of_index(es.drop_last(), i);
        assert(es.drop_last()[i] == es[i]);
        assert(es[i].0 != es.last().0);
    }
}

/// Appending an entry inserts its binding.
pub proof fn lemma_map_of_push(es: Seq<CharEntry>, e: CharEntry)
    ensures
        map_of(es.push(e)) == map_of(es).insert(e.0, e.1),
{
    assert(es.push(e).drop_last() =~= es);
    assert(es.push(e).last() == e);
}

/// With distinct keys, rebinding the entry at `i` inserts the new value
/// under its key.
pub proof fn lemma_map_of_update(es: Seq<CharEntry>, i: int, e: CharEntry)
    requires
        keys_distinct(es),
        0 <= i < es.len(),
        es[i].0 == e.0,
    ensures
        map_of(es.update(i, e)) == map_of(es).insert(e.0, e.1),
    decreases es.len(),
{
    let u = es.update(i, e);
    if i == es.len() - 1 {
        assert(u.drop_last() =~= es.drop_last());
        assert(u.last() == e);
        assert(map_of(es.drop_last()).insert(es.last().0, es.last().1).insert(e.0, e.1) =~= map_of(
            es.drop_last(),
        ).insert(e.0, e.1));
    } else {
        lemma_keys_distinct_drop_last(es);
        assert(es.drop_last()[i] == es[i]);
        lemma_map_of_update(es.drop_last(), i, e);
        assert(u.drop_last() =~= es.drop_last().update(i, e));
        assert(u.last() == es.last());
        assert(e.0 != es.last().0);
        assert(map_of(es.drop_last()).insert(e.0, e.1).insert(es.last().0, es.last().1)
            =~= map_of(es.drop_last()).insert(es.last().0, es.last().1).insert(e.0, e.1));
    }
}

/// With distinct keys, dropping the entry at `i` removes its key's binding.
pub proof fn lemma_map_of_remove(es: Seq<CharEntry>, i: int)
    requires
        keys_distinct(es),
        0 <= i < es.len(),
    ensures
        map_of(es.remove(i)) == map_of(es).remove(es[i].0),
    decreases es.len(),
{
    if i == es.len() - 1 {
        assert(es.remove(i) =~= es.drop_last());
        lemma_map_of_contains(es.drop_last(), es[i].0);
        assert forall|j: int| 0 <= j < es.drop_last().len() implies es.drop_last()[j]
            == #[trigger] es[j] by {}
        assert(!map_of(es.drop_last()).contains_key(es[i].0));
        assert(map_of(es.drop_last()).insert(es.last().0, es.last().1).remove(es.last().0)
            =~= map_of(es.drop_last()));
    } else {
        lemma_keys_distinct_drop_last(es);
        assert(es.drop_last()[i] == es[i]);
        lemma_map_of_remove(es.drop_last(), i);
        assert(es.remove(i).drop_last() =~= es.drop_last().remove(i));
        assert(es.remove(i).last() == es.last());
        assert(es[i].0 != es.last().0);
        assert(map_of(es.drop_last()).remove(es[i].0).insert(es.last().0, es.last().1) =~= map_of(
            es.drop_last(),
        ).insert(es.last().0, es.last().1).remove(es[i].0));
    }
}

/// With distinct keys the map binds exactly as many keys as the list holds.
pub proof fn lemma_map_of_dom_len(es: Seq<CharEntry>)
    requires
        keys_distinct(es),
    ensures
        map_of(es).dom().finite(),
        map_of(es).dom().len() == es.len(),
    decreases es.len(),
{
    if es.len() > 0 {
        lemma_keys_distinct_drop_last(es);
        lemma_map_of_dom_len(es.drop_last());
        lemma_map_of_contains(es.drop_last(), es.last().0);
        assert forall|j: int| 0 <= j < es.drop_last().len() implies es.drop_last()[j]
            == #[trigger] es[j] by {}
        assert(!map_of(es.drop_last()).contains_key(es.last().0));
    }
}

/// Concatenating entry lists overlays the right list's bindings over the
/// left list's.
pub proof fn lemma_map_of_concat(a: Seq<CharEntry>, b: Seq<CharEntry>)
    ensures
        map_of(a + b) == map_of(a).union_prefer_right(map_of(b)),
    decreases b.len(),
{
    if b.len() == 0 {
        assert(a + b =~= a);
        assert(map_of(a).union_prefer_right(map_of(b)) =~= map_of(a));
    } else {
        assert((a + b).drop_last() =~= a + b.drop_last());
        assert((a + b).last() == b.last());
        lemma_map_of_concat(a, b.drop_last());
        assert(map_of(a).union_prefer_right(map_of(b.drop_last())).insert(b.last().0, b.last().1)
            =~= map_of(a).union_prefer_right(map_of(b.drop_last()).insert(b.last().0, b.last().1)));
    }
}

/// Scan the list for `key`; under distinct keys the first match is the only
/// one.
pub(crate) fn find_key(entries: &Vec<(String, Option<String>)>, key: &str) -> (r: Option<usize>)
    ensures
        (match r {
            Some(i) => i < entries@.len() && entries@[i as int].0@ == key@,
            None => forall|j: int| 0 <= j < entries@.len() ==> entries@[j].0@ != key@,
        }),
{
    let k: String = key.to_owned();
    let n: usize = entries.len();
    let mut i: usize = 0;
    while i < n
        invariant
            i <= n,
            n == entries@.len(),
            k@ == key@,
            forall|j: int| 0 <= j < i ==> entries@[j].0@ != key@,
        decreases n - i,
    {
        if entries[i].0 == k {
            return Some(i);
        }
        i = i + 1;
    }
    None
}

/// Bind `key` to `value` in the list: rebind the entry that carries the key,
/// or append a new entry. Returns the prior value, `None` when the key was
/// absent.
pub(crate) fn upsert(
    entries: &mut Vec<(String, Option<String>)>,
    key: String,
    value: Option<String>,
) -> (prev: Option<Option<String>>)
    requires
        keys_distinct(char_entries(old(entries)@)),
    ensures
        keys_distinct(char_entries(final(entries)@)),
        map_of(char_entries(final(entries)@)) == map_of(char_entries(old(entries)@)).insert(
            key@,
            opt_chars(value),
        ),
        (prev is Some) == map_of(char_entries(old(entries)@)).contains_key(key@),
        (match prev {
            Some(p) => opt_chars(p) == map_of(char_entries(old(entries)@))[key@],
            None => true,
        }),
        entries_storable(byte_entries_of(old(entries)@)) && entry_storable(
            byte_entry_of(key, value),
        ) ==> entries_storable(byte_entries_of(final(entries)@)),
        enc_entries(byte_entries_of(final(entries)@)).len() <= enc_entries(
            byte_entries_of(old(entries)@),
        ).len() + enc_entry(byte_entry_of(key, value)).len(),
{
    let ghost s0 = entries@;
    let ghost ce0 = char_entries(s0);
    let ghost e_char = (key@, opt_chars(value));
    let ghost e_byte = byte_entry_of(key, value);
    let found = find_key(entries, key.as_str());
    match found {
        Some(i) => {
            let old_pair = entries.remove(i);
            entries.insert(i, (key, value));
            proof {
                assert(entries@ =~= s0.update(i as int, (key, value)));
                assert(char_entries(entries@) =~= ce0.update(i as int, e_char));
                assert(byte_entries_of(entries@) =~= byte_entries_of(s0).update(
                    i as int,
                    e_byte,
                ));
                lemma_map_of_update(ce0, i as int, e_char);
                lemma_map_of_contains(ce0, key@);
                lemma_map_of_index(ce0, i as int);
                lemma_enc_entries_update_len(byte_entries_of(s0), i as int, e_byte);
                assert(keys_distinct(char_entries(entries@))) by {
                    assert(forall|j: int|
                        0 <= j < ce0.len() ==> #[trigger] ce0.update(i as int, e_char)[j].0
                            == ce0[j].0);
                }
            }
            Some(old_pair.1)
        },
        None => {
            entries.push((key, value));
            proof {
                assert(char_entries(entries@) =~= ce0.push(e_char));
                assert(byte_entries_of(entries@) =~= byte_entries_of(s0).push(e_byte));
                lemma_map_of_push(ce0, e_char);
                lemma_map_of_contains(ce0, key@);
                lemma_enc_entries_push(byte_entries_of(s0), e_byte);
                assert(keys_distinct(char_entries(entries@))) by {
                    assert(forall|x: int|
                        0 <= x < ce0.len() ==> #[trigger] ce0.push(e_char)[x] == ce0[x]);
                    assert(ce0.push(e_char)[ce0.len() as int] == e_char);
                }
            }
            None
        },
    }
}

/// Drop the entry that carries `key`, if any, and hand its value back.
pub(crate) fn remove_key(entries: &mut Vec<(String, Option<String>)>, key: &str) -> (prev: Option<
    Option<String>,
>)
    requires
        keys_distinct(char_entries(old(entries)@)),
    ensures
        keys_distinct(char_entries(final(entries)@)),
        map_of(char_entries(final(entries)@)) == map_of(char_entries(old(entries)@)).remove(key@),
        (prev is Some) == map_of(char_entries(old(entries)@)).contains_key(key@),
        (match prev {
            Some(p) => opt_chars(p) == map_of(char_entries(old(entries)@))[key@],
            None => true,
        }),
        entries_storable(byte_entries_of(old(entries)@)) ==> entries_storable(
            byte_entries_of(final(entries)@),
        ),
        enc_entries(byte_entries_of(final(entries)@)).len() <= enc_entries(
            byte_entries_of(old(entries)@),
        ).len(),
{
    let ghost s0 = entries@;
    let ghost ce0 = char_entries(s0);
    let found = find_key(entries, key);
    match found {
        Some(i) => {
            let old_pair = entries.remove(i);
            proof {
                assert(char_entries(entries@) =~= ce0.remove(i as int));
                assert(byte_entries_of(entries@) =~= byte_entries_of(s0).remove(i as int));
                lemma_map_of_remove(ce0, i as int);
                lemma_map_of_contains(ce0, key@);
                lemma_map_of_index(ce0, i as int);
                lemma_enc_entries_remove_len(byte_entries_of(s0), i as int);
                assert(keys_distinct(char_entries(entries@))) by {
                    assert(forall|x: int|
                        0 <= x < ce0.remove(i as int).len() ==> (#[trigger] ce0.remove(
                            i as int,
                        )[x]) == (if x < i { ce0[x] } else { ce0[x + 1] }));
                }
            }
            Some(old_pair.1)
        },
        None => {
            proof {
                lemma_map_of_contains(ce0, key@);
                assert(map_of(ce0).remove(key@) =~= map_of(ce0));
            }
            None
        },
    }
}

/// The total encoded length of the entries, summed entry by entry.
pub(crate) fn encoded_len(entries: &Vec<(String, Option<String>)>) -> (n: usize)
    requires
        entries_storable(byte_entries_of(entries@)),
        enc_entries(byte_entries_of(entries@)).len() <= crate::MCONFIG_SIZE,
    ensures
        n == enc_entries(byte_entries_of(entries@)).len(),
{
    let ghost bs = byte_entries_of(entries@);
    let m: usize = entries.len();
    let mut i: usize = 0;
    let mut total: usize = 0;
    while i < m
        invariant
            i <= m,
            m == entries@.len(),
            entries_storable(bs),
            bs == byte_entries_of(entries@),
            bs.len() == m,
            enc_entries(bs).len() <= crate::MCONFIG_SIZE,
            total == enc_entries(bs.take(i as int)).len(),
        decreases m - i,
    {
        proof {
            assert(bs.take(i + 1) =~= bs.take(i as int).push(bs[i as int]));
            lemma_enc_entries_push(bs.take(i as int), bs[i as int]);
            lemma_enc_entries_take_len(bs, i + 1);
        }
        let e = &entries[i];
        let step: usize = match &e.1 {
            Some(v) => e.0.as_str().len() + 2 + v.as_str().len(),
            None => e.0.as_str().len() + 2,
        };
        total = total + step;
        i = i + 1;
    }
    proof {
        assert(bs.take(m as int) =~= bs);
    }
    total
}

} // verus!
