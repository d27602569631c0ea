//! The binary codec: XOR obfuscation of a byte region against a repeating
//! secret, and the spec-level model of the length-prefixed entry encoding
//! together with its validating parser.
use vstd::prelude::*;
use vstd::utf8::*;

use crate::mconfig::MCError;

verus! {

/// One entry at the byte level: UTF-8 key bytes paired with optional UTF-8
/// value bytes.
pub type ByteEntry = (Seq<u8>, Option<Seq<u8>>);

/// `data` XORed byte-for-byte against `ks` repeated cyclically.
///
/// An empty key stream (no secret, or an empty secret) leaves the data
/// unchanged.
pub open spec fn mask(data: Seq<u8>, ks: Seq<u8>) -> Seq<u8> {
    if ks.len() == 0 {
        data
    } else {
        Seq::new(data.len(), |i: int| data[i] ^ ks[i % (ks.len() as int)])
    }
}

/// Applying [`mask`] twice with the same key stream restores the data:
/// XOR against a fixed byte is an involution.
pub proof fn lemma_mask_involution(data: Seq<u8>, ks: Seq<u8>)
    ensures
        mask(mask(data, ks), ks) == data,
{
    if ks.len() > 0 {
        let once = mask(data, ks);
        let twice = mask(once, ks);
        assert forall|i: int| 0 <= i < data.len() implies twice[i] == data[i] by {
            let d: u8 = data[i];
            let k: u8 = ks[i % (ks.len() as int)];
            assert((d ^ k) ^ k == d) by (bit_vector);
        }
        assert(twice =~= data);
    }
}

/// XOR `buf` in place against `secret` repeated cyclically.
///
/// With an empty secret the buffer comes back unchanged, matching [`mask`].
pub fn xor_buffer(buf: Vec<u8>, secret: &Vec<u8>) -> (r: Vec<u8>)
    ensures
        r@ == mask(buf@, secret@),
{
    let mut buf = buf;
    let ghost orig: Seq<u8> = buf@;
    if secret.len() == 0 {
        return buf;
    }
    let n: usize = buf.len();
    let mut i: usize = 0;
    while i < n
        invariant
            n == orig.len(),
            i <= n,
            secret.len() > 0,
            buf@.len() == n,
            forall|j: int| 0 <= j < i ==> buf@[j] == mask(orig, secret@)[j],
            forall|j: int| i <= j < n ==> buf@[j] == orig[j],
        decreases n - i,
    {
        let b = buf[i] ^ secret[i % secret.len()];
        buf.set(i, b);
        i = i + 1;
    }
    proof {
        assert(buf@ =~= mask(orig, secret@));
    }
    buf
}

/// The byte the repeating key stream contributes at offset `i` of the region.
///
/// An empty key stream contributes zero everywhere, so masking with it is the
/// identity, matching [`mask`].
pub open spec fn ks_byte(ks: Seq<u8>, i: int) -> u8 {
    if ks.len() == 0 {
        0u8
    } else {
        ks[i % (ks.len() as int)]
    }
}

/// Pointwise reading of [`mask`]: byte `i` of the masked region is byte `i`
/// of the data XORed with the key stream at offset `i`.
pub proof fn lemma_mask_index(data: Seq<u8>, ks: Seq<u8>, i: int)
    requires
        0 <= i < data.len(),
    ensures
        mask(data, ks).len() == data.len(),
        mask(data, ks)[i] == data[i] ^ ks_byte(ks, i),
{
    if ks.len() == 0 {
        let d: u8 = data[i];
        assert(d ^ 0u8 == d) by (bit_vector);
    }
}

/// The encoding of one entry: the key length in one byte, the key bytes, then
/// either the value length in one byte followed by the value bytes, or the
/// single byte zero for an absent value.
pub open spec fn enc_entry(e: ByteEntry) -> Seq<u8> {
    match e.1 {
        Some(vb) => seq![e.0.len() as u8] + e.0 + seq![vb.len() as u8] + vb,
        None => seq![e.0.len() as u8] + e.0 + seq![0u8],
    }
}

/// The entries one after the other, in the order given.
pub open spec fn enc_entries(es: Seq<ByteEntry>) -> Seq<u8>
    decreases es.len(),
{
    if es.len() == 0 {
        Seq::<u8>::empty()
    } else {
        enc_entry(es[0]) + enc_entries(es.drop_first())
    }
}

/// An entry the store can hold: key and value each at most 255 bytes of
/// valid UTF-8.
pub open spec fn entry_storable(e: ByteEntry) -> bool {
    &&& e.0.len() <= 255
    &&& valid_utf8(e.0)
    &&& match e.1 {
        Some(vb) => vb.len() <= 255 && valid_utf8(vb),
        None => true,
    }
}

/// An entry whose encoding parses back to itself: storable, with a nonempty
/// key (a zero key length is the sentinel) and no present-but-empty value
/// (which the format cannot tell from an absent one).
pub open spec fn entry_canonical(e: ByteEntry) -> bool {
    &&& entry_storable(e)
    &&& e.0.len() >= 1
    &&& match e.1 {
        Some(vb) => vb.len() >= 1,
        None => true,
    }
}

/// Every entry of the sequence is canonical.
pub open spec fn entries_canonical(es: Seq<ByteEntry>) -> bool {
    forall|i: int| 0 <= i < es.len() ==> entry_canonical(#[trigger] es[i])
}

/// Every entry of the sequence is storable.
pub open spec fn entries_storable(es: Seq<ByteEntry>) -> bool {
    forall|i: int| 0 <= i < es.len() ==> entry_storable(#[trigger] es[i])
}

/// The validating parser over a de-obfuscated region, as a specification.
///
/// It walks the region entry by entry and stops at a zero key-length byte or
/// at the end of the region; everything after the sentinel is padding and is
/// not read. Entries are returned in the order encountered, duplicates and
/// all.
pub open spec fn spec_parse(b: Seq<u8>) -> Result<Seq<ByteEntry>, MCError>
    decreases b.len(),
{
    if b.len() == 0 || b[0] == 0 {
        Ok(Seq::<ByteEntry>::empty())
    } else {
        let kl = b[0] as int;
        if b.len() < 1 + kl {
            Err(MCError::TruncatedKey)
        } else {
            let kb = b.subrange(1, 1 + kl);
            if !valid_utf8(kb) {
                Err(MCError::InvalidUTF8)
            } else if b.len() == 1 + kl {
                Err(MCError::MissingKey)
            } else {
                let vl = b[1 + kl] as int;
                if vl == 0 {
                    match spec_parse(b.skip(2 + kl)) {
                        Ok(rest) => Ok(seq![(kb, None::<Seq<u8>>)] + rest),
                        Err(e) => Err(e),
                    }
                } else if b.len() < 2 + kl + vl {
                    Err(MCError::TruncatedValue)
                } else {
                    let vb = b.subrange(2 + kl, 2 + kl + vl);
                    if !valid_utf8(vb) {
                        Err(MCError::InvalidUTF8)
                    } else {
                        match spec_parse(b.skip(2 + kl + vl)) {
                            Ok(rest) => Ok(seq![(kb, Some(vb))] + rest),
                            Err(e) => Err(e),
                        }
                    }
                }
            }
        }
    }
}

/// Concatenation of entry sequences encodes to the concatenation of their
/// encodings.
pub proof fn lemma_enc_entries_concat(a: Seq<ByteEntry>, b: Seq<ByteEntry>)
    ensures
        enc_entries(a + b) == enc_entries(a) + enc_entries(b),
    decreases a.len(),
{
    if a.len() == 0 {
        assert(a + b =~= b);
        assert(enc_entries(a) + enc_entries(b) =~= enc_entries(b));
    } else {
        assert((a + b).drop_first() =~= a.drop_first() + b);
        lemma_enc_entries_concat(a.drop_first(), b);
        assert((a + b)[0] == a[0]);
        assert(enc_entry(a[0]) + (enc_entries(a.drop_first()) + enc_entries(b)) =~= (enc_entry(
            a[0],
        ) + enc_entries(a.drop_first())) + enc_entries(b));
    }
}

/// A single entry encodes to exactly its own encoding.
pub proof fn lemma_enc_entries_singleton(e: ByteEntry)
    ensures
        enc_entries(seq![e]) == enc_entry(e),
{
    let s = seq![e];
    assert(s.drop_first() =~= Seq::<ByteEntry>::empty());
    assert(enc_entries(Seq::<ByteEntry>::empty()) == Seq::<u8>::empty());
    assert(enc_entries(s) == enc_entry(e) + Seq::<u8>::empty());
    assert(enc_entry(e) + Seq::<u8>::empty() =~= enc_entry(e));
}

/// Appending one entry appends its encoding.
pub proof fn lemma_enc_entries_push(es: Seq<ByteEntry>, e: ByteEntry)
    ensures
        enc_entries(es.push(e)) == enc_entries(es) + enc_entry(e),
{
    assert(es.push(e) =~= es + seq![e]);
    lemma_enc_entries_concat(es, seq![e]);
    lemma_enc_entries_singleton(e);
}

/// Replacing the entry at `i` changes the encoded length by the difference
/// of the two entry encodings.
pub proof fn lemma_enc_entries_update_len(es: Seq<ByteEntry>, i: int, e: ByteEntry)
    requires
        0 <= i < es.len(),
    ensures
        enc_entries(es.update(i, e)).len() + enc_entry(es[i]).len() == enc_entries(es).len()
            + enc_entry(e).len(),
{
    let pre = es.take(i);
    let post = es.skip(i + 1);
    assert(es =~= pre + seq![es[i]] + post);
    assert(es.update(i, e) =~= pre + seq![e] + post);
    lemma_enc_entries_concat(pre + seq![es[i]], post);
    lemma_enc_entries_concat(pre, seq![es[i]]);
    lemma_enc_entries_concat(pre + seq![e], post);
    lemma_enc_entries_concat(pre, seq![e]);
    lemma_enc_entries_singleton(es[i]);
    lemma_enc_entries_singleton(e);
}

/// Removing the entry at `i` removes exactly its encoding's length.
pub proof fn lemma_enc_entries_remove_len(es: Seq<ByteEntry>, i: int)
    requires
        0 <= i < es.len(),
    ensures
        enc_entries(es.remove(i)).len() + enc_entry(es[i]).len() == enc_entries(es).len(),
{
    let pre = es.take(i);
    let post = es.skip(i + 1);
    assert(es =~= pre + seq![es[i]] + post);
    assert(es.remove(i) =~= pre + post);
    lemma_enc_entries_concat(pre + seq![es[i]], post);
    lemma_enc_entries_concat(pre, seq![es[i]]);
    lemma_enc_entries_concat(pre, post);
    lemma_enc_entries_singleton(es[i]);
}

/// A prefix of the entries encodes to at most the whole encoding's length.
pub proof fn lemma_enc_entries_take_len(es: Seq<ByteEntry>, i: int)
    requires
        0 <= i <= es.len(),
    ensures
        enc_entries(es.take(i)).len() <= enc_entries(es).len(),
{
    assert(es =~= es.take(i) + es.skip(i));
    lemma_enc_entries_concat(es.take(i), es.skip(i));
}

/// Parsing a region that begins with one canonical encoded entry peels off
/// exactly that entry and goes on with the rest of the region.
pub proof fn lemma_parse_step(e: ByteEntry, suffix: Seq<u8>)
    requires
        entry_canonical(e),
    ensures
        spec_parse(enc_entry(e) + suffix) == (match spec_parse(suffix) {
            Ok(rest) => Ok::<Seq<ByteEntry>, MCError>(seq![e] + rest),
            Err(err) => Err::<Seq<ByteEntry>, MCError>(err),
        }),
{
    let b = enc_entry(e) + suffix;
    let k = e.0;
    let kl = k.len() as int;
    assert(b[0] == k.len() as u8);
    assert(b[0] as int == kl);
    assert(b.subrange(1, 1 + kl) =~= k);
    match e.1 {
        None => {
            assert(b.len() == 2 + kl + suffix.len());
            assert(b[1 + kl] == 0u8);
            assert(b.skip(2 + kl) =~= suffix);
            match spec_parse(suffix) {
                Ok(rest) => {
                    assert(seq![(b.subrange(1, 1 + kl), None::<Seq<u8>>)] + rest =~= seq![e]
                        + rest);
                }
                Err(_) => {}
            }
        }
        Some(vb) => {
            let vl = vb.len() as int;
            assert(b.len() == 2 + kl + vl + suffix.len());
            assert(b[1 + kl] == vb.len() as u8);
            assert(b[1 + kl] as int == vl);
            assert(b.subrange(2 + kl, 2 + kl + vl) =~= vb);
            assert(b.skip(2 + kl + vl) =~= suffix);
            match spec_parse(suffix) {
                Ok(rest) => {
                    assert(seq![(b.subrange(1, 1 + kl), Some(b.subrange(2 + kl, 2 + kl + vl)))]
                        + rest =~= seq![e] + rest);
                }
                Err(_) => {}
            }
        }
    }
}

/// Parsing the encoding of canonical entries, followed by the sentinel and
/// any padding at all, gives back exactly those entries.
pub proof fn lemma_parse_of_encoding(es: Seq<ByteEntry>, tail: Seq<u8>)
    requires
        entries_canonical(es),
    ensures
        spec_parse(enc_entries(es) + seq![0u8] + tail) == Ok::<Seq<ByteEntry>, MCError>(es),
    decreases es.len(),
{
    if es.len() == 0 {
        assert(enc_entries(es) + seq![0u8] + tail =~= seq![0u8] + tail);
        assert((seq![0u8] + tail)[0] == 0u8);
        assert(es =~= Seq::<ByteEntry>::empty());
    } else {
        let rest = es.drop_first();
        assert(entries_canonical(rest)) by {
            assert(forall|i: int|
                0 <= i < rest.len() ==> rest[i] == #[trigger] es[i + 1] && entry_canonical(
                    es[i + 1],
                ));
        }
        lemma_parse_of_encoding(rest, tail);
        let suffix = enc_entries(rest) + seq![0u8] + tail;
        lemma_parse_step(es[0], suffix);
        assert(enc_entries(es) + seq![0u8] + tail =~= enc_entry(es[0]) + suffix);
        assert(seq![es[0]] + rest =~= es);
    }
}

/// Whatever the parser accepts is canonical, and its encoding is exactly the
/// prefix of the region that the parser consumed.
#[verifier::rlimit(50)]
pub proof fn lemma_parse_prefix(b: Seq<u8>)
    ensures
        (match spec_parse(b) {
            Ok(res) => {
                &&& entries_canonical(res)
                &&& enc_entries(res).len() <= b.len()
                &&& b.take(enc_entries(res).len() as int) == enc_entries(res)
            },
            Err(_) => true,
        }),
    decreases b.len(),
{
    if b.len() == 0 || b[0] == 0 {
        assert(b.take(0) =~= Seq::<u8>::empty());
        assert(enc_entries(Seq::<ByteEntry>::empty()) == Seq::<u8>::empty());
    } else {
        let kl = b[0] as int;
        if b.len() < 1 + kl {
        } else {
            let kb = b.subrange(1, 1 + kl);
            if !valid_utf8(kb) {
            } else if b.len() == 1 + kl {
            } else {
                let vl = b[1 + kl] as int;
                if vl == 0 {
                    let s = b.skip(2 + kl);
                    lemma_parse_prefix(s);
                    match spec_parse(s) {
                        Ok(rest) => {
                            let e0 = (kb, None::<Seq<u8>>);
                            let res = seq![e0] + rest;
                            assert(res.drop_first() =~= rest);
                            assert(entry_canonical(e0));
                            assert(entries_canonical(res)) by {
                                assert(forall|i: int|
                                    1 <= i < res.len() ==> #[trigger] res[i] == rest[i - 1]
                                        && entry_canonical(rest[i - 1]));
                            }
                            assert(enc_entry(e0) =~= b.take(2 + kl));
                            let lr = enc_entries(rest).len() as int;
                            assert(b.take(2 + kl + lr) =~= enc_entry(e0) + s.take(lr));
                            assert(b.take(enc_entries(res).len() as int) == enc_entries(res));
                        },
                        Err(_) => {},
                    }
                } else if b.len() < 2 + kl + vl {
                } else {
                    let vb = b.subrange(2 + kl, 2 + kl + vl);
                    if !valid_utf8(vb) {
                    } else {
                        let s = b.skip(2 + kl + vl);
                        lemma_parse_prefix(s);
                        match spec_parse(s) {
                            Ok(rest) => {
                                let e0 = (kb, Some(vb));
                                let res = seq![e0] + rest;
                                assert(res.drop_first() =~= rest);
                                assert(entry_canonical(e0));
                                assert(entries_canonical(res)) by {
                                    assert(forall|i: int|
                                        1 <= i < res.len() ==> #[trigger] res[i] == rest[i - 1]
                                            && entry_canonical(rest[i - 1]));
                                }
                                assert(enc_entry(e0) =~= b.take(2 + kl + vl));
                                let lr = enc_entries(rest).len() as int;
                                assert(b.take(2 + kl + vl + lr) =~= enc_entry(e0) + s.take(lr));
                                assert(b.take(enc_entries(res).len() as int) == enc_entries(res));
                            },
                            Err(_) => {},
                        }
                    }
                }
            }
        }
    }
}

/// Serializing entries with a secret and parsing the result with the same
/// secret restores the entries, whatever random padding filled the rest of
/// the region: masking is self-inverse and the parser stops at the sentinel.
pub proof fn lemma_round_trip(es: Seq<ByteEntry>, tail: Seq<u8>, ks: Seq<u8>)
    requires
        entries_canonical(es),
    ensures
        spec_parse(mask(mask(enc_entries(es) + seq![0u8] + tail, ks), ks)) == Ok::<
            Seq<ByteEntry>,
            MCError,
        >(es),
{
    lemma_mask_involution(enc_entries(es) + seq![0u8] + tail, ks);
    lemma_parse_of_encoding(es, tail);
}

/// Serializing with one secret and parsing with another is never silent:
/// wherever the two key streams disagree within the encoded entries, the
/// parse either fails or yields entries other than the original ones.
///
/// Two distinct secrets whose repetitions coincide over the region (one
/// secret a repetition of the other), or that disagree only over the random
/// padding, garble nothing; no stronger statement holds of them.
pub proof fn lemma_wrong_secret_divergence(
    es: Seq<ByteEntry>,
    tail: Seq<u8>,
    ks_a: Seq<u8>,
    ks_b: Seq<u8>,
    p: int,
)
    requires
        entries_canonical(es),
        0 <= p < enc_entries(es).len(),
        ks_byte(ks_a, p) != ks_byte(ks_b, p),
    ensures
        (match spec_parse(mask(mask(enc_entries(es) + seq![0u8] + tail, ks_a), ks_b)) {
            Ok(res) => res != es,
            Err(_) => true,
        }),
{
    let region = enc_entries(es) + seq![0u8] + tail;
    let once = mask(region, ks_a);
    let garbled = mask(once, ks_b);
    lemma_mask_index(region, ks_a, p);
    lemma_mask_index(once, ks_b, p);
    let a = ks_byte(ks_a, p);
    let bb = ks_byte(ks_b, p);
    let x: u8 = region[p];
    assert((x ^ a) ^ bb != x) by (bit_vector)
        requires
            a != bb,
    ;
    match spec_parse(garbled) {
        Ok(res) => {
            if res == es {
                lemma_parse_prefix(garbled);
                let l = enc_entries(es).len() as int;
                assert(garbled.take(l)[p] == garbled[p]);
                assert(region[p] == enc_entries(es)[p]);
                assert(false);
            }
        },
        Err(_) => {},
    }
}

} // verus!
