//! The key/value store: [`MConfig`] and its mutation contract, together with
//! the error taxonomy shared by the store, the codec and the builder.
use vstd::prelude::*;
use vstd::utf8::*;

use crate::HEADER_SIZE;
use crate::MAX_KEY_LEN;
use crate::MAX_VALUE_LEN;
use crate::MCONFIG_SIZE;
use crate::codec::ByteEntry;
use crate::codec::enc_entries;
use crate::codec::enc_entry;
use crate::codec::entries_canonical;
use crate::codec::entries_storable;
use crate::codec::entry_storable;
use crate::codec::lemma_enc_entries_push;
use crate::codec::lemma_enc_entries_take_len;
use crate::codec::lemma_mask_involution;
use crate::codec::lemma_parse_of_encoding;
use crate::codec::mask;
use crate::codec::spec_parse;
use crate::codec::xor_buffer;
use crate::entries::decode_entries;
use crate::entries::lemma_decode_byte_entries;
use crate::entries::CharEntry;
use crate::entries::byte_entries_of;
use crate::entries::byte_entry_of;
use crate::entries::char_entries;
use crate::entries::encoded_len;
use crate::entries::find_key;
use crate::entries::keys_distinct;
use crate::entries::lemma_map_of_contains;
use crate::entries::lemma_map_of_dom_len;
use crate::entries::lemma_map_of_index;
use crate::entries::map_of;
use crate::entries::opt_chars;
use crate::entries::remove_key;
use crate::entries::upsert;
use crate::mconfig_builder::MConfigBuilder;
use crate::spec_magic;

verus! {

/// Errors reported by parsing, building and inserting.
#[derive(Debug, PartialEq, Eq, Structural)]
pub enum MCError {
    /// The buffer is shorter than the fixed header.
    TooShort,
    /// The buffer is longer than a serialized buffer can be, or an insert
    /// would push the serialized form past the fixed size.
    TooBig,
    /// The buffer does not open with the magic bytes.
    BadHeader,
    /// The version byte names a version this crate does not know.
    UnknownVersion,
    /// A key's declared length exceeds the bytes that remain.
    TruncatedKey,
    /// A value's declared length exceeds the bytes that remain.
    TruncatedValue,
    /// A key is not followed by a value-length byte, or a looked-up key is
    /// absent.
    MissingKey,
    /// Declared key or value bytes are not valid UTF-8.
    InvalidUTF8,
    /// A value longer than 255 UTF-8 bytes was handed to an insert.
    ValueTooBig,
    /// A key longer than 255 UTF-8 bytes was handed to an insert.
    KeyTooBig,
}

/// The result type used throughout the crate.
pub type MCResult<T> = Result<T, MCError>;

/// The in-memory store: a version byte, the entry list, and the optional
/// secret used to obfuscate serialized buffers.
pub struct MConfig {
    version: u8,
    entries: Vec<(String, Option<String>)>,
    secret: Option<String>,
}

impl MConfig {
    /// The entry list at the character level, in storage order.
    pub closed spec fn entries_view(self) -> Seq<CharEntry> {
        char_entries(self.entries@)
    }

    /// The entry list at the byte level, each key and value UTF-8 encoded.
    pub closed spec fn byte_entries(self) -> Seq<ByteEntry> {
        byte_entries_of(self.entries@)
    }

    /// The map the store represents: each key bound to its optional value.
    pub open spec fn as_map(self) -> Map<Seq<char>, Option<Seq<char>>> {
        map_of(self.entries_view())
    }

    /// The secret, if one is set.
    pub closed spec fn spec_secret(self) -> Option<Seq<char>> {
        opt_chars(self.secret)
    }

    /// The key stream the obfuscation cycles over: the secret's UTF-8 bytes,
    /// or the empty sequence when no secret is set.
    pub open spec fn key_stream(self) -> Seq<u8> {
        crate::entries::key_stream_of(self.spec_secret())
    }

    /// The encoded length of the entries section, sentinel not counted.
    pub open spec fn encoded_entries_len(self) -> nat {
        enc_entries(self.byte_entries()).len()
    }

    /// The store's invariant: version zero, every key and value within the
    /// length bounds, pairwise distinct keys, and an entries section that
    /// fits the region a buffer reserves for it.
    pub closed spec fn wf(self) -> bool {
        &&& self.version == 0
        &&& entries_storable(self.byte_entries())
        &&& keys_distinct(self.entries_view())
        &&& self.encoded_entries_len() <= MCONFIG_SIZE - HEADER_SIZE
    }

    /// Every entry round-trips through the codec exactly: no empty key (the
    /// encoding of one is the sentinel) and no present-but-empty value (the
    /// encoding of one reads back as an absent value).
    pub open spec fn entries_exact(self) -> bool {
        crate::codec::entries_canonical(self.byte_entries())
    }

    /// Get a new Builder.
    pub fn builder() -> (b: MConfigBuilder)
        ensures
            b.spec_secret() is None,
            b.spec_raw_bytes() is None,
    {
        MConfigBuilder::new()
    }

    /// Assemble a store from parts the builder has validated.
    pub(crate) fn from_parts(entries: Vec<(String, Option<String>)>, secret: Option<String>) -> (mc:
        MConfig)
        requires
            entries_storable(byte_entries_of(entries@)),
            keys_distinct(char_entries(entries@)),
            enc_entries(byte_entries_of(entries@)).len() <= MCONFIG_SIZE - HEADER_SIZE,
        ensures
            mc.wf(),
            mc.entries_view() == char_entries(entries@),
            mc.encoded_entries_len() == enc_entries(byte_entries_of(entries@)).len(),
            mc.as_map() == map_of(char_entries(entries@)),
            mc.spec_secret() == opt_chars(secret),
    {
        MConfig { version: 0, entries, secret }
    }

    /// Retrieve the value at key. Returns `None` if the key is not set,
    /// `Some(None)` if it is set with no value.
    pub fn get(&self, key: &str) -> (r: Option<&Option<String>>)
        requires
            self.wf(),
        ensures
            (match r {
                Some(v) => self.as_map().contains_key(key@) && opt_chars(*v)
                    == self.as_map()[key@],
                None => !self.as_map().contains_key(key@),
            }),
    {
        proof {
            lemma_map_of_contains(self.entries_view(), key@);
        }
        match find_key(&self.entries, key) {
            Some(i) => {
                proof {
                    lemma_map_of_index(self.entries_view(), i as int);
                }
                Some(&self.entries[i].1)
            },
            None => None,
        }
    }

    /// Try to retrieve a value at key. Fails with `MissingKey` if the key is
    /// not present.
    pub fn try_get(&self, key: &str) -> (r: MCResult<&Option<String>>)
        requires
            self.wf(),
        ensures
            (match r {
                Ok(v) => self.as_map().contains_key(key@) && opt_chars(*v) == self.as_map()[key@],
                Err(e) => e == MCError::MissingKey && !self.as_map().contains_key(key@),
            }),
    {
        match self.get(key) {
            Some(v) => Ok(v),
            None => Err(MCError::MissingKey),
        }
    }

    /// Check if a given key is present.
    pub fn contains_key(&self, key: &str) -> (r: bool)
        requires
            self.wf(),
        ensures
            r == self.as_map().contains_key(key@),
    {
        match self.get(key) {
            Some(_) => true,
            None => false,
        }
    }

    /// The size a buffer of this store takes: header, encoded entries and
    /// sentinel. Any store built through `try_insert` keeps it within
    /// `MCONFIG_SIZE`; a store parsed from a sentinel-less, exactly full
    /// region can exceed it, and `to_vec` then has no room for the sentinel.
    pub fn serialized_len(&self) -> (n: usize)
        requires
            self.wf(),
        ensures
            n == HEADER_SIZE + self.encoded_entries_len() + 1,
    {
        let e: usize = encoded_len(&self.entries);
        HEADER_SIZE + e + 1
    }

    /// The number of entries, one per key the store binds.
    pub fn len(&self) -> (n: usize)
        requires
            self.wf(),
        ensures
            n == self.as_map().dom().len(),
            n == self.entries_view().len(),
    {
        proof {
            lemma_map_of_dom_len(self.entries_view());
        }
        self.entries.len()
    }

    /// Change the secret used during obfuscation. Buffers produced earlier
    /// are not touched.
    pub fn set_secret(&mut self, secret: Option<String>)
        ensures
            final(self).spec_secret() == opt_chars(secret),
            final(self).entries_view() == old(self).entries_view(),
            final(self).byte_entries() == old(self).byte_entries(),
            final(self).wf() == old(self).wf(),
            final(self).entries_exact() == old(self).entries_exact(),
    {
        self.secret = secret;
    }

    /// The check `try_insert` performs, in order: key length, value length,
    /// then the projected serialized size, which charges the new entry in
    /// full even when it replaces an entry already present.
    pub open spec fn spec_insert_check(self, key: Seq<char>, value: Option<Seq<char>>) -> Result<
        (),
        MCError,
    > {
        if encode_utf8(key).len() > MAX_KEY_LEN {
            Err(MCError::KeyTooBig)
        } else if (match value {
            Some(v) => encode_utf8(v).len() > MAX_VALUE_LEN,
            None => false,
        }) {
            Err(MCError::ValueTooBig)
        } else if HEADER_SIZE + self.encoded_entries_len() + enc_entry(
            (
                encode_utf8(key),
                match value {
                    Some(v) => Some(encode_utf8(v)),
                    None => None,
                },
            ),
        ).len() >= MCONFIG_SIZE {
            Err(MCError::TooBig)
        } else {
            Ok(())
        }
    }

    /// Insert a key-value pair; the value is optional. Fails if the key or
    /// the value is too long, or if the addition would make the serialized
    /// form reach the fixed buffer size.
    ///
    /// On success returns the prior value: `None` when the key was not
    /// present, `Some(None)` when it was present with no value.
    pub fn try_insert(&mut self, key: String, value: Option<String>) -> (r: MCResult<
        Option<Option<String>>,
    >)
        requires
            old(self).wf(),
        ensures
            final(self).wf(),
            final(self).spec_secret() == old(self).spec_secret(),
            (r is Ok) == (old(self).spec_insert_check(key@, opt_chars(value)) is Ok),
            (match r {
                Ok(prev) => {
                    &&& final(self).as_map() == old(self).as_map().insert(key@, opt_chars(value))
                    &&& (prev is Some) == old(self).as_map().contains_key(key@)
                    &&& (match prev {
                        Some(p) => opt_chars(p) == old(self).as_map()[key@],
                        None => true,
                    })
                    &&& final(self).encoded_entries_len() + HEADER_SIZE < MCONFIG_SIZE
                    &&& final(self).encoded_entries_len() <= old(self).encoded_entries_len()
                        + enc_entry(byte_entry_of(key, value)).len()
                },
                Err(e) => {
                    &&& *final(self) == *old(self)
                    &&& Err::<(), MCError>(e) == old(self).spec_insert_check(
                        key@,
                        opt_chars(value),
                    )
                },
            }),
    {
        if key.as_str().as_bytes().len() > MAX_KEY_LEN {
            return Err(MCError::KeyTooBig);
        }
        if let Some(val) = &value {
            if val.as_str().as_bytes().len() > MAX_VALUE_LEN {
                proof {
                    assert(value matches Some(v0) && encode_utf8(v0@).len() > MAX_VALUE_LEN);
                }
                return Err(MCError::ValueTooBig);
            }
        }
        let cur: usize = encoded_len(&self.entries);
        let add: usize;
        match &value {
            Some(v) => {
                add = key.as_str().as_bytes().len() + 2 + v.as_str().as_bytes().len();
                proof {
                    assert(byte_entry_of(key, value).1 matches Some(vb) && vb == encode_utf8(v@));
                    assert(add == enc_entry(byte_entry_of(key, value)).len());
                }
            },
            None => {
                add = key.as_str().as_bytes().len() + 2;
                proof {
                    assert(byte_entry_of(key, value).1 is None);
                    assert(add == enc_entry(byte_entry_of(key, value)).len());
                }
            },
        }
        if HEADER_SIZE + cur + add < MCONFIG_SIZE {
            proof {
                broadcast use vstd::utf8::encode_utf8_valid_utf8;

                assert(entry_storable(byte_entry_of(key, value)));
            }
            let prev = upsert(&mut self.entries, key, value);
            Ok(prev)
        } else {
            Err(MCError::TooBig)
        }
    }

    /// Build a store, with the current version and no secret, from a list
    /// of key/value pairs, inserted in order with a later binding of a key
    /// winning. The first pair an insert rejects aborts the build with that
    /// insert's error. A list whose keys and values are within the length
    /// bounds and whose total encoding fits the buffer is always accepted.
    pub fn try_from_entries(entries: Vec<(String, Option<String>)>) -> (r: MCResult<MConfig>)
        ensures
            (match r {
                Ok(mc) => {
                    &&& mc.wf()
                    &&& mc.spec_secret() is None
                    &&& mc.as_map() == map_of(char_entries(entries@))
                },
                Err(e) => e == MCError::KeyTooBig || e == MCError::ValueTooBig || e
                    == MCError::TooBig,
            }),
            entries_storable(byte_entries_of(entries@)) && HEADER_SIZE + enc_entries(
                byte_entries_of(entries@),
            ).len() < MCONFIG_SIZE ==> r is Ok,
    {
        let ghost input = entries@;
        let ghost bs = byte_entries_of(input);
        let mut mc = MConfig { version: 0, entries: Vec::new(), secret: None };
        proof {
            assert(char_entries(mc.entries@) =~= Seq::<CharEntry>::empty());
            assert(byte_entries_of(mc.entries@) =~= Seq::<ByteEntry>::empty());
            assert(enc_entries(Seq::<ByteEntry>::empty()) == Seq::<u8>::empty());
            assert(char_entries(input.take(0)) =~= Seq::<CharEntry>::empty());
            assert(byte_entries_of(input.take(0)) =~= Seq::<ByteEntry>::empty());
        }
        let n: usize = entries.len();
        let mut i: usize = 0;
        while i < n
            invariant
                i <= n,
                n == entries@.len(),
                input == entries@,
                bs == byte_entries_of(input),
                mc.wf(),
                mc.spec_secret() is None,
                mc.as_map() == map_of(char_entries(input.take(i as int))),
                mc.encoded_entries_len() <= enc_entries(byte_entries_of(input.take(i as int))).len(),
            decreases n - i,
        {
            let e = &entries[i];
            let key2: String = e.0.clone();
            let value2: Option<String> = match &e.1 {
                Some(s) => Some(s.clone()),
                None => None,
            };
            let ghost pre = mc;
            proof {
                assert(key2 == input[i as int].0 && value2 == input[i as int].1);
                assert(char_entries(input.take(i + 1)).drop_last() =~= char_entries(
                    input.take(i as int),
                ));
                assert(char_entries(input.take(i + 1)).last() == (key2@, opt_chars(value2)));
                assert(byte_entries_of(input.take(i + 1)) =~= byte_entries_of(
                    input.take(i as int),
                ).push(byte_entry_of(key2, value2)));
                lemma_enc_entries_push(
                    byte_entries_of(input.take(i as int)),
                    byte_entry_of(key2, value2),
                );
                assert(bs.take(i + 1) =~= byte_entries_of(input.take(i + 1)));
                lemma_enc_entries_take_len(bs, i + 1);
            }
            match mc.try_insert(key2, value2) {
                Ok(_) => {},
                Err(er) => {
                    proof {
                        if entries_storable(bs) && HEADER_SIZE + enc_entries(bs).len()
                            < MCONFIG_SIZE {
                            assert(entry_storable(bs[i as int]));
                            assert(false);
                        }
                    }
                    return Err(er);
                },
            }
            i = i + 1;
        }
        proof {
            assert(input.take(n as int) =~= input);
        }
        Ok(mc)
    }

    /// The secret's UTF-8 bytes, or an empty vector when no secret is set.
    fn secret_bytes(&self) -> (r: Vec<u8>)
        ensures
            r@ == self.key_stream(),
    {
        match &self.secret {
            Some(s) => s.as_str().as_bytes_vec(),
            None => Vec::new(),
        }
    }

    /// Return the entries region: the encoded entries, the sentinel byte and
    /// random padding, filling `MCONFIG_SIZE - HEADER_SIZE` bytes exactly.
    fn entries_to_vec(&self) -> (r: Vec<u8>)
        requires
            self.wf(),
            self.encoded_entries_len() + 1 <= MCONFIG_SIZE - HEADER_SIZE,
        ensures
            r@.len() == MCONFIG_SIZE - HEADER_SIZE,
            r@.take((self.encoded_entries_len() + 1) as int) == enc_entries(self.byte_entries())
                + seq![0u8],
    {
        let ghost bs = self.byte_entries();
        let mut v: Vec<u8> = Vec::new();
        let m: usize = self.entries.len();
        let mut i: usize = 0;
        while i < m
            invariant
                i <= m,
                m == self.entries@.len(),
                bs == self.byte_entries(),
                bs.len() == m,
                entries_storable(bs),
                enc_entries(bs).len() + 1 <= MCONFIG_SIZE - HEADER_SIZE,
                v@ == enc_entries(bs.take(i as int)),
            decreases m - i,
        {
            proof {
                assert(bs.take(i + 1) =~= bs.take(i as int).push(bs[i as int]));
                lemma_enc_entries_push(bs.take(i as int), bs[i as int]);
                lemma_enc_entries_take_len(bs, i + 1);
            }
            let e = &self.entries[i];
            let klen: usize = e.0.as_str().len();
            v.push(klen as u8);
            let mut kb = e.0.as_str().as_bytes_vec();
            v.append(&mut kb);
            match &e.1 {
                Some(val) => {
                    let vlen: usize = val.as_str().len();
                    v.push(vlen as u8);
                    let mut vb = val.as_str().as_bytes_vec();
                    v.append(&mut vb);
                },
                None => {
                    v.push(0u8);
                },
            }
            proof {
                assert(v@ =~= enc_entries(bs.take(i + 1)));
            }
            i = i + 1;
        }
        proof {
            assert(bs.take(m as int) =~= bs);
        }
        v.push(0u8);
        let ghost done = v@;
        proof {
            assert(done =~= enc_entries(bs) + seq![0u8]);
        }
        while v.len() < MCONFIG_SIZE - HEADER_SIZE
            invariant
                done.len() <= v@.len() <= MCONFIG_SIZE - HEADER_SIZE,
                v@.take(done.len() as int) == done,
            decreases MCONFIG_SIZE - HEADER_SIZE - v.len(),
        {
            v.push(random_byte());
            proof {
                assert(v@.take(done.len() as int) =~= done);
            }
        }
        v
    }

    /// Return a buffer of the store: magic, version and the entries region,
    /// the latter obfuscated when a secret is configured.
    pub fn to_vec(&self) -> (r: Vec<u8>)
        requires
            self.wf(),
            self.encoded_entries_len() + 1 <= MCONFIG_SIZE - HEADER_SIZE,
        ensures
            serialized_form(*self, r@),
    {
        let region = self.entries_to_vec();
        let ghost region0 = region@;
        let ks = self.secret_bytes();
        let mut masked = xor_buffer(region, &ks);
        let mut v: Vec<u8> = Vec::with_capacity(MCONFIG_SIZE);
        v.push(0x4d);
        v.push(0x43);
        v.push(0x4f);
        v.push(0x4e);
        v.push(0x46);
        v.push(self.version);
        v.append(&mut masked);
        proof {
            assert(v@.take(5) =~= spec_magic());
            assert(v@.skip(HEADER_SIZE as int) =~= mask(region0, self.key_stream()));
            lemma_mask_involution(region0, self.key_stream());
        }
        v
    }

    /// Helper function to get an iterator over the entries.
    pub fn iter(&self) -> (it: MConfigIter)
        ensures
            it.spec_entries() == self.entries_view(),
            it.spec_pos() == 0,
    {
        MConfigIter::new(self)
    }

    /// Remove a key if present. Returns the old value, `None` if the key was
    /// not set.
    pub fn remove(&mut self, key: &str) -> (r: Option<Option<String>>)
        requires
            old(self).wf(),
        ensures
            final(self).wf(),
            final(self).spec_secret() == old(self).spec_secret(),
            final(self).as_map() == old(self).as_map().remove(key@),
            (r is Some) == old(self).as_map().contains_key(key@),
            (match r {
                Some(p) => opt_chars(p) == old(self).as_map()[key@],
                None => true,
            }),
    {
        remove_key(&mut self.entries, key)
    }
}

/// A trusted source of padding. Relies on `rand::random`: one byte from the
/// thread-local generator; nothing is promised of its value, and the
/// contracts never speak of the padding's content.
#[verifier::external_body]
fn random_byte() -> u8 {
    rand::random::<u8>()
}

/// What `to_vec` guarantees of a buffer it produced: the fixed size, the
/// magic and version header, and — after undoing the obfuscation — the
/// encoded entries and the sentinel; of the random padding after them
/// nothing is said.
pub open spec fn serialized_form(mc: MConfig, buf: Seq<u8>) -> bool {
    &&& buf.len() == MCONFIG_SIZE
    &&& buf.take(5) == spec_magic()
    &&& buf[5] == 0u8
    &&& mask(buf.skip(HEADER_SIZE as int), mc.key_stream()).take(
        (mc.encoded_entries_len() + 1) as int,
    ) == enc_entries(mc.byte_entries()) + seq![0u8]
}

/// Round trip: any buffer `to_vec` may produce for a store whose entries
/// round-trip exactly, de-obfuscated with the same secret, parses back to
/// exactly that store's key/value map, whatever bytes the random padding
/// took.
///
/// A store holding an empty key, or an empty present value, is left out:
/// the former's encoding is the sentinel and the latter's reads back as an
/// absent value, so neither can come back unchanged.
pub proof fn lemma_store_round_trip(mc: MConfig, buf: Seq<u8>)
    requires
        mc.wf(),
        mc.entries_exact(),
        mc.encoded_entries_len() + 1 <= MCONFIG_SIZE - HEADER_SIZE,
        serialized_form(mc, buf),
    ensures
        ({
            let parsed = spec_parse(mask(buf.skip(HEADER_SIZE as int), mc.key_stream()));
            &&& parsed is Ok
            &&& map_of(decode_entries(parsed->Ok_0)) == mc.as_map()
        }),
{
    let bs = mc.byte_entries();
    let l = enc_entries(bs).len() as int;
    let region = mask(buf.skip(HEADER_SIZE as int), mc.key_stream());
    assert(region.len() == MCONFIG_SIZE - HEADER_SIZE);
    let tail = region.skip(l + 1);
    assert forall|j: int|
        0 <= j < region.len() implies region[j] == (enc_entries(bs) + seq![0u8] + tail)[j] by {
        if j < l + 1 {
            assert(region.take(l + 1)[j] == region[j]);
            assert((enc_entries(bs) + seq![0u8])[j] == region.take(l + 1)[j]);
        } else {
            assert(tail[j - (l + 1)] == region[j]);
        }
    }
    assert(region =~= enc_entries(bs) + seq![0u8] + tail);
    lemma_parse_of_encoding(bs, tail);
    lemma_decode_byte_entries(mc.entries@);
}

/// Iterator over a store's entries, in storage order.
pub struct MConfigIter<'a> {
    store: &'a MConfig,
    pos: usize,
}

impl<'a> MConfigIter<'a> {
    /// The entries walked over, at the character level.
    pub closed spec fn spec_entries(self) -> Seq<CharEntry> {
        self.store.entries_view()
    }

    /// How many entries have been handed out so far.
    pub closed spec fn spec_pos(self) -> int {
        self.pos as int
    }

    fn new(store: &'a MConfig) -> (it: MConfigIter<'a>)
        ensures
            it.spec_entries() == store.entries_view(),
            it.spec_pos() == 0,
    {
        MConfigIter { store, pos: 0 }
    }

    /// The next entry, or `None` once all entries have been handed out.
    pub fn next(&mut self) -> (r: Option<(&'a String, &'a Option<String>)>)
        ensures
            final(self).spec_entries() == old(self).spec_entries(),
            (match r {
                Some(p) => {
                    &&& old(self).spec_pos() < old(self).spec_entries().len()
                    &&& final(self).spec_pos() == old(self).spec_pos() + 1
                    &&& p.0@ == old(self).spec_entries()[old(self).spec_pos()].0
                    &&& opt_chars(*p.1) == old(self).spec_entries()[old(self).spec_pos()].1
                },
                None => {
                    &&& old(self).spec_pos() >= old(self).spec_entries().len()
                    &&& *final(self) == *old(self)
                },
            }),
    {
        let store: &'a MConfig = self.store;
        if self.pos < store.entries.len() {
            let e = &store.entries[self.pos];
            self.pos = self.pos + 1;
            Some((&e.0, &e.1))
        } else {
            None
        }
    }
}

} // verus!
