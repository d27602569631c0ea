//! The builder: accumulates an optional secret and optional raw bytes, and
//! produces a store either empty or by parsing a loaded buffer.
use vstd::prelude::*;
use vstd::slice::slice_subrange;
use vstd::slice::slice_to_vec;
use vstd::utf8::*;

use crate::HEADER_SIZE;
use crate::MCONFIG_SIZE;
use crate::VERSION_INDEX;
use crate::codec::ByteEntry;
use crate::codec::enc_entries;
use crate::codec::enc_entry;
use crate::codec::entries_storable;
use crate::codec::entry_storable;
use crate::codec::mask;
use crate::codec::spec_parse;
use crate::codec::xor_buffer;
use crate::entries::byte_entries_of;
use crate::entries::byte_entry_of;
use crate::entries::char_entries;
use crate::entries::decode_entries;
use crate::entries::key_stream_of;
use crate::entries::keys_distinct;
use crate::entries::lemma_map_of_concat;
use crate::entries::map_of;
use crate::entries::opt_chars;
use crate::entries::upsert;
use crate::magic_byte;
use crate::mconfig::MCError;
use crate::mconfig::MCResult;
use crate::mconfig::MConfig;
use crate::spec_magic;

verus! {

/// Relies on `String::from_utf8`: it succeeds exactly on valid UTF-8 input
/// and returns the string those bytes encode.
#[verifier::external_body]
fn string_from_utf8(bytes: Vec<u8>) -> (r: Option<String>)
    ensures
        (r is Some) == valid_utf8(bytes@),
        (match r {
            Some(s) => s@ == decode_utf8(bytes@),
            None => true,
        }),
{
    String::from_utf8(bytes).ok()
}

/// What building a store from `raw` with the key stream `ks` yields: the
/// length, magic and version checks in that order, then the parse of the
/// de-obfuscated entries region, whose entries fold into a map with a later
/// binding of a key winning.
pub open spec fn spec_load(raw: Seq<u8>, ks: Seq<u8>) -> Result<
    Map<Seq<char>, Option<Seq<char>>>,
    MCError,
> {
    if raw.len() < HEADER_SIZE {
        Err(MCError::TooShort)
    } else if raw.len() > MCONFIG_SIZE {
        Err(MCError::TooBig)
    } else if raw.take(5) != spec_magic() {
        Err(MCError::BadHeader)
    } else if raw[VERSION_INDEX as int] != 0 {
        Err(MCError::UnknownVersion)
    } else {
        match spec_parse(mask(raw.skip(HEADER_SIZE as int), ks)) {
            Ok(res) => Ok(map_of(decode_entries(res))),
            Err(e) => Err(e),
        }
    }
}

/// Builder for the [`MConfig`] struct.
pub struct MConfigBuilder {
    secret: Option<String>,
    raw_bytes: Option<Vec<u8>>,
}

impl MConfigBuilder {
    /// The secret configured so far, if any.
    pub closed spec fn spec_secret(self) -> Option<Seq<char>> {
        opt_chars(self.secret)
    }

    /// The raw bytes loaded so far, if any.
    pub closed spec fn spec_raw_bytes(self) -> Option<Seq<u8>> {
        match self.raw_bytes {
            Some(b) => Some(b@),
            None => None,
        }
    }

    /// Returns an empty builder.
    pub fn new() -> (b: MConfigBuilder)
        ensures
            b.spec_secret() is None,
            b.spec_raw_bytes() is None,
    {
        MConfigBuilder { secret: None, raw_bytes: None }
    }

    /// Sets the optional secret for this builder.
    pub fn secret(self, secret: &str) -> (b: MConfigBuilder)
        ensures
            b.spec_secret() == Some(secret@),
            b.spec_raw_bytes() == self.spec_raw_bytes(),
    {
        MConfigBuilder { secret: Some(secret.to_owned()), raw_bytes: self.raw_bytes }
    }

    /// Loads raw bytes which may or may not be obfuscated.
    pub fn load(self, raw_bytes: Vec<u8>) -> (b: MConfigBuilder)
        ensures
            b.spec_raw_bytes() == Some(raw_bytes@),
            b.spec_secret() == self.spec_secret(),
    {
        MConfigBuilder { secret: self.secret, raw_bytes: Some(raw_bytes) }
    }

    /// Parse a de-obfuscated entries region into an entry list: walk the
    /// encoded entries up to the sentinel or the end of the region,
    /// validating lengths and UTF-8, with a later binding of a key replacing
    /// an earlier one.
    #[verifier::rlimit(100)]
    fn try_parse(buffer: Vec<u8>, secret: &Option<String>) -> (r: MCResult<
        Vec<(String, Option<String>)>,
    >)
        ensures
            ({
                let region = mask(buffer@, key_stream_of(opt_chars(*secret)));
                match r {
                    Ok(v) => {
                        &&& spec_parse(region) is Ok
                        &&& map_of(char_entries(v@)) == map_of(
                            decode_entries(spec_parse(region)->Ok_0),
                        )
                        &&& keys_distinct(char_entries(v@))
                        &&& entries_storable(byte_entries_of(v@))
                        &&& enc_entries(byte_entries_of(v@)).len() <= region.len()
                    },
                    Err(e) => spec_parse(region) == Err::<Seq<ByteEntry>, MCError>(e),
                }
            }),
    {
        broadcast use encode_utf8_valid_utf8, decode_utf8_encode_utf8;

        let ghost buf0: Seq<u8> = buffer@;
        let ks: Vec<u8> = match secret {
            Some(s) => s.as_str().as_bytes_vec(),
            None => Vec::new(),
        };
        let region = xor_buffer(buffer, &ks);
        let ghost reg = region@;
        let n: usize = region.len();
        let mut acc: Vec<(String, Option<String>)> = Vec::new();
        let mut pos: usize = 0;
        proof {
            assert(reg.skip(0) =~= reg);
            assert(char_entries(acc@) =~= Seq::<crate::entries::CharEntry>::empty());
            assert(byte_entries_of(acc@) =~= Seq::<ByteEntry>::empty());
            assert(enc_entries(Seq::<ByteEntry>::empty()) == Seq::<u8>::empty());
            match spec_parse(reg) {
                Ok(all) => {
                    assert(map_of(Seq::<crate::entries::CharEntry>::empty()).union_prefer_right(
                        map_of(decode_entries(all)),
                    ) =~= map_of(decode_entries(all)));
                },
                Err(_) => {},
            }
        }
        loop
            invariant
                pos <= n,
                reg == region@,
                reg.len() == n,
                reg == mask(buf0, key_stream_of(opt_chars(*secret))),
                buf0 == buffer@,
                keys_distinct(char_entries(acc@)),
                entries_storable(byte_entries_of(acc@)),
                enc_entries(byte_entries_of(acc@)).len() <= pos,
                (spec_parse(reg) is Ok) == (spec_parse(reg.skip(pos as int)) is Ok),
                spec_parse(reg.skip(pos as int)) is Err ==> spec_parse(reg) == spec_parse(
                    reg.skip(pos as int),
                ),
                (match spec_parse(reg.skip(pos as int)) {
                    Ok(rest) => spec_parse(reg) matches Ok(all) && map_of(decode_entries(all))
                        == map_of(char_entries(acc@)).union_prefer_right(
                        map_of(decode_entries(rest)),
                    ),
                    Err(_) => true,
                }),
            decreases n - pos,
        {
            let ghost s = reg.skip(pos as int);
            if pos >= n {
                proof {
                    assert(s.len() == 0);
                    assert(decode_entries(Seq::<ByteEntry>::empty())
                        =~= Seq::<crate::entries::CharEntry>::empty());
                    assert(map_of(char_entries(acc@)).union_prefer_right(
                        map_of(Seq::<crate::entries::CharEntry>::empty()),
                    ) =~= map_of(char_entries(acc@)));
                }
                return Ok(acc);
            }
            let b = region[pos];
            proof {
                assert(s[0] == reg[pos as int]);
            }
            if b == 0 {
                proof {
                    assert(decode_entries(Seq::<ByteEntry>::empty())
                        =~= Seq::<crate::entries::CharEntry>::empty());
                    assert(map_of(char_entries(acc@)).union_prefer_right(
                        map_of(Seq::<crate::entries::CharEntry>::empty()),
                    ) =~= map_of(char_entries(acc@)));
                }
                return Ok(acc);
            }
            let kl: usize = b as usize;
            let rem: usize = n - pos - 1;
            if kl > rem {
                proof {
                    assert(s.len() < 1 + kl);
                    assert(spec_parse(s) == Err::<Seq<ByteEntry>, MCError>(MCError::TruncatedKey));
                }
                return Err(MCError::TruncatedKey);
            }
            let kb: Vec<u8> = slice_to_vec(slice_subrange(region.as_slice(), pos + 1, pos + 1 + kl));
            let ghost kbs: Seq<u8> = kb@;
            proof {
                assert(kbs =~= s.subrange(1, 1 + kl as int));
            }
            let kstr: String = match string_from_utf8(kb) {
                Some(ks0) => ks0,
                None => {
                    proof {
                        assert(spec_parse(s) == Err::<Seq<ByteEntry>, MCError>(
                            MCError::InvalidUTF8,
                        ));
                    }
                    return Err(MCError::InvalidUTF8);
                },
            };
            if kl == rem {
                proof {
                    assert(s.len() == 1 + kl);
                    assert(spec_parse(s) == Err::<Seq<ByteEntry>, MCError>(MCError::MissingKey));
                }
                return Err(MCError::MissingKey);
            }
            let vlb = region[pos + 1 + kl];
            proof {
                assert(s[1 + kl as int] == reg[pos + 1 + kl as int]);
            }
            let vl: usize = vlb as usize;
            let value: Option<String>;
            let consumed: usize;
            let ghost mut vbs: Seq<u8> = Seq::<u8>::empty();
            if vl == 0 {
                value = None;
                consumed = kl + 2;
            } else {
                let rem2: usize = n - pos - 2 - kl;
                if vl > rem2 {
                    proof {
                        assert(s.len() < 2 + kl + vl);
                        assert(spec_parse(s) == Err::<Seq<ByteEntry>, MCError>(
                            MCError::TruncatedValue,
                        ));
                    }
                    return Err(MCError::TruncatedValue);
                }
                let vb: Vec<u8> = slice_to_vec(
                    slice_subrange(region.as_slice(), pos + 2 + kl, pos + 2 + kl + vl),
                );
                proof {
                    vbs = vb@;
                    assert(vbs =~= s.subrange(2 + kl as int, 2 + kl as int + vl as int));
                }
                match string_from_utf8(vb) {
                    Some(vstr) => {
                        value = Some(vstr);
                        consumed = kl + 2 + vl;
                    },
                    None => {
                        proof {
                            assert(spec_parse(s) == Err::<Seq<ByteEntry>, MCError>(
                                MCError::InvalidUTF8,
                            ));
                        }
                        return Err(MCError::InvalidUTF8);
                    },
                }
            }
            let ghost e0: ByteEntry = byte_entry_of(kstr, value);
            let ghost acc0 = acc@;
            proof {
                decode_utf8_encode_utf8(kbs);
                assert(e0.0 == kbs);
                if vl == 0 {
                    assert(e0.1 is None);
                } else {
                    decode_utf8_encode_utf8(vbs);
                    assert(value matches Some(v0) && v0@ == decode_utf8(vbs));
                    assert(e0.1 == Some(vbs));
                }
                assert(spec_parse(s) == (match spec_parse(s.skip(consumed as int)) {
                    Ok(rest) => Ok::<Seq<ByteEntry>, MCError>(seq![e0] + rest),
                    Err(err) => Err::<Seq<ByteEntry>, MCError>(err),
                }));
                assert(s.skip(consumed as int) =~= reg.skip(pos as int + consumed as int));
                assert(entry_storable(e0));
                assert(enc_entry(e0).len() == consumed);
            }
            let _ = upsert(&mut acc, kstr, value);
            pos = pos + consumed;
            proof {
                let rest_r = spec_parse(reg.skip(pos as int));
                if rest_r is Ok {
                    let rest = rest_r->Ok_0;
                    let d0 = (
                        decode_utf8(e0.0),
                        match e0.1 {
                            Some(vbx) => Some(decode_utf8(vbx)),
                            None => None::<Seq<char>>,
                        },
                    );
                    assert(decode_entries(seq![e0] + rest) =~= seq![d0] + decode_entries(rest));
                    lemma_map_of_concat(seq![d0], decode_entries(rest));
                    assert(seq![d0].drop_last() =~= Seq::<crate::entries::CharEntry>::empty());
                    assert(map_of(Seq::<crate::entries::CharEntry>::empty()) == Map::<
                        Seq<char>,
                        Option<Seq<char>>,
                    >::empty());
                    assert(seq![d0].last() == d0);
                    assert(map_of(seq![d0]) =~= Map::<Seq<char>, Option<Seq<char>>>::empty().insert(
                        d0.0,
                        d0.1,
                    ));
                    assert(map_of(char_entries(acc@)).union_prefer_right(
                        map_of(decode_entries(rest)),
                    ) =~= map_of(char_entries(acc0)).union_prefer_right(
                        map_of(decode_entries(seq![e0] + rest)),
                    ));
                }
            }
        }
    }

    /// Attempt to construct the [`MConfig`] object: from empty entries when
    /// no raw bytes were loaded, else by checking the header and parsing the
    /// entries region.
    ///
    /// While failure is likely if a wrong secret is supplied, it is not
    /// guaranteed: a wrong secret garbles the region rather than being
    /// detected as such.
    pub fn try_build(self) -> (r: MCResult<MConfig>)
        ensures
            (match self.spec_raw_bytes() {
                None => r matches Ok(mc) && mc.wf() && mc.as_map() == Map::<
                    Seq<char>,
                    Option<Seq<char>>,
                >::empty() && mc.spec_secret() == self.spec_secret()
                    && mc.encoded_entries_len() == 0,
                Some(raw) => (match spec_load(raw, key_stream_of(self.spec_secret())) {
                    Ok(m) => r matches Ok(mc) && mc.wf() && mc.as_map() == m && mc.spec_secret()
                        == self.spec_secret(),
                    Err(e) => r == Err::<MConfig, MCError>(e),
                }),
            }),
    {
        match self.raw_bytes {
            Some(raw) => {
                let ghost rawseq = raw@;
                if raw.len() < HEADER_SIZE {
                    return Err(MCError::TooShort);
                }
                if raw.len() > MCONFIG_SIZE {
                    return Err(MCError::TooBig);
                }
                let mut i: usize = 0;
                while i < 5
                    invariant
                        i <= 5,
                        raw@ == rawseq,
                        rawseq.len() >= HEADER_SIZE,
                        rawseq.len() <= MCONFIG_SIZE,
                        self.spec_raw_bytes() == Some(rawseq),
                        forall|j: int| 0 <= j < i ==> rawseq[j] == spec_magic()[j],
                    decreases 5 - i,
                {
                    if raw[i] != magic_byte(i) {
                        proof {
                            assert(rawseq.take(5) != spec_magic()) by {
                                assert(rawseq.take(5)[i as int] == rawseq[i as int]);
                            }
                        }
                        return Err(MCError::BadHeader);
                    }
                    i = i + 1;
                }
                proof {
                    assert(rawseq.take(5) =~= spec_magic());
                }
                if raw[VERSION_INDEX] != 0 {
                    return Err(MCError::UnknownVersion);
                }
                let region: Vec<u8> = slice_to_vec(
                    slice_subrange(raw.as_slice(), HEADER_SIZE, raw.len()),
                );
                proof {
                    assert(region@ =~= rawseq.skip(HEADER_SIZE as int));
                }
                match Self::try_parse(region, &self.secret) {
                    Ok(entries) => Ok(MConfig::from_parts(entries, self.secret)),
                    Err(e) => Err(e),
                }
            },
            None => {
                proof {
                    assert(char_entries(Seq::<(String, Option<String>)>::empty())
                        =~= Seq::<crate::entries::CharEntry>::empty());
                    assert(byte_entries_of(Seq::<(String, Option<String>)>::empty())
                        =~= Seq::<ByteEntry>::empty());
                    assert(enc_entries(Seq::<ByteEntry>::empty()) == Seq::<u8>::empty());
                }
                let entries: Vec<(String, Option<String>)> = Vec::new();
                Ok(MConfig::from_parts(entries, self.secret))
            },
        }
    }
}

impl Default for MConfigBuilder {
    fn default() -> (b: MConfigBuilder)
        ensures
            b.spec_secret() is None,
            b.spec_raw_bytes() is None,
    {
        MConfigBuilder::new()
    }
}

} // verus!
