//! The peer wire protocol.

use crate::assoc;
use crate::bencode;
use crate::bencode::{BencodeModel, BencodeValue, Parsed};
use crate::bitfield::Bitfield;
use crate::bytes;
use crate::number;
use crate::proto::metadata;
use crate::proto::metadata::{MetadataMessage, MetadataModel};
use crate::proto::pex;
use crate::proto::pex::{PEXMessage, PEXModel};
use crate::str_map::StrMap;
use crate::types::{PeerId, Sha1Hash};
use vstd::prelude::*;
use vstd::utf8;

verus! {

/// The code under which peers are asked to send peer exchange messages.
pub const PEX_ID: u8 = 1;

/// The code under which peers are asked to send metadata messages.
pub const METADATA_ID: u8 = 2;

/// How long a connection may be idle before a sign of life is sent.
pub const KEEP_ALIVE_SECONDS: u64 = 120;

/// A message between peers.
#[derive(Debug)]
pub enum Message {
    KeepAlive,
    Choked(bool),
    Interested(bool),
    Bitfield(Bitfield),
    Have { index: usize },
    Request { index: usize, begin: usize, length: usize },
    Cancel { index: usize, begin: usize, length: usize },
    /// The response time is in nanoseconds; it is known of requested blocks only.
    Piece { index: usize, begin: usize, piece: Vec<u8>, response_time: Option<u64> },
    // BEP 6: https://www.bittorrent.org/beps/bep_0006.html
    Reject { index: usize, begin: usize, length: usize },
    Suggest { index: usize },
    AllowedFast { index: usize },
    HaveAll,
    HaveNone,
    // BEP 10: https://bittorrent.org/beps/bep_0010.html
    ExtensionHandshake {
        extensions: StrMap,
        client: Option<String>,
        max_requests: Option<usize>,
        metadata_size: Option<usize>,
    },
    PEX(PEXMessage),
    Metadata(MetadataMessage),
    // BEP 5: https://bittorrent.org/beps/bep_0005.html
    DHTPort { port: u16 },
    UnsupportedExtension { type_byte: u8 },
    Unsupported { type_byte: u8 },
}

/// A message's contents.
#[verifier::ext_equal]
pub enum MessageModel {
    KeepAlive,
    Choked(bool),
    Interested(bool),
    Bitfield(Seq<u8>),
    Have { index: usize },
    Request { index: usize, begin: usize, length: usize },
    Cancel { index: usize, begin: usize, length: usize },
    Piece { index: usize, begin: usize, piece: Seq<u8>, response_time: Option<u64> },
    Reject { index: usize, begin: usize, length: usize },
    Suggest { index: usize },
    AllowedFast { index: usize },
    HaveAll,
    HaveNone,
    ExtensionHandshake {
        extensions: Seq<(Seq<char>, u8)>,
        client: Option<Seq<char>>,
        max_requests: Option<usize>,
        metadata_size: Option<usize>,
    },
    PEX(PEXModel),
    Metadata(MetadataModel),
    DHTPort { port: u16 },
    UnsupportedExtension { type_byte: u8 },
    Unsupported { type_byte: u8 },
}

/// The characters of an optional string.
pub open spec fn text_of(s: Option<String>) -> Option<Seq<char>> {
    match s {
        Some(s) => Some(s@),
        None => None,
    }
}

impl View for Message {
    type V = MessageModel;

    open spec fn view(&self) -> MessageModel {
        match *self {
            Message::KeepAlive => MessageModel::KeepAlive,
            Message::Choked(choked) => MessageModel::Choked(choked),
            Message::Interested(interested) => MessageModel::Interested(interested),
            Message::Bitfield(bitfield) => MessageModel::Bitfield(bitfield.bytes@),
            Message::Have { index } => MessageModel::Have { index },
            Message::Request { index, begin, length } => MessageModel::Request {
                index,
                begin,
                length,
            },
            Message::Cancel { index, begin, length } => MessageModel::Cancel {
                index,
                begin,
                length,
            },
            Message::Piece { index, begin, piece, response_time } => MessageModel::Piece {
                index,
                begin,
                piece: piece@,
                response_time,
            },
            Message::Reject { index, begin, length } => MessageModel::Reject {
                index,
                begin,
                length,
            },
            Message::Suggest { index } => MessageModel::Suggest { index },
            Message::AllowedFast { index } => MessageModel::AllowedFast { index },
            Message::HaveAll => MessageModel::HaveAll,
            Message::HaveNone => MessageModel::HaveNone,
            Message::ExtensionHandshake { extensions, client, max_requests, metadata_size } =>
                MessageModel::ExtensionHandshake {
                extensions: extensions@,
                client: text_of(client),
                max_requests,
                metadata_size,
            },
            Message::PEX(pex) => MessageModel::PEX(pex@),
            Message::Metadata(metadata) => MessageModel::Metadata(metadata@),
            Message::DHTPort { port } => MessageModel::DHTPort { port },
            Message::UnsupportedExtension { type_byte } => MessageModel::UnsupportedExtension {
                type_byte,
            },
            Message::Unsupported { type_byte } => MessageModel::Unsupported { type_byte },
        }
    }
}

impl Message {
    /// The parts that have an invariant keep it.
    pub open spec fn wf(self) -> bool {
        match self {
            Message::Bitfield(bitfield) => bitfield.wf(),
            Message::ExtensionHandshake { extensions, .. } => extensions.wf(),
            _ => true,
        }
    }
}

/// The dictionary of extension codes.
pub open spec fn extension_pairs(extensions: Seq<(Seq<char>, u8)>) -> Seq<
    (Seq<char>, BencodeModel),
> {
    extensions.map_values(|e: (Seq<char>, u8)| (e.0, BencodeModel::Integer(e.1 as i64)))
}

/// One entry with a number, or none.
pub open spec fn number_pair(key: Seq<char>, n: Option<usize>) -> Seq<(Seq<char>, BencodeModel)> {
    match n {
        Some(n) => seq![(key, BencodeModel::Integer(n as i64))],
        None => Seq::empty(),
    }
}

/// One entry with a text, or none.
pub open spec fn text_pair(key: Seq<char>, text: Option<Seq<char>>) -> Seq<
    (Seq<char>, BencodeModel),
> {
    match text {
        Some(text) => seq![(key, BencodeModel::ByteString(utf8::encode_utf8(text)))],
        None => Seq::empty(),
    }
}

/// The entries of an extension handshake, in the order of their keys.
pub open spec fn handshake_pairs(
    extensions: Seq<(Seq<char>, u8)>,
    client: Option<Seq<char>>,
    max_requests: Option<usize>,
    metadata_size: Option<usize>,
) -> Seq<(Seq<char>, BencodeModel)> {
    seq![("m"@, BencodeModel::Dictionary(extension_pairs(extensions)))] + number_pair(
        "metadata_size"@,
        metadata_size,
    ) + number_pair("reqq"@, max_requests) + text_pair("v"@, client)
}

/// The dictionary of an extension handshake; other messages have none.
pub open spec fn handshake_bytes(m: MessageModel) -> Seq<u8> {
    match m {
        MessageModel::ExtensionHandshake { extensions, client, max_requests, metadata_size } =>
            bencode::encoded(
            BencodeModel::Dictionary(
                handshake_pairs(extensions, client, max_requests, metadata_size),
            ),
        ),
        _ => Seq::empty(),
    }
}

/// The extension codes that a dictionary's entries give, or what is wrong with
/// the first entry that gives none.
pub open spec fn extension_codes(pairs: Seq<(Seq<char>, BencodeModel)>) -> Result<
    Seq<(Seq<char>, u8)>,
    Seq<char>,
>
    decreases pairs.len(),
{
    if pairs.len() == 0 {
        Ok(Seq::empty())
    } else {
        match extension_codes(pairs.drop_last()) {
            Err(e) => Err(e),
            Ok(codes) => match bencode::as_unsigned(pairs.last().1, pairs.last().0) {
                Err(e) => Err(e),
                Ok(n) => Ok(codes.push((pairs.last().0, n as u8))),
            },
        }
    }
}

/// The number under a key, if there is one, or what is wrong with it.
pub open spec fn number_under(v: BencodeModel, key: Seq<char>) -> Result<Option<usize>, Seq<char>> {
    match bencode::entry(v, key) {
        None => Ok(None),
        Some(found) => match bencode::as_unsigned(found, key) {
            Ok(n) => Ok(Some(n as usize)),
            Err(e) => Err(e),
        },
    }
}

/// The text under a key, if there is one, or what is wrong with it.
pub open spec fn text_under(v: BencodeModel, key: Seq<char>) -> Result<
    Option<Seq<char>>,
    Seq<char>,
> {
    match bencode::entry(v, key) {
        None => Ok(None),
        Some(found) => match bencode::as_text(found, key) {
            Ok(text) => Ok(Some(text)),
            Err(e) => Err(e),
        },
    }
}

/// The extension handshake that a dictionary is, or why it is none.
pub open spec fn handshake_of(v: BencodeModel) -> Result<MessageModel, Seq<char>> {
    match bencode::required_entry(v, "m"@) {
        Err(e) => Err(e),
        Ok(BencodeModel::Dictionary(pairs)) => match extension_codes(pairs) {
            Err(e) => Err(e),
            Ok(extensions) => match text_under(v, "v"@) {
                Err(e) => Err(e),
                Ok(client) => match number_under(v, "reqq"@) {
                    Err(e) => Err(e),
                    Ok(max_requests) => match number_under(v, "metadata_size"@) {
                        Err(e) => Err(e),
                        Ok(metadata_size) => Ok(
                            MessageModel::ExtensionHandshake {
                                extensions,
                                client,
                                max_requests,
                                metadata_size,
                            },
                        ),
                    },
                },
            },
        },
        Ok(_) => Err("'m' must be a dictionary"@),
    }
}

/// The extension handshake that bytes write, or why they write none.
pub open spec fn parse_handshake(s: Seq<u8>) -> Result<MessageModel, Seq<char>> {
    match bencode::value_at(s, 0) {
        Parsed::Value(v, _) => handshake_of(v),
        Parsed::End => Err("Unable to find root dictionary"@),
        Parsed::Error(e) => Err(e),
    }
}

/// The codes are as many as the entries, under the same names.
proof fn lemma_extension_codes(pairs: Seq<(Seq<char>, BencodeModel)>)
    ensures
        extension_codes(pairs) matches Ok(codes) ==> {
            &&& codes.len() == pairs.len()
            &&& forall|i: int| 0 <= i < codes.len() ==> (#[trigger] codes[i]).0 == pairs[i].0
        },
    decreases pairs.len(),
{
    if pairs.len() > 0 {
        lemma_extension_codes(pairs.drop_last());
    }
}

/// Codes that were written are read back.
proof fn lemma_codes_round_trip(extensions: Seq<(Seq<char>, u8)>)
    ensures
        extension_codes(extension_pairs(extensions)) == Ok::<_, Seq<char>>(extensions),
    decreases extensions.len(),
{
    let pairs = extension_pairs(extensions);
    if extensions.len() > 0 {
        let shorter = extensions.drop_last();
        lemma_codes_round_trip(shorter);
        assert(pairs.drop_last() =~= extension_pairs(shorter));
        let n = extensions.last().1;
        assert((n as i64) as u64 == n as u64);
        assert((n as u64) as u8 == n);
        assert(shorter.push(extensions.last()) =~= extensions);
    } else {
        assert(extensions =~= Seq::empty());
    }
}

/// The keys of an extension handshake are different.
proof fn lemma_handshake_keys()
    ensures
        "m"@ != "metadata_size"@,
        "m"@ != "reqq"@,
        "m"@ != "v"@,
        "metadata_size"@ != "reqq"@,
        "metadata_size"@ != "v"@,
        "reqq"@ != "v"@,
{
    reveal_strlit("m");
    reveal_strlit("metadata_size");
    reveal_strlit("reqq");
    reveal_strlit("v");
    assert("m"@[0] == 'm' && "v"@[0] == 'v');
    assert("m"@.len() == 1 && "v"@.len() == 1 && "reqq"@.len() == 4 && "metadata_size"@.len()
        == 13);
}

/// An extension handshake that was written is read back.
pub proof fn law_extension_handshake_round_trip(
    extensions: Seq<(Seq<char>, u8)>,
    client: Option<Seq<char>>,
    max_requests: Option<usize>,
    metadata_size: Option<usize>,
)
    requires
        assoc::distinct_keys(extensions),
        max_requests matches Some(n) ==> n <= i64::MAX,
        metadata_size matches Some(n) ==> n <= i64::MAX,
    ensures
        ({
            let m = MessageModel::ExtensionHandshake {
                extensions,
                client,
                max_requests,
                metadata_size,
            };
            parse_handshake(handshake_bytes(m)) == Ok::<_, Seq<char>>(m)
        }),
{
    lemma_handshake_keys();
    let m = MessageModel::ExtensionHandshake { extensions, client, max_requests, metadata_size };
    let pairs = handshake_pairs(extensions, client, max_requests, metadata_size);
    let v = BencodeModel::Dictionary(pairs);
    let codes = extension_pairs(extensions);
    let inner = BencodeModel::Dictionary(codes);
    let s = handshake_bytes(m);
    let at_size = 1int;
    let at_reqq = at_size + number_pair("metadata_size"@, metadata_size).len();
    let at_v = at_reqq + number_pair("reqq"@, max_requests).len();
    assert(assoc::distinct_keys(codes)) by {
        assert forall|i: int, j: int| 0 <= i < j < codes.len() implies (#[trigger] codes[i]).0 != (
        #[trigger] codes[j]).0 by {
            assert(extensions[i].0 != extensions[j].0);
        }
    }
    bencode::lemma_sound_pairs(codes);
    assert(bencode::sound(inner));
    assert(assoc::distinct_keys(pairs));
    bencode::lemma_sound_pairs(pairs);
    assert(bencode::sound(v));
    assert(s.subrange(0, s.len() as int) =~= s);
    bencode::law_bencode_round_trip(s, 0, v);
    lemma_codes_round_trip(extensions);
    assert(assoc::key_at(pairs, 0, "m"@));
    assoc::lemma_index_unique(pairs, 0, "m"@);
    if metadata_size is Some {
        assert(assoc::key_at(pairs, at_size, "metadata_size"@));
        assoc::lemma_index_unique(pairs, at_size, "metadata_size"@);
    } else {
        assert forall|i: int| !assoc::key_at(pairs, i, "metadata_size"@) by {}
    }
    if max_requests is Some {
        assert(assoc::key_at(pairs, at_reqq, "reqq"@));
        assoc::lemma_index_unique(pairs, at_reqq, "reqq"@);
    } else {
        assert forall|i: int| !assoc::key_at(pairs, i, "reqq"@) by {}
    }
    if client is Some {
        assert(assoc::key_at(pairs, at_v, "v"@));
        assoc::lemma_index_unique(pairs, at_v, "v"@);
        utf8::encode_utf8_valid_utf8(client->0);
        utf8::encode_utf8_decode_utf8(client->0);
    } else {
        assert forall|i: int| !assoc::key_at(pairs, i, "v"@) by {}
    }
}

/// Appends an entry with a number, if there is one.
fn push_number(pairs: &mut Vec<(String, BencodeValue)>, key: &str, n: Option<usize>)
    ensures
        bencode::pair_models(final(pairs)@) == bencode::pair_models(old(pairs)@) + number_pair(
            key@,
            n,
        ),
{
    if let Some(n) = n {
        let entry = (key.to_owned(), BencodeValue::Integer(n as i64));
        proof {
            bencode::lemma_pair_pushed(pairs@, entry);
            assert(entry.1.model() == BencodeModel::Integer(n as i64));
        }
        pairs.push(entry);
    }
    assert(bencode::pair_models(pairs@) =~= bencode::pair_models(old(pairs)@) + number_pair(
        key@,
        n,
    ));
}

impl Message {
    /// The dictionary of an extension handshake; other messages have none.
    pub fn into_bytes(self) -> (r: Vec<u8>)
        ensures
            r@ == handshake_bytes(self@),
    {
        match self {
            Message::ExtensionHandshake { extensions, client, max_requests, metadata_size } => {
                let mut codes: Vec<(String, BencodeValue)> = Vec::new();
                let mut i: usize = 0;
                while i < extensions.entries.len()
                    invariant
                        i <= extensions.entries@.len(),
                        codes@.len() == i,
                        forall|j: int|
                            0 <= j < i ==> (#[trigger] codes@[j]).0@ == extensions@[j].0
                                && codes@[j].1.model() == BencodeModel::Integer(
                                extensions@[j].1 as i64,
                            ),
                    decreases extensions.entries@.len() - i,
                {
                    codes.push(
                        (
                            extensions.entries[i].0.clone(),
                            BencodeValue::Integer(extensions.entries[i].1 as i64),
                        ),
                    );
                    i += 1;
                }
                proof {
                    bencode::lemma_pair_models(codes@);
                    assert(bencode::pair_models(codes@) =~= extension_pairs(extensions@));
                }
                let mut pairs: Vec<(String, BencodeValue)> = Vec::new();
                let entry = ("m".to_owned(), BencodeValue::Dictionary(codes));
                proof {
                    bencode::lemma_pair_pushed(pairs@, entry);
                    assert(entry.1.model() == BencodeModel::Dictionary(
                        bencode::pair_models(codes@),
                    ));
                }
                pairs.push(entry);
                proof {
                    assert(bencode::pair_models(pairs@) =~= seq![
                        ("m"@, BencodeModel::Dictionary(extension_pairs(extensions@))),
                    ]);
                }
                push_number(&mut pairs, "metadata_size", metadata_size);
                push_number(&mut pairs, "reqq", max_requests);
                let ghost shown = text_of(client);
                if let Some(client) = client {
                    let text = bytes::copy_bytes(client.as_str().as_bytes());
                    let entry = ("v".to_owned(), BencodeValue::ByteString(text));
                    proof {
                        bencode::lemma_pair_pushed(pairs@, entry);
                        assert(entry.1.model() == BencodeModel::ByteString(text@));
                    }
                    pairs.push(entry);
                }
                assert(bencode::pair_models(pairs@) =~= handshake_pairs(
                    extensions@,
                    shown,
                    max_requests,
                    metadata_size,
                ));
                BencodeValue::Dictionary(pairs).to_bytes()
            },
            _ => Vec::new(),
        }
    }

    /// Reads an extension handshake.
    pub fn from_extension_handshake_bytes(encoded: &[u8]) -> (r: Result<Message, String>)
        ensures
            match r {
                Ok(m) => parse_handshake(encoded@) == Ok::<_, Seq<char>>(m@) && m.wf()
                    && m is ExtensionHandshake,
                Err(e) => parse_handshake(encoded@) == Err::<MessageModel, _>(e@),
            },
    {
        let root = match BencodeValue::from_bytes(encoded) {
            Ok((Some(root), _)) => root,
            Ok((None, _)) => {
                return Err("Unable to find root dictionary".to_owned());
            },
            Err(e) => {
                return Err(e);
            },
        };
        let codes = match root.required("m") {
            Ok(codes) => codes,
            Err(e) => {
                return Err(e);
            },
        };
        let pairs = match codes.as_dict() {
            Some(pairs) => pairs,
            None => {
                return Err("'m' must be a dictionary".to_owned());
            },
        };
        let ghost models = bencode::pair_models(pairs@);
        let mut extensions = StrMap::new();
        let mut i: usize = 0;
        proof {
            bencode::lemma_pair_models(pairs@);
            assert(models.take(0) =~= Seq::empty());
        }
        while i < pairs.len()
            invariant
                i <= pairs@.len(),
                models == bencode::pair_models(pairs@),
                models.len() == pairs@.len(),
                forall|j: int|
                    0 <= j < pairs@.len() ==> #[trigger] models[j] == (
                        pairs@[j].0@,
                        pairs@[j].1.model(),
                    ),
                bencode::required_entry(root.model(), "m"@) == Ok::<_, Seq<char>>(
                    BencodeModel::Dictionary(models),
                ),
                bencode::value_at(encoded@, 0) matches Parsed::Value(v, _) && v == root.model(),
                extension_codes(models.take(i as int)) == Ok::<_, Seq<char>>(extensions@),
            decreases pairs@.len() - i,
        {
            let ghost seen = models.take(i as int + 1);
            assert(seen.drop_last() =~= models.take(i as int));
            assert(seen.last() == models[i as int]);
            match pairs[i].1.unsigned(pairs[i].0.as_str()) {
                Ok(n) => {
                    let ghost before = extensions@;
                    extensions.entries.push((pairs[i].0.clone(), n as u8));
                    assert(extensions@ =~= before.push((models[i as int].0, n as u8)));
                },
                Err(e) => {
                    proof {
                        lemma_codes_error(models, i as int + 1);
                    }
                    return Err(e);
                },
            }
            i += 1;
        }
        proof {
            assert(models.take(i as int) =~= models);
            lemma_extension_codes(models);
            assert(assoc::distinct_keys(models));
            assert forall|i: int, j: int| 0 <= i < j < extensions@.len() implies (
            #[trigger] extensions@[i]).0 != (#[trigger] extensions@[j]).0 by {
                assert(models[i].0 != models[j].0);
            }
        }
        let client = match root.optional_string("v") {
            Ok(client) => client,
            Err(e) => {
                return Err(e);
            },
        };
        let max_requests = match root.optional_unsigned("reqq") {
            Ok(Some(n)) => Some(n as usize),
            Ok(None) => None,
            Err(e) => {
                return Err(e);
            },
        };
        let metadata_size = match root.optional_unsigned("metadata_size") {
            Ok(Some(n)) => Some(n as usize),
            Ok(None) => None,
            Err(e) => {
                return Err(e);
            },
        };
        Ok(Message::ExtensionHandshake { extensions, client, max_requests, metadata_size })
    }
}

/// Where the first entries have an error, all have the same.
proof fn lemma_codes_error(pairs: Seq<(Seq<char>, BencodeModel)>, n: int)
    requires
        0 <= n <= pairs.len(),
        extension_codes(pairs.take(n)) is Err,
    ensures
        extension_codes(pairs) == extension_codes(pairs.take(n)),
    decreases pairs.len(),
{
    if n < pairs.len() {
        assert(pairs.drop_last().take(n) =~= pairs.take(n));
        lemma_codes_error(pairs.drop_last(), n);
    } else {
        assert(pairs.take(n) =~= pairs);
    }
}

/// A block, by the request that asks for it.
pub type RequestKey = (usize, usize, usize);

/// When requests were sent, in nanoseconds.
#[derive(Debug)]
pub struct RequestTimes {
    pub entries: Vec<(RequestKey, u64)>,
}

/// Entry `i` is the one for `key`.
pub open spec fn sent_at(s: Seq<(RequestKey, u64)>, i: int, key: RequestKey) -> bool {
    0 <= i < s.len() && s[i].0 == key
}

/// When the request `key` was sent, if it was.
pub open spec fn time_of(s: Seq<(RequestKey, u64)>, key: RequestKey) -> Option<u64> {
    if exists|i: int| sent_at(s, i, key) {
        Some(s[choose|i: int| sent_at(s, i, key)].1)
    } else {
        None
    }
}

impl RequestTimes {
    /// No request has two times.
    pub open spec fn wf(self) -> bool {
        forall|i: int, j: int|
            0 <= i < j < self.entries@.len() ==> (#[trigger] self.entries@[i]).0 != (
            #[trigger] self.entries@[j]).0
    }

    /// When a request was sent, if it was.
    pub open spec fn time(self, key: RequestKey) -> Option<u64> {
        time_of(self.entries@, key)
    }

    /// No request sent.
    pub fn new() -> (r: RequestTimes)
        ensures
            r.wf(),
            forall|key: RequestKey| #[trigger] r.time(key) is None,
    {
        RequestTimes { entries: Vec::new() }
    }

    fn find(&self, key: RequestKey) -> (r: Option<usize>)
        requires
            self.wf(),
        ensures
            match r {
                Some(i) => sent_at(self.entries@, i as int, key) && self.time(key) == Some(
                    self.entries@[i as int].1,
                ),
                None => self.time(key) is None && forall|i: int| !sent_at(self.entries@, i, key),
            },
    {
        let mut i: usize = 0;
        while i < self.entries.len()
            invariant
                i <= self.entries@.len(),
                self.wf(),
                forall|j: int| 0 <= j < i ==> (#[trigger] self.entries@[j]).0 != key,
            decreases self.entries@.len() - i,
        {
            let entry = self.entries[i];
            if entry.0.0 == key.0 && entry.0.1 == key.1 && entry.0.2 == key.2 {
                proof {
                    lemma_time_unique(self.entries@, i as int, key);
                }
                return Some(i);
            }
            i += 1;
        }
        assert forall|j: int| !sent_at(self.entries@, j, key) by {
            if 0 <= j < self.entries@.len() {
                assert(self.entries@[j].0 != key);
            }
        }
        None
    }

    /// Takes note of when a request is sent.
    pub fn insert(&mut self, key: RequestKey, now: u64)
        requires
            old(self).wf(),
        ensures
            final(self).wf(),
            forall|k: RequestKey| #[trigger]
                final(self).time(k) == if k == key {
                    Some(now)
                } else {
                    old(self).time(k)
                },
    {
        let ghost before = self.entries@;
        match self.find(key) {
            Some(i) => {
                self.entries[i] = (key, now);
                proof {
                    let after = self.entries@;
                    assert forall|k: RequestKey| #[trigger]
                        time_of(after, k) == if k == key {
                            Some(now)
                        } else {
                            time_of(before, k)
                        } by {
                        if k == key {
                            lemma_time_unique(after, i as int, k);
                        } else {
                            lemma_same_time(before, after, k, |j: int| j, |j: int| j);
                        }
                    }
                }
            },
            None => {
                proof {
                    assert forall|j: int| 0 <= j < before.len() implies (#[trigger] before[j]).0
                        != key by {
                        assert(!sent_at(before, j, key));
                    }
                }
                self.entries.push((key, now));
                proof {
                    let after = self.entries@;
                    assert forall|k: RequestKey| #[trigger]
                        time_of(after, k) == if k == key {
                            Some(now)
                        } else {
                            time_of(before, k)
                        } by {
                        if k == key {
                            lemma_time_unique(after, before.len() as int, k);
                        } else {
                            lemma_same_time(before, after, k, |j: int| j, |j: int| j);
                        }
                    }
                }
            },
        }
    }

    /// Takes the time of a request out.
    pub fn remove(&mut self, key: RequestKey) -> (r: Option<u64>)
        requires
            old(self).wf(),
        ensures
            final(self).wf(),
            r == old(self).time(key),
            forall|k: RequestKey| #[trigger]
                final(self).time(k) == if k == key {
                    None
                } else {
                    old(self).time(k)
                },
    {
        let ghost before = self.entries@;
        match self.find(key) {
            Some(i) => {
                let entry = self.entries.remove(i);
                proof {
                    let after = self.entries@;
                    assert forall|k: RequestKey| #[trigger]
                        time_of(after, k) == if k == key {
                            None
                        } else {
                            time_of(before, k)
                        } by {
                        if k == key {
                            assert forall|j: int| !sent_at(after, j, k) by {
                                if 0 <= j < i {
                                    assert(before[j].0 != before[i as int].0);
                                } else if i <= j < after.len() {
                                    assert(before[i as int].0 != before[j + 1].0);
                                }
                            }
                        } else {
                            lemma_same_time(
                                before,
                                after,
                                k,
                                |j: int|
                                    if j < i {
                                        j
                                    } else {
                                        j - 1
                                    },
                                |j: int|
                                    if j < i {
                                        j
                                    } else {
                                        j + 1
                                    },
                            );
                        }
                    }
                }
                Some(entry.1)
            },
            None => None,
        }
    }
}

/// With one time to a request, the one that is found is the only one.
proof fn lemma_time_unique(s: Seq<(RequestKey, u64)>, i: int, key: RequestKey)
    requires
        forall|i: int, j: int|
            0 <= i < j < s.len() ==> (#[trigger] s[i]).0 != (#[trigger] s[j]).0,
        sent_at(s, i, key),
    ensures
        time_of(s, key) == Some(s[i].1),
{
    let j = choose|j: int| sent_at(s, j, key);
    assert(sent_at(s, j, key));
    if i < j {
        assert(s[i].0 != s[j].0);
    } else if j < i {
        assert(s[j].0 != s[i].0);
    }
}

/// Lists that hold the same entry for a request have the same time for it.
proof fn lemma_same_time(
    a: Seq<(RequestKey, u64)>,
    b: Seq<(RequestKey, u64)>,
    key: RequestKey,
    there: spec_fn(int) -> int,
    back: spec_fn(int) -> int,
)
    requires
        forall|i: int, j: int|
            0 <= i < j < a.len() ==> (#[trigger] a[i]).0 != (#[trigger] a[j]).0,
        forall|i: int, j: int|
            0 <= i < j < b.len() ==> (#[trigger] b[i]).0 != (#[trigger] b[j]).0,
        forall|i: int| #[trigger] sent_at(a, i, key) ==> sent_at(b, there(i), key) && b[there(i)]
            == a[i],
        forall|i: int| #[trigger] sent_at(b, i, key) ==> sent_at(a, back(i), key),
    ensures
        time_of(a, key) == time_of(b, key),
{
    if exists|i: int| sent_at(a, i, key) {
        let i = choose|i: int| sent_at(a, i, key);
        lemma_time_unique(a, i, key);
        lemma_time_unique(b, there(i), key);
    } else if exists|i: int| sent_at(b, i, key) {
        let i = choose|i: int| sent_at(b, i, key);
        assert(sent_at(a, back(i), key));
    }
}

/// A number of a message as it is sent.
pub open spec fn wire_number(n: usize) -> Seq<u8> {
    number::be32(n as u32)
}

/// What is sent of a message behind its length, with the codes that the peer
/// wants its extension messages to have.
pub open spec fn payload(m: MessageModel, extensions: Seq<(Seq<char>, u8)>) -> Seq<u8> {
    match m {
        MessageModel::Bitfield(bits) => seq![5u8] + bits,
        MessageModel::Have { index } => seq![4u8] + wire_number(index),
        MessageModel::Request { index, begin, length } => seq![6u8] + wire_number(index)
            + wire_number(begin) + wire_number(length),
        MessageModel::Cancel { index, begin, length } => seq![8u8] + wire_number(index)
            + wire_number(begin) + wire_number(length),
        MessageModel::Piece { index, begin, piece, .. } => seq![7u8] + wire_number(index)
            + wire_number(begin) + piece,
        MessageModel::Choked(choked) => if choked {
            seq![0u8]
        } else {
            seq![1u8]
        },
        MessageModel::Interested(interested) => if interested {
            seq![2u8]
        } else {
            seq![3u8]
        },
        MessageModel::Reject { index, begin, length } => seq![16u8] + wire_number(index)
            + wire_number(begin) + wire_number(length),
        MessageModel::HaveAll => seq![14u8],
        MessageModel::HaveNone => seq![15u8],
        MessageModel::Suggest { index } => seq![13u8] + wire_number(index),
        MessageModel::AllowedFast { index } => seq![17u8] + wire_number(index),
        MessageModel::DHTPort { port } => seq![9u8] + number::be16(port),
        MessageModel::ExtensionHandshake { .. } => seq![20u8, 0u8] + handshake_bytes(m),
        MessageModel::Metadata(metadata) => seq![
            20u8,
            assoc::lookup(extensions, "ut_metadata"@)->0,
        ] + metadata::message_bytes(metadata),
        MessageModel::KeepAlive => Seq::empty(),
        MessageModel::PEX(_) => Seq::empty(),
        MessageModel::UnsupportedExtension { .. } => Seq::empty(),
        MessageModel::Unsupported { .. } => Seq::empty(),
    }
}

/// What a connection's writer wakes up to.
#[derive(Debug)]
pub enum Turn {
    /// A message that is to be sent.
    Given(Message),
    /// Nothing was sent for as long as a connection may be idle.
    Idle,
    /// Nothing more is going to be sent.
    Closed,
}

/// What stands behind the length of a frame.
#[derive(Clone, Copy, Debug, PartialEq, Eq, Structural)]
pub enum Frame {
    /// Nothing: the frame is a sign of life.
    KeepAlive,
    /// A code, and the bytes of the message with that code.
    Body,
}

/// A message as it is sent: the length of what follows, and what follows.
pub open spec fn framed(m: MessageModel, extensions: Seq<(Seq<char>, u8)>) -> Seq<u8> {
    number::be32(payload(m, extensions).len() as u32) + payload(m, extensions)
}

/// The code and three numbers.
fn block_payload(code: u8, index: usize, begin: usize, length: usize) -> (r: Vec<u8>)
    ensures
        r@ == seq![code] + wire_number(index) + wire_number(begin) + wire_number(length),
{
    let mut r: Vec<u8> = Vec::new();
    r.push(code);
    number::push_be32(&mut r, #[verifier::truncate] (index as u32));
    number::push_be32(&mut r, #[verifier::truncate] (begin as u32));
    number::push_be32(&mut r, #[verifier::truncate] (length as u32));
    assert(r@ =~= seq![code] + wire_number(index) + wire_number(begin) + wire_number(length));
    r
}

/// The code and one number.
fn index_payload(code: u8, index: usize) -> (r: Vec<u8>)
    ensures
        r@ == seq![code] + wire_number(index),
{
    let mut r: Vec<u8> = Vec::new();
    r.push(code);
    number::push_be32(&mut r, #[verifier::truncate] (index as u32));
    assert(r@ =~= seq![code] + wire_number(index));
    r
}

/// A code alone.
fn bare_payload(code: u8) -> (r: Vec<u8>)
    ensures
        r@ == seq![code],
{
    let mut r: Vec<u8> = Vec::new();
    r.push(code);
    r
}

/// What is sent of a message behind its length.
fn payload_of(message: Message, extensions: &StrMap) -> (r: Vec<u8>)
    requires
        extensions.wf(),
        message is Metadata ==> assoc::has_key(extensions@, "ut_metadata"@),
    ensures
        r@ == payload(message@, extensions@),
{
    match message {
        Message::Bitfield(bitfield) => {
            let mut r = bare_payload(5);
            bytes::append_bytes(&mut r, bitfield.as_bytes());
            r
        },
        Message::Have { index } => index_payload(4, index),
        Message::Request { index, begin, length } => block_payload(6, index, begin, length),
        Message::Cancel { index, begin, length } => block_payload(8, index, begin, length),
        Message::Piece { index, begin, piece, .. } => {
            let mut r = index_payload(7, index);
            number::push_be32(&mut r, #[verifier::truncate] (begin as u32));
            bytes::append_bytes(&mut r, piece.as_slice());
            r
        },
        Message::Choked(choked) => bare_payload(
            if choked {
                0
            } else {
                1
            },
        ),
        Message::Interested(interested) => bare_payload(
            if interested {
                2
            } else {
                3
            },
        ),
        Message::Reject { index, begin, length } => block_payload(16, index, begin, length),
        Message::HaveAll => bare_payload(14),
        Message::HaveNone => bare_payload(15),
        Message::Suggest { index } => index_payload(13, index),
        Message::AllowedFast { index } => index_payload(17, index),
        Message::DHTPort { port } => {
            let mut r = bare_payload(9);
            number::push_be16(&mut r, port);
            r
        },
        Message::ExtensionHandshake { extensions, client, max_requests, metadata_size } => {
            let mut r = bare_payload(20);
            r.push(0);
            let handshake = Message::ExtensionHandshake {
                extensions,
                client,
                max_requests,
                metadata_size,
            };
            bytes::append_bytes(&mut r, handshake.into_bytes().as_slice());
            assert(r@ =~= seq![20u8, 0u8] + handshake_bytes(message@));
            r
        },
        Message::Metadata(metadata) => {
            let mut r = bare_payload(20);
            match extensions.get("ut_metadata") {
                Some(code) => {
                    r.push(code);
                },
                None => {},
            }
            bytes::append_bytes(&mut r, metadata.into_bytes().as_slice());
            assert(r@ =~= payload(message@, extensions@));
            r
        },
        Message::KeepAlive => Vec::new(),
        Message::PEX(_) => Vec::new(),
        Message::UnsupportedExtension { .. } => Vec::new(),
        Message::Unsupported { .. } => Vec::new(),
    }
}

/// How long a message of a kind has to be, whether it may be longer, and what
/// the kind is called.
pub open spec fn expected_length(code: u8) -> Option<(nat, bool, Seq<char>)> {
    if code == 5 {
        Some((2, true, "Bitfield"@))
    } else if code == 4 {
        Some((5, false, "Have"@))
    } else if code == 6 {
        Some((13, false, "Request"@))
    } else if code == 7 {
        Some((9, true, "Piece"@))
    } else if code == 8 {
        Some((13, false, "Cancel"@))
    } else if code == 0 {
        Some((1, false, "Choke"@))
    } else if code == 1 {
        Some((1, false, "Unchoke"@))
    } else if code == 2 {
        Some((1, false, "Interested"@))
    } else if code == 3 {
        Some((1, false, "Uninterested"@))
    } else if code == 16 {
        Some((13, false, "Reject"@))
    } else if code == 14 {
        Some((1, false, "HaveAll"@))
    } else if code == 15 {
        Some((1, false, "HaveNone"@))
    } else if code == 13 {
        Some((5, false, "suggest"@))
    } else if code == 17 {
        Some((5, false, "AllowFast"@))
    } else if code == 9 {
        Some((3, false, "DHTPort"@))
    } else {
        None
    }
}

/// Whether a length is right.
pub open spec fn length_ok(expected: nat, actual: nat, at_least: bool) -> bool {
    if at_least {
        actual >= expected
    } else {
        actual == expected
    }
}

/// What is said of a length that is wrong.
pub open spec fn length_complaint(
    expected: nat,
    actual: nat,
    at_least: bool,
    op: Seq<char>,
) -> Seq<char> {
    "The length of a "@ + op + " payloud should be"@ + (if at_least {
        " at least "@
    } else {
        ""@
    }) + " "@ + number::decimal(expected) + ", got "@ + number::decimal(actual)
}

/// What is wrong with the length of a message, if anything.
pub open spec fn length_error(code: u8, length: nat) -> Option<Seq<char>> {
    match expected_length(code) {
        None => None,
        Some((expected, at_least, op)) => if length_ok(expected, length, at_least) {
            None
        } else {
            Some(length_complaint(expected, length, at_least, op))
        },
    }
}

/// The number at `at` of a message.
pub open spec fn wire_number_at(s: Seq<u8>, at: int) -> usize {
    number::be32_value(s.subrange(at, at + 4)) as usize
}

/// How long ago `then` was.
pub open spec fn since(then: u64, now: u64) -> u64 {
    if now >= then {
        (now - then) as u64
    } else {
        0
    }
}

/// How long the answer to a request took, where the request is known.
pub open spec fn response_time(times: RequestTimes, key: RequestKey, now: u64) -> Option<u64> {
    match times.time(key) {
        Some(then) => Some(since(then, now)),
        None => None,
    }
}

/// The message with a code and the bytes behind it, or why there is none.
pub open spec fn message_of(code: u8, s: Seq<u8>, times: RequestTimes, now: u64) -> Result<
    MessageModel,
    Seq<char>,
> {
    if code == 5 {
        Ok(MessageModel::Bitfield(s))
    } else if code == 4 {
        Ok(MessageModel::Have { index: wire_number_at(s, 0) })
    } else if code == 6 {
        Ok(
            MessageModel::Request {
                index: wire_number_at(s, 0),
                begin: wire_number_at(s, 4),
                length: wire_number_at(s, 8),
            },
        )
    } else if code == 7 {
        let index = wire_number_at(s, 0);
        let begin = wire_number_at(s, 4);
        let piece = s.skip(8);
        Ok(
            MessageModel::Piece {
                index,
                begin,
                piece,
                response_time: response_time(times, (index, begin, piece.len() as usize), now),
            },
        )
    } else if code == 8 {
        Ok(
            MessageModel::Cancel {
                index: wire_number_at(s, 0),
                begin: wire_number_at(s, 4),
                length: wire_number_at(s, 8),
            },
        )
    } else if code == 0 {
        Ok(MessageModel::Choked(true))
    } else if code == 1 {
        Ok(MessageModel::Choked(false))
    } else if code == 2 {
        Ok(MessageModel::Interested(true))
    } else if code == 3 {
        Ok(MessageModel::Interested(false))
    } else if code == 16 {
        Ok(
            MessageModel::Reject {
                index: wire_number_at(s, 0),
                begin: wire_number_at(s, 4),
                length: wire_number_at(s, 8),
            },
        )
    } else if code == 14 {
        Ok(MessageModel::HaveAll)
    } else if code == 15 {
        Ok(MessageModel::HaveNone)
    } else if code == 13 {
        Ok(MessageModel::Suggest { index: wire_number_at(s, 0) })
    } else if code == 17 {
        Ok(MessageModel::AllowedFast { index: wire_number_at(s, 0) })
    } else if code == 9 {
        Ok(MessageModel::DHTPort { port: number::be16_value(s) as u16 })
    } else if code == 20 {
        extension_message_of(s[0], s.skip(1))
    } else {
        Ok(MessageModel::Unsupported { type_byte: code })
    }
}

/// The extension message with a code and the bytes behind it, or why there is
/// none.
pub open spec fn extension_message_of(code: u8, s: Seq<u8>) -> Result<MessageModel, Seq<char>> {
    if code == 0 {
        parse_handshake(s)
    } else if code == PEX_ID {
        match pex::parse(s) {
            Ok(m) => Ok(MessageModel::PEX(m)),
            Err(e) => Err(e),
        }
    } else if code == METADATA_ID {
        match metadata::parse(s) {
            Ok(m) => Ok(MessageModel::Metadata(m)),
            Err(e) => Err(e),
        }
    } else {
        Ok(MessageModel::UnsupportedExtension { type_byte: code })
    }
}

/// The length that a frame begins with.
pub open spec fn frame_length(s: Seq<u8>) -> int {
    number::be32_value(s.take(4))
}

/// How many bytes the frame that some bytes begin with takes: the four of its
/// length, and as many as they say.
pub open spec fn frame_size(s: Seq<u8>) -> int {
    4 + frame_length(s)
}

/// What a frame of a length is.
pub open spec fn frame_of(length: int) -> Frame {
    if length == 0 {
        Frame::KeepAlive
    } else {
        Frame::Body
    }
}

/// The message of the frame that some bytes begin with, or why there is none.
pub open spec fn framed_message(s: Seq<u8>, times: RequestTimes, now: u64) -> Result<
    MessageModel,
    Seq<char>,
> {
    match frame_of(frame_length(s)) {
        Frame::KeepAlive => Ok(MessageModel::KeepAlive),
        Frame::Body => match length_error(s[4], frame_length(s) as nat) {
            Some(e) => Err(e),
            None => message_of(s[4], s.subrange(5, frame_size(s)), times, now),
        },
    }
}

/// The codes that the peer wants its extension messages to have, after a message.
pub open spec fn extensions_after(before: Seq<(Seq<char>, u8)>, m: MessageModel) -> Seq<
    (Seq<char>, u8),
> {
    match m {
        MessageModel::ExtensionHandshake { extensions, .. } => assoc::extended(before, extensions),
        _ => before,
    }
}

/// A peer that has shaken hands.
#[derive(Debug)]
pub struct BitTorrent {
    pub name: String,
    pub id: PeerId,
    pub supports_fast: bool,
    pub supports_dht: bool,
}

/// The nineteen bytes that name the protocol.
pub open spec fn protocol_name() -> Seq<u8> {
    seq![
        66u8, 105u8, 116u8, 84u8, 111u8, 114u8, 114u8, 101u8, 110u8, 116u8, 32u8, 112u8, 114u8,
        111u8, 116u8, 111u8, 99u8, 111u8, 108u8,
    ]
}

/// A handshake: the protocol, the extensions that are supported, the torrent and
/// the peer.
pub open spec fn greeting(info_hash: Sha1Hash, id: PeerId) -> Seq<u8> {
    seq![19u8] + protocol_name() + seq![0u8, 0u8, 0u8, 0u8, 0u8, 0x10u8, 0u8, 0x05u8]
        + info_hash.bytes@ + id.bytes@
}

/// A handshake says that the fast extension is supported.
pub open spec fn greets_fast(s: Seq<u8>) -> bool {
    s[27] & 0x04 > 0
}

/// A handshake says that the hash table is supported.
pub open spec fn greets_dht(s: Seq<u8>) -> bool {
    s[27] & 0x01 > 0
}

/// What is wrong with the answer to a handshake, if anything.
pub open spec fn greeting_error(
    s: Seq<u8>,
    info_hash: Sha1Hash,
    expected: Option<PeerId>,
) -> Option<Seq<char>> {
    if s[0] != 19 {
        Some("expected handshake response to start with 19"@)
    } else if s.subrange(1, 20) != protocol_name() {
        Some("expected handshake response to have 'BitTorrent protocol'"@)
    } else if s.subrange(28, 48) != info_hash.bytes@ {
        Some("expected handshake response to have same info hash"@)
    } else if expected is Some && s.subrange(48, 68) != expected->0.bytes@ {
        Some("expected handshake response to have right peer id"@)
    } else {
        None
    }
}

/// Whether some bytes stand at `at`.
fn bytes_stand(s: &[u8], at: usize, part: &[u8]) -> (r: bool)
    requires
        at + part@.len() <= s@.len(),
    ensures
        r == (s@.subrange(at as int, at + part@.len()) == part@),
{
    let total = s.len();
    let mut i: usize = 0;
    while i < part.len()
        invariant
            i <= part@.len(),
            total == s@.len(),
            at + part@.len() <= s@.len(),
            forall|j: int| 0 <= j < i ==> s@[at + j] == part@[j],
        decreases part@.len() - i,
    {
        if s[at + i] != part[i] {
            assert(s@.subrange(at as int, at + part@.len())[i as int] != part@[i as int]);
            return false;
        }
        i += 1;
    }
    assert(s@.subrange(at as int, at + part@.len()) =~= part@);
    true
}

/// The name of the protocol, as bytes.
fn protocol_bytes() -> (r: [u8; 19])
    ensures
        r@ == protocol_name(),
{
    let r: [u8; 19] = [
        66,
        105,
        116,
        84,
        111,
        114,
        114,
        101,
        110,
        116,
        32,
        112,
        114,
        111,
        116,
        111,
        99,
        111,
        108,
    ];
    assert(r@ =~= protocol_name());
    r
}

impl BitTorrent {
    /// The handshake to send to a peer.
    pub fn greet(info_hash: &Sha1Hash, local_id: &PeerId) -> (r: Vec<u8>)
        ensures
            r@ == greeting(*info_hash, *local_id),
            r@.len() == 68,
    {
        let mut r: Vec<u8> = Vec::new();
        r.push(19);
        let name = protocol_bytes();
        bytes::append_bytes(&mut r, name.as_slice());
        let reserved: [u8; 8] = [0, 0, 0, 0, 0, 0x10, 0, 0x05];
        bytes::append_bytes(&mut r, reserved.as_slice());
        bytes::append_bytes(&mut r, info_hash.bytes.as_slice());
        bytes::append_bytes(&mut r, local_id.bytes.as_slice());
        assert(r@ =~= greeting(*info_hash, *local_id));
        r
    }

    /// Takes the answer to a handshake: the peer, or what is wrong with it.
    pub fn handshake(
        name: String,
        response: &[u8],
        info_hash: &Sha1Hash,
        expected: Option<PeerId>,
    ) -> (r: Result<BitTorrent, String>)
        requires
            response@.len() == 68,
        ensures
            match r {
                Ok(peer) => {
                    &&& greeting_error(response@, *info_hash, expected) is None
                    &&& peer.name@ == name@
                    &&& peer.id.bytes@ == response@.subrange(48, 68)
                    &&& peer.supports_fast == greets_fast(response@)
                    &&& peer.supports_dht == greets_dht(response@)
                },
                Err(e) => greeting_error(response@, *info_hash, expected) == Some(e@),
            },
    {
        if response[0] != 19 {
            return Err("expected handshake response to start with 19".to_owned());
        }
        let protocol = protocol_bytes();
        if !bytes_stand(response, 1, protocol.as_slice()) {
            return Err("expected handshake response to have 'BitTorrent protocol'".to_owned());
        }
        if !bytes_stand(response, 28, info_hash.bytes.as_slice()) {
            return Err("expected handshake response to have same info hash".to_owned());
        }
        if let Some(id) = expected {
            if !bytes_stand(response, 48, id.bytes.as_slice()) {
                return Err("expected handshake response to have right peer id".to_owned());
            }
        }
        let mut id: [u8; 20] = [0u8;20];
        let mut i: usize = 0;
        while i < 20
            invariant
                i <= 20,
                response@.len() == 68,
                forall|j: int| 0 <= j < i ==> id@[j] == response@[48 + j],
            decreases 20 - i,
        {
            id[i] = response[48 + i];
            i += 1;
        }
        assert(id@ =~= response@.subrange(48, 68));
        Ok(
            BitTorrent {
                name,
                id: PeerId { bytes: id },
                supports_fast: response[27] & 0x04 > 0,
                supports_dht: response[27] & 0x01 > 0,
            },
        )
    }

    /// The first message to a peer: the extensions that are supported.
    pub fn extension_greeting() -> (r: Message)
        ensures
            r@ == (MessageModel::ExtensionHandshake {
                extensions: seq![("ut_metadata"@, METADATA_ID), ("ut_pex"@, PEX_ID)],
                client: Some("custom"@),
                max_requests: Some(70),
                metadata_size: None,
            }),
            r.wf(),
    {
        let mut entries: Vec<(String, u8)> = Vec::new();
        entries.push(("ut_metadata".to_owned(), METADATA_ID));
        entries.push(("ut_pex".to_owned(), PEX_ID));
        let extensions = StrMap { entries };
        proof {
            reveal_strlit("ut_metadata");
            reveal_strlit("ut_pex");
            assert("ut_metadata"@.len() != "ut_pex"@.len());
            assert(extensions@ =~= seq![("ut_metadata"@, METADATA_ID), ("ut_pex"@, PEX_ID)]);
        }
        Message::ExtensionHandshake {
            extensions,
            client: Some("custom".to_owned()),
            max_requests: Some(70),
            metadata_size: None,
        }
    }

    /// The bytes to send for a message: its length and its contents. `now` is in
    /// nanoseconds.
    pub fn send(
        message: Message,
        request_times: &mut RequestTimes,
        extensions: &StrMap,
        now: u64,
    ) -> (r: Result<Vec<u8>, String>)
        requires
            extensions.wf(),
            old(request_times).wf(),
            message is Metadata ==> assoc::has_key(extensions@, "ut_metadata"@),
        ensures
            final(request_times).wf(),
            match r {
                Ok(bytes) => payload(message@, extensions@).len() <= u32::MAX && bytes@ == framed(
                    message@,
                    extensions@,
                ),
                Err(e) => payload(message@, extensions@).len() > u32::MAX && e@
                    == "out of range integral type conversion attempted"@,
            },
            forall|key: RequestKey| #[trigger]
                final(request_times).time(key) == if message@ == (MessageModel::Request {
                    index: key.0,
                    begin: key.1,
                    length: key.2,
                }) {
                    Some(now)
                } else {
                    old(request_times).time(key)
                },
    {
        let ghost view = message@;
        if let Message::Request { index, begin, length } = message {
            request_times.insert((index, begin, length), now);
        }
        let payload = payload_of(message, extensions);
        if payload.len() as u64 > 0xffff_ffff {
            return Err("out of range integral type conversion attempted".to_owned());
        }
        let mut r: Vec<u8> = Vec::new();
        number::push_be32(&mut r, payload.len() as u32);
        bytes::append_bytes(&mut r, payload.as_slice());
        assert(r@ =~= number::be32(payload@.len() as u32) + payload@);
        Ok(r)
    }

    /// Whether a length is right.
    pub fn check_length(expected: usize, actual: usize, at_least: bool, op: &str) -> (r: Result<
        (),
        String,
    >)
        ensures
            match r {
                Ok(()) => length_ok(expected as nat, actual as nat, at_least),
                Err(e) => !length_ok(expected as nat, actual as nat, at_least) && e@
                    == length_complaint(expected as nat, actual as nat, at_least, op@),
            },
    {
        let ok = if at_least {
            actual >= expected
        } else {
            actual == expected
        };
        if ok {
            return Ok(());
        }
        let mut e = "The length of a ".to_owned();
        e.append(op);
        e.append(" payloud should be");
        e.append(
            if at_least {
                " at least "
            } else {
                ""
            },
        );
        e.append(" ");
        number::push_decimal(&mut e, expected as u64);
        e.append(", got ");
        number::push_decimal(&mut e, actual as u64);
        Err(e)
    }

    /// What a connection's writer sends next: what is given to it, or a sign of
    /// life where nothing was for [`KEEP_ALIVE_SECONDS`]. It ends where nothing
    /// more can come.
    pub fn next_message(turn: Turn) -> (r: Option<Message>)
        ensures
            match turn {
                Turn::Given(m) => r matches Some(sent) && sent == m,
                Turn::Idle => r matches Some(sent) && sent@ == MessageModel::KeepAlive,
                Turn::Closed => r is None,
            },
    {
        match turn {
            Turn::Given(message) => Some(message),
            Turn::Idle => Some(Message::KeepAlive),
            Turn::Closed => None,
        }
    }

    /// What follows the length of a frame: nothing, or a code and the bytes that
    /// [`BitTorrent::expect_payload`] counts.
    pub fn frame(length: usize) -> (r: Frame)
        ensures
            r == frame_of(length as int),
            r is KeepAlive <==> length == 0,
    {
        if length == 0 {
            Frame::KeepAlive
        } else {
            Frame::Body
        }
    }

    /// How many bytes follow the code of a message that is `length` bytes long,
    /// unless that length is wrong.
    pub fn expect_payload(code: u8, length: usize) -> (r: Result<usize, String>)
        requires
            length > 0,
        ensures
            match r {
                Ok(n) => length_error(code, length as nat) is None && n == length - 1,
                Err(e) => length_error(code, length as nat) == Some(e@),
            },
    {
        let checked = match code {
            5 => Self::check_length(2, length, true, "Bitfield"),
            4 => Self::check_length(5, length, false, "Have"),
            6 => Self::check_length(13, length, false, "Request"),
            7 => Self::check_length(9, length, true, "Piece"),
            8 => Self::check_length(13, length, false, "Cancel"),
            0 => Self::check_length(1, length, false, "Choke"),
            1 => Self::check_length(1, length, false, "Unchoke"),
            2 => Self::check_length(1, length, false, "Interested"),
            3 => Self::check_length(1, length, false, "Uninterested"),
            16 => Self::check_length(13, length, false, "Reject"),
            14 => Self::check_length(1, length, false, "HaveAll"),
            15 => Self::check_length(1, length, false, "HaveNone"),
            13 => Self::check_length(5, length, false, "suggest"),
            17 => Self::check_length(5, length, false, "AllowFast"),
            9 => Self::check_length(3, length, false, "DHTPort"),
            _ => Ok(()),
        };
        match checked {
            Ok(()) => Ok(length - 1),
            Err(e) => Err(e),
        }
    }

    /// Takes an extension message in.
    fn receive_extension(payload: &[u8], extensions: &mut StrMap) -> (r: Result<Message, String>)
        requires
            old(extensions).wf(),
            payload@.len() > 0,
        ensures
            final(extensions).wf(),
            match r {
                Ok(m) => extension_message_of(payload@[0], payload@.skip(1)) == Ok::<_, Seq<char>>(
                    m@,
                ) && m.wf() && final(extensions)@ == extensions_after(old(extensions)@, m@),
                Err(e) => extension_message_of(payload@[0], payload@.skip(1)) == Err::<
                    MessageModel,
                    _,
                >(e@) && final(extensions)@ == old(extensions)@,
            },
    {
        let code = payload[0];
        let rest = bytes::copy_range(payload, 1, payload.len());
        assert(rest@ =~= payload@.skip(1));
        if code == 0 {
            match Message::from_extension_handshake_bytes(rest.as_slice()) {
                Ok(message) => {
                    if let Message::ExtensionHandshake { extensions: new, .. } = &message {
                        extensions.extend_from(new);
                    }
                    Ok(message)
                },
                Err(e) => Err(e),
            }
        } else if code == PEX_ID {
            match PEXMessage::from_bytes(rest.as_slice()) {
                Ok(message) => Ok(Message::PEX(message)),
                Err(e) => Err(e),
            }
        } else if code == METADATA_ID {
            match MetadataMessage::from_bytes(rest.as_slice()) {
                Ok(message) => Ok(Message::Metadata(message)),
                Err(e) => Err(e),
            }
        } else {
            Ok(Message::UnsupportedExtension { type_byte: code })
        }
    }

    /// Takes a message in: its code and the bytes behind it, as many as
    /// [`BitTorrent::expect_payload`] says. `now` is in nanoseconds.
    pub fn receive(
        code: u8,
        payload: Vec<u8>,
        request_times: &mut RequestTimes,
        extensions: &mut StrMap,
        now: u64,
    ) -> (r: Result<Message, String>)
        requires
            old(request_times).wf(),
            old(extensions).wf(),
            length_error(code, payload@.len() + 1) is None,
            code == 20 ==> payload@.len() > 0,
            code == 5 ==> payload@.len() * 8 <= usize::MAX,
        ensures
            final(request_times).wf(),
            final(extensions).wf(),
            match r {
                Ok(m) => message_of(code, payload@, *old(request_times), now) == Ok::<
                    _,
                    Seq<char>,
                >(m@) && m.wf() && final(extensions)@ == extensions_after(old(extensions)@, m@),
                Err(e) => message_of(code, payload@, *old(request_times), now) == Err::<
                    MessageModel,
                    _,
                >(e@) && final(extensions)@ == old(extensions)@,
            },
            forall|key: RequestKey| #[trigger]
                final(request_times).time(key) == if code == 7 && key == (
                    wire_number_at(payload@, 0),
                    wire_number_at(payload@, 4),
                    (payload@.len() - 8) as usize,
                ) {
                    None
                } else {
                    old(request_times).time(key)
                },
    {
        let s = payload.as_slice();
        if code == 5 {
            return Ok(Message::Bitfield(Bitfield::from_vec(payload)));
        }
        if code == 4 {
            return Ok(Message::Have { index: number::read_be32(s, 0) as usize });
        }
        if code == 13 {
            return Ok(Message::Suggest { index: number::read_be32(s, 0) as usize });
        }
        if code == 17 {
            return Ok(Message::AllowedFast { index: number::read_be32(s, 0) as usize });
        }
        if code == 6 || code == 8 || code == 16 {
            let index = number::read_be32(s, 0) as usize;
            let begin = number::read_be32(s, 4) as usize;
            let length = number::read_be32(s, 8) as usize;
            return Ok(
                if code == 6 {
                    Message::Request { index, begin, length }
                } else if code == 8 {
                    Message::Cancel { index, begin, length }
                } else {
                    Message::Reject { index, begin, length }
                },
            );
        }
        if code == 7 {
            let index = number::read_be32(s, 0) as usize;
            let begin = number::read_be32(s, 4) as usize;
            let piece = bytes::copy_range(s, 8, s.len());
            assert(piece@ =~= payload@.skip(8));
            let response_time = match request_times.remove((index, begin, piece.len())) {
                Some(then) => Some(
                    if now >= then {
                        now - then
                    } else {
                        0
                    },
                ),
                None => None,
            };
            return Ok(Message::Piece { index, begin, piece, response_time });
        }
        if code == 9 {
            assert(payload@.subrange(0, 2) =~= payload@);
            return Ok(Message::DHTPort { port: number::read_be16(s, 0) });
        }
        if code == 20 {
            return Self::receive_extension(s, extensions);
        }
        Ok(
            match code {
                0 => Message::Choked(true),
                1 => Message::Choked(false),
                2 => Message::Interested(true),
                3 => Message::Interested(false),
                14 => Message::HaveAll,
                15 => Message::HaveNone,
                _ => Message::Unsupported { type_byte: code },
            },
        )
    }
}

/// A handshake that a peer sends for the same torrent is accepted, and shows
/// the peer and that it supports the fast extension and the DHT.
pub proof fn law_greeting_accepted(info_hash: Sha1Hash, id: PeerId)
    ensures
        greeting(info_hash, id).len() == 68,
        greeting_error(greeting(info_hash, id), info_hash, None) is None,
        greeting_error(greeting(info_hash, id), info_hash, Some(id)) is None,
        greeting(info_hash, id).subrange(48, 68) == id.bytes@,
        greeting(info_hash, id)[27] & 0x04 > 0,
        greeting(info_hash, id)[27] & 0x01 > 0,
{
    let s = greeting(info_hash, id);
    assert(s.subrange(1, 20) =~= protocol_name());
    assert(s.subrange(28, 48) =~= info_hash.bytes@);
    assert(s.subrange(48, 68) =~= id.bytes@);
    assert(s[27] == 0x05);
    assert(0x05u8 & 0x04 > 0 && 0x05u8 & 0x01 > 0) by (bit_vector);
}

/// A handshake for another torrent is refused, and so is one of another peer
/// than expected.
pub proof fn law_wrong_greeting_refused(a: Sha1Hash, b: Sha1Hash, x: PeerId, y: PeerId)
    ensures
        a != b ==> greeting_error(greeting(a, x), b, None) is Some,
        x != y ==> greeting_error(greeting(a, x), a, Some(y)) is Some,
{
    let s = greeting(a, x);
    assert(s.subrange(28, 48) =~= a.bytes@);
    assert(s.subrange(48, 68) =~= x.bytes@);
    if a.bytes@ == b.bytes@ {
        assert(a.bytes =~= b.bytes);
    }
    if x.bytes@ == y.bytes@ {
        assert(x.bytes =~= y.bytes);
    }
}

/// The numbers of a message fit the wire, and its other parts can be read back.
pub open spec fn fits_wire(m: MessageModel, extensions: Seq<(Seq<char>, u8)>) -> bool {
    match m {
        MessageModel::KeepAlive => true,
        MessageModel::Choked(_) => true,
        MessageModel::Interested(_) => true,
        MessageModel::Bitfield(bits) => bits.len() > 0,
        MessageModel::Have { index } => index <= u32::MAX,
        MessageModel::Request { index, begin, length } => index <= u32::MAX && begin <= u32::MAX
            && length <= u32::MAX,
        MessageModel::Cancel { index, begin, length } => index <= u32::MAX && begin <= u32::MAX
            && length <= u32::MAX,
        MessageModel::Piece { index, begin, piece, response_time } => index <= u32::MAX && begin
            <= u32::MAX && piece.len() <= usize::MAX && response_time is None,
        MessageModel::Reject { index, begin, length } => index <= u32::MAX && begin <= u32::MAX
            && length <= u32::MAX,
        MessageModel::Suggest { index } => index <= u32::MAX,
        MessageModel::AllowedFast { index } => index <= u32::MAX,
        MessageModel::HaveAll => true,
        MessageModel::HaveNone => true,
        MessageModel::DHTPort { .. } => true,
        MessageModel::ExtensionHandshake { extensions, max_requests, metadata_size, .. } => {
            &&& assoc::distinct_keys(extensions)
            &&& max_requests matches Some(n) ==> n <= i64::MAX
            &&& metadata_size matches Some(n) ==> n <= i64::MAX
        },
        MessageModel::Metadata(metadata) => {
            &&& assoc::lookup(extensions, "ut_metadata"@) == Some(METADATA_ID)
            &&& match metadata {
                MetadataModel::Request { index } => index <= i64::MAX,
                MetadataModel::Data { index, total_size, .. } => index <= i64::MAX && total_size
                    <= i64::MAX,
                MetadataModel::Reject { index } => index <= i64::MAX,
                MetadataModel::Unsupported { .. } => false,
            }
        },
        _ => false,
    }
}

/// A frame takes four bytes and as many as its length says, whatever follows it,
/// and is a sign of life exactly when its length is zero; and the message that
/// was sent is the message that is received, by a peer that has no request of
/// its own for the block in question.
pub proof fn law_message_round_trip(
    m: MessageModel,
    extensions: Seq<(Seq<char>, u8)>,
    times: RequestTimes,
    now: u64,
    rest: Seq<u8>,
)
    requires
        fits_wire(m, extensions),
        payload(m, extensions).len() <= u32::MAX,
        m matches MessageModel::Piece { index, begin, piece, .. } ==> times.time(
            (index, begin, piece.len() as usize),
        ) is None,
    ensures
        ({
            let s = framed(m, extensions) + rest;
            &&& frame_size(s) == framed(m, extensions).len()
            &&& s.skip(frame_size(s)) == rest
            &&& frame_of(frame_length(s)) is KeepAlive <==> m is KeepAlive
            &&& framed_message(s, times, now) == Ok::<_, Seq<char>>(m)
        }),
{
    let p = payload(m, extensions);
    let s = framed(m, extensions) + rest;
    number::lemma_be32(p.len() as u32);
    assert(s.take(4) =~= number::be32(p.len() as u32));
    assert(s.skip(frame_size(s)) =~= rest);
    if !(m is KeepAlive) {
        lemma_payload_round_trip(m, extensions, times, now);
        assert(s[4] == p[0]);
        assert(s.subrange(5, frame_size(s)) =~= p.skip(1));
    }
}

/// What is sent of a message behind its length is read as that message.
proof fn lemma_payload_round_trip(
    m: MessageModel,
    extensions: Seq<(Seq<char>, u8)>,
    times: RequestTimes,
    now: u64,
)
    requires
        fits_wire(m, extensions),
        !(m is KeepAlive),
        m matches MessageModel::Piece { index, begin, piece, .. } ==> times.time(
            (index, begin, piece.len() as usize),
        ) is None,
    ensures
        ({
            let s = payload(m, extensions);
            &&& s.len() > 0
            &&& length_error(s[0], s.len()) is None
            &&& message_of(s[0], s.skip(1), times, now) == Ok::<_, Seq<char>>(m)
        }),
{
    let s = payload(m, extensions);
    let t = s.skip(1);
    match m {
        MessageModel::Bitfield(bits) => {
            assert(t =~= bits);
        },
        MessageModel::Have { index } => {
            lemma_index_wire(4, index);
        },
        MessageModel::Suggest { index } => {
            lemma_index_wire(13, index);
        },
        MessageModel::AllowedFast { index } => {
            lemma_index_wire(17, index);
        },
        MessageModel::Request { index, begin, length } => {
            lemma_block_wire(6, index, begin, length);
        },
        MessageModel::Cancel { index, begin, length } => {
            lemma_block_wire(8, index, begin, length);
        },
        MessageModel::Reject { index, begin, length } => {
            lemma_block_wire(16, index, begin, length);
        },
        MessageModel::Piece { index, begin, piece, .. } => {
            lemma_tail_wire(7, index, begin, piece);
        },
        MessageModel::DHTPort { port } => {
            assert(t =~= number::be16(port));
            number::lemma_be16(port);
        },
        MessageModel::ExtensionHandshake { extensions, client, max_requests, metadata_size } => {
            law_extension_handshake_round_trip(extensions, client, max_requests, metadata_size);
            assert(t.skip(1) =~= handshake_bytes(m));
        },
        MessageModel::Metadata(metadata) => {
            metadata::law_metadata_round_trip(metadata);
            assert(t.skip(1) =~= metadata::message_bytes(metadata));
        },
        _ => {},
    }
}

/// A number that stands in a message is read back.
proof fn lemma_wire_number(s: Seq<u8>, at: int, n: usize)
    requires
        0 <= at,
        at + 4 <= s.len(),
        n <= u32::MAX,
        s.subrange(at, at + 4) == wire_number(n),
    ensures
        wire_number_at(s, at) == n,
{
    number::lemma_be32(n as u32);
}

/// A code and a number are read back.
proof fn lemma_index_wire(code: u8, index: usize)
    requires
        index <= u32::MAX,
    ensures
        ({
            let s = seq![code] + wire_number(index);
            &&& s.len() == 5
            &&& s[0] == code
            &&& wire_number_at(s.skip(1), 0) == index
        }),
{
    let t = (seq![code] + wire_number(index)).skip(1);
    assert(t.subrange(0, 4) =~= wire_number(index));
    lemma_wire_number(t, 0, index);
}

/// A code, two numbers and what follows are read back.
proof fn lemma_tail_wire(code: u8, index: usize, begin: usize, tail: Seq<u8>)
    requires
        index <= u32::MAX,
        begin <= u32::MAX,
    ensures
        ({
            let s = seq![code] + wire_number(index) + wire_number(begin) + tail;
            &&& s.len() == 9 + tail.len()
            &&& s[0] == code
            &&& wire_number_at(s.skip(1), 0) == index
            &&& wire_number_at(s.skip(1), 4) == begin
            &&& s.skip(1).skip(8) == tail
        }),
{
    let s = seq![code] + wire_number(index) + wire_number(begin) + tail;
    let t = s.skip(1);
    assert(t.subrange(0, 4) =~= wire_number(index));
    assert(t.subrange(4, 8) =~= wire_number(begin));
    assert(t.skip(8) =~= tail);
    lemma_wire_number(t, 0, index);
    lemma_wire_number(t, 4, begin);
}

/// A code and three numbers are read back.
proof fn lemma_block_wire(code: u8, index: usize, begin: usize, length: usize)
    requires
        index <= u32::MAX,
        begin <= u32::MAX,
        length <= u32::MAX,
    ensures
        ({
            let s = seq![code] + wire_number(index) + wire_number(begin) + wire_number(length);
            &&& s.len() == 13
            &&& s[0] == code
            &&& wire_number_at(s.skip(1), 0) == index
            &&& wire_number_at(s.skip(1), 4) == begin
            &&& wire_number_at(s.skip(1), 8) == length
        }),
{
    lemma_tail_wire(code, index, begin, wire_number(length));
    let s = seq![code] + wire_number(index) + wire_number(begin) + wire_number(length);
    let t = s.skip(1);
    assert(t.subrange(8, 12) =~= t.skip(8));
    lemma_wire_number(t, 8, length);
}

/// The number that stands at a place of a message.
pub open spec fn worth_at(s: Seq<u8>, at: int) -> nat {
    number::worth(s.subrange(at, at + 4))
}

/// The numbers that a message consists of besides its code.
pub open spec fn numbers_of(m: MessageModel) -> Option<(u8, Seq<usize>)> {
    match m {
        MessageModel::Choked(true) => Some((0, seq![])),
        MessageModel::Choked(false) => Some((1, seq![])),
        MessageModel::Interested(true) => Some((2, seq![])),
        MessageModel::Interested(false) => Some((3, seq![])),
        MessageModel::Have { index } => Some((4, seq![index])),
        MessageModel::Request { index, begin, length } => Some((6, seq![index, begin, length])),
        MessageModel::Cancel { index, begin, length } => Some((8, seq![index, begin, length])),
        MessageModel::Suggest { index } => Some((13, seq![index])),
        MessageModel::HaveAll => Some((14, seq![])),
        MessageModel::HaveNone => Some((15, seq![])),
        MessageModel::Reject { index, begin, length } => Some((16, seq![index, begin, length])),
        MessageModel::AllowedFast { index } => Some((17, seq![index])),
        _ => None,
    }
}

/// Every peer understands what is sent: a message is the code that the protocol
/// gives it, then its numbers in four bytes each, the larger ones first, or what
/// it carries. It is understood only at the length that it has.
pub proof fn law_wire_format(m: MessageModel, extensions: Seq<(Seq<char>, u8)>, k: int, other: nat)
    requires
        fits_wire(m, extensions),
    ensures
        ({
            let s = payload(m, extensions);
            &&& numbers_of(m) matches Some((code, numbers)) ==> {
                &&& s.len() == 1 + 4 * numbers.len()
                &&& s[0] == code
                &&& 0 <= k < numbers.len() ==> worth_at(s, 1 + 4 * k) == numbers[k]
                &&& length_error(code, other) is None <==> other == s.len()
            }
            &&& m matches MessageModel::Bitfield(bits) ==> s.len() == 1 + bits.len() && s[0] == 5
                && s.skip(1) == bits
            &&& m matches MessageModel::Piece { index, begin, piece, .. } ==> {
                &&& s.len() == 9 + piece.len()
                &&& s[0] == 7
                &&& worth_at(s, 1) == index
                &&& worth_at(s, 5) == begin
                &&& s.skip(9) == piece
            }
            &&& m matches MessageModel::DHTPort { port } ==> s.len() == 3 && s[0] == 9
                && number::worth(s.skip(1)) == port
            &&& m is ExtensionHandshake ==> s[0] == 20 && s[1] == 0
            &&& m is Metadata ==> s[0] == 20 && s[1] == METADATA_ID
            &&& m is KeepAlive ==> s.len() == 0
        }),
{
    let s = payload(m, extensions);
    let none: Seq<u8> = Seq::empty();
    match m {
        MessageModel::Bitfield(bits) => {
            assert(s.skip(1) =~= bits);
        },
        MessageModel::Piece { index, begin, piece, .. } => {
            number::law_bytes_worth(0, index as u32, 0, none);
            number::law_bytes_worth(0, begin as u32, 0, none);
            assert(s.subrange(1, 5) =~= wire_number(index));
            assert(s.subrange(5, 9) =~= wire_number(begin));
            assert(s.skip(9) =~= piece);
        },
        MessageModel::DHTPort { port } => {
            number::law_bytes_worth(port, 0, 0, none);
            assert(s.skip(1) =~= number::be16(port));
        },
        _ => {},
    }
    if let Some((code, numbers)) = numbers_of(m) {
        if numbers.len() >= 1 {
            number::law_bytes_worth(0, numbers[0] as u32, 0, none);
            assert(s.subrange(1, 5) =~= wire_number(numbers[0]));
        }
        if numbers.len() == 3 {
            number::law_bytes_worth(0, numbers[1] as u32, 0, none);
            number::law_bytes_worth(0, numbers[2] as u32, 0, none);
            assert(s.subrange(5, 9) =~= wire_number(numbers[1]));
            assert(s.subrange(9, 13) =~= wire_number(numbers[2]));
        }
    }
}

/// How long a peer takes to answer is the time from the request for a block to
/// that block, and no other; it is known only of blocks that were asked for.
pub proof fn law_response_time(
    times: RequestTimes,
    index: usize,
    begin: usize,
    block: Seq<u8>,
    now: u64,
)
    requires
        index <= u32::MAX,
        begin <= u32::MAX,
        block.len() <= usize::MAX,
    ensures
        ({
            let sent = payload(
                MessageModel::Piece { index, begin, piece: block, response_time: None },
                Seq::empty(),
            );
            message_of(sent[0], sent.skip(1), times, now) matches Ok(
                MessageModel::Piece { index: i, begin: b, piece, response_time },
            ) && i == index && b == begin && piece == block && match times.time(
                (index, begin, block.len() as usize),
            ) {
                Some(then) => response_time matches Some(t) && (now >= then ==> t == now - then),
                None => response_time is None,
            }
        }),
{
    lemma_tail_wire(7, index, begin, block);
}

/// A handshake says what it should, at the places where a peer looks: the name of
/// the protocol, what is supported, the torrent and the peer.
pub proof fn law_greeting_fields(info_hash: Sha1Hash, id: PeerId)
    ensures
        ({
            let s = greeting(info_hash, id);
            &&& s.len() == 68
            &&& s[0] == 19
            &&& "BitTorrent protocol"@.len() == 19
            &&& forall|i: int|
                0 <= i < 19 ==> #[trigger] s[1 + i] as char == "BitTorrent protocol"@[i]
            &&& s.subrange(20, 28) == seq![0u8, 0u8, 0u8, 0u8, 0u8, 16u8, 0u8, 5u8]
            &&& s.subrange(28, 48) == info_hash.bytes@
            &&& s.subrange(48, 68) == id.bytes@
        }),
{
    let s = greeting(info_hash, id);
    assert(s.subrange(1, 20) =~= protocol_name());
    assert(s.subrange(20, 28) =~= seq![0u8, 0u8, 0u8, 0u8, 0u8, 16u8, 0u8, 5u8]);
    assert(s.subrange(28, 48) =~= info_hash.bytes@);
    assert(s.subrange(48, 68) =~= id.bytes@);
    reveal_strlit("BitTorrent protocol");
    assert forall|i: int| 0 <= i < 19 implies #[trigger] s[1 + i] as char
        == "BitTorrent protocol"@[i] by {
        assert(s[1 + i] == protocol_name()[i]);
    }
}

/// What a peer supports is what it says in the last of the bytes that are set
/// aside for that: the bit that weighs four is the fast extension, and the one
/// that weighs one is the hash table.
pub proof fn law_greeting_bits(s: Seq<u8>)
    requires
        s.len() == 68,
    ensures
        greets_fast(s) <==> (s[27] / 4) % 2 == 1,
        greets_dht(s) <==> s[27] % 2 == 1,
{
    let b = s[27];
    assert((b & 0x04 > 0) == ((b / 4) % 2 == 1)) by (bit_vector);
    assert((b & 0x01 > 0) == (b % 2 == 1)) by (bit_vector);
}

/// An answer to a handshake is accepted exactly where it is one: of this
/// protocol, for this torrent, and of the peer that was expected, if any was.
pub proof fn law_greeting_checked(s: Seq<u8>, info_hash: Sha1Hash, expected: Option<PeerId>)
    requires
        s.len() == 68,
    ensures
        greeting_error(s, info_hash, expected) is None <==> {
            &&& s[0] == 19
            &&& forall|i: int|
                0 <= i < 19 ==> #[trigger] s[1 + i] as char == "BitTorrent protocol"@[i]
            &&& s.subrange(28, 48) == info_hash.bytes@
            &&& expected matches Some(id) ==> s.subrange(48, 68) == id.bytes@
        },
{
    reveal_strlit("BitTorrent protocol");
    let name = protocol_name();
    assert forall|i: int| 0 <= i < 19 implies name[i] as char == "BitTorrent protocol"@[i] by {}
    if s.subrange(1, 20) == name {
        assert forall|i: int| 0 <= i < 19 implies #[trigger] s[1 + i] as char
            == "BitTorrent protocol"@[i] by {
            assert(s[1 + i] == s.subrange(1, 20)[i]);
        }
    }
    if forall|i: int| 0 <= i < 19 ==> #[trigger] s[1 + i] as char == "BitTorrent protocol"@[i] {
        assert forall|i: int| 0 <= i < 19 implies s.subrange(1, 20)[i] == name[i] by {
            assert(s[1 + i] as char == name[i] as char);
        }
        assert(s.subrange(1, 20) =~= name);
    }
}

/// A dictionary holds a number under a key, or nothing.
pub open spec fn holds_number(v: BencodeModel, key: Seq<char>, n: Option<usize>) -> bool {
    match n {
        Some(n) => bencode::entry(v, key) matches Some(BencodeModel::Integer(i)) && i as usize == n,
        None => bencode::entry(v, key) is None,
    }
}

/// What a peer says of itself is under the keys where peers look for it: its
/// extensions, its name, how many requests it takes, and how large the metadata
/// is.
pub proof fn law_introduction_read(v: BencodeModel)
    ensures
        handshake_of(v) matches Ok(m) ==> {
            m matches MessageModel::ExtensionHandshake {
                extensions,
                client,
                max_requests,
                metadata_size,
            } && {
                &&& holds_number(v, "reqq"@, max_requests)
                &&& holds_number(v, "metadata_size"@, metadata_size)
                &&& match client {
                    Some(name) => bencode::entry(v, "v"@) matches Some(
                        BencodeModel::ByteString(bytes),
                    ) && utf8::valid_utf8(bytes) && utf8::decode_utf8(bytes) == name,
                    None => bencode::entry(v, "v"@) is None,
                }
                &&& bencode::entry(v, "m"@) matches Some(BencodeModel::Dictionary(pairs)) && {
                    &&& pairs.len() == extensions.len()
                    &&& forall|i: int|
                        0 <= i < pairs.len() ==> (#[trigger] extensions[i]).0 == pairs[i].0 && (
                        pairs[i].1 matches BencodeModel::Integer(n) && extensions[i].1 == n as u8)
                }
            }
        },
{
    if let Some(BencodeModel::Dictionary(pairs)) = bencode::entry(v, "m"@) {
        lemma_codes_read(pairs);
    }
}

proof fn lemma_codes_read(pairs: Seq<(Seq<char>, BencodeModel)>)
    ensures
        extension_codes(pairs) matches Ok(codes) ==> {
            &&& codes.len() == pairs.len()
            &&& forall|i: int|
                0 <= i < pairs.len() ==> (#[trigger] codes[i]).0 == pairs[i].0 && (
                pairs[i].1 matches BencodeModel::Integer(n) && codes[i].1 == n as u8)
        },
    decreases pairs.len(),
{
    if pairs.len() > 0 {
        let rest = pairs.drop_last();
        lemma_codes_read(rest);
        if extension_codes(pairs) is Ok {
            let before = extension_codes(rest)->Ok_0;
            let codes = extension_codes(pairs)->Ok_0;
            let last = pairs.len() - 1;
            assert forall|i: int| 0 <= i < pairs.len() implies (#[trigger] codes[i]).0 == pairs[i].0
                && (pairs[i].1 matches BencodeModel::Integer(n) && codes[i].1 == n as u8) by {
                if i < last {
                    assert(codes[i] == before[i]);
                    assert(rest[i] == pairs[i]);
                } else {
                    let n = pairs[last].1->Integer_0;
                    assert((n as u64) as u8 == n as u8);
                }
            }
        }
    }
}

} // verus!
