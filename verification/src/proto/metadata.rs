//! The metadata exchange extension: fetching the info dictionary from peers.

use crate::assoc;
use crate::bencode;
use crate::bencode::{BencodeModel, BencodeValue, Parsed};
use crate::bytes;
use vstd::prelude::*;

verus! {

/// A metadata exchange message.
#[derive(Debug)]
pub enum MetadataMessage {
    Request { index: usize },
    Data { index: usize, piece: Vec<u8>, total_size: usize },
    Reject { index: usize },
    Unsupported { type_code: u64 },
}

/// A metadata exchange message's contents.
#[verifier::ext_equal]
pub enum MetadataModel {
    Request { index: usize },
    Data { index: usize, piece: Seq<u8>, total_size: usize },
    Reject { index: usize },
    Unsupported { type_code: u64 },
}

impl View for MetadataMessage {
    type V = MetadataModel;

    open spec fn view(&self) -> MetadataModel {
        match self {
            MetadataMessage::Request { index } => MetadataModel::Request { index: *index },
            MetadataMessage::Data { index, piece, total_size } => MetadataModel::Data {
                index: *index,
                piece: piece@,
                total_size: *total_size,
            },
            MetadataMessage::Reject { index } => MetadataModel::Reject { index: *index },
            MetadataMessage::Unsupported { type_code } => MetadataModel::Unsupported {
                type_code: *type_code,
            },
        }
    }
}

/// The dictionary that starts a message.
pub open spec fn header(type_code: i64, index: usize) -> BencodeModel {
    BencodeModel::Dictionary(
        seq![
            ("msg_type"@, BencodeModel::Integer(type_code)),
            ("piece"@, BencodeModel::Integer(index as i64)),
        ],
    )
}

/// The dictionary that starts a message with data.
pub open spec fn data_header(index: usize, total_size: usize) -> BencodeModel {
    BencodeModel::Dictionary(
        seq![
            ("msg_type"@, BencodeModel::Integer(1)),
            ("piece"@, BencodeModel::Integer(index as i64)),
            ("total_size"@, BencodeModel::Integer(total_size as i64)),
        ],
    )
}

/// A message's bytes. A message of an unknown type has none.
pub open spec fn message_bytes(m: MetadataModel) -> Seq<u8> {
    match m {
        MetadataModel::Request { index } => bencode::encoded(header(0, index)),
        MetadataModel::Data { index, piece, total_size } => bencode::encoded(
            data_header(index, total_size),
        ) + piece,
        MetadataModel::Reject { index } => bencode::encoded(header(2, index)),
        MetadataModel::Unsupported { .. } => Seq::empty(),
    }
}

/// The number that a dictionary has to have under a key, or why it has none.
pub open spec fn required_unsigned(v: BencodeModel, key: Seq<char>) -> Result<u64, Seq<char>> {
    match bencode::required_entry(v, key) {
        Ok(found) => bencode::as_unsigned(found, key),
        Err(e) => Err(e),
    }
}

/// The message that a dictionary and the bytes behind it make.
pub open spec fn message_of(v: BencodeModel, data: Seq<u8>) -> Result<MetadataModel, Seq<char>> {
    match required_unsigned(v, "msg_type"@) {
        Err(e) => Err(e),
        Ok(code) => if code > 2 {
            Ok(MetadataModel::Unsupported { type_code: code })
        } else {
            match required_unsigned(v, "piece"@) {
                Err(e) => Err(e),
                Ok(index) => if code == 0 {
                    Ok(MetadataModel::Request { index: index as usize })
                } else if code == 2 {
                    Ok(MetadataModel::Reject { index: index as usize })
                } else {
                    match required_unsigned(v, "total_size"@) {
                        Err(e) => Err(e),
                        Ok(total) => Ok(
                            MetadataModel::Data {
                                index: index as usize,
                                piece: data,
                                total_size: total as usize,
                            },
                        ),
                    }
                },
            }
        },
    }
}

/// The message that bytes write, or why they write none.
pub open spec fn parse(s: Seq<u8>) -> Result<MetadataModel, Seq<char>> {
    match bencode::value_at(s, 0) {
        Parsed::Value(v, end) => message_of(v, s.skip(end)),
        Parsed::End => Err("Unable to find root dictionary"@),
        Parsed::Error(e) => Err(e),
    }
}

/// The three keys are different.
proof fn lemma_keys()
    ensures
        "msg_type"@ != "piece"@,
        "msg_type"@ != "total_size"@,
        "piece"@ != "total_size"@,
{
    reveal_strlit("msg_type");
    reveal_strlit("piece");
    reveal_strlit("total_size");
    assert("msg_type"@.len() == 8 && "piece"@.len() == 5 && "total_size"@.len() == 10);
}

/// A message that was written is read back.
pub proof fn law_metadata_round_trip(m: MetadataModel)
    requires
        match m {
            MetadataModel::Request { index } => index <= i64::MAX,
            MetadataModel::Data { index, total_size, .. } => index <= i64::MAX && total_size
                <= i64::MAX,
            MetadataModel::Reject { index } => index <= i64::MAX,
            MetadataModel::Unsupported { .. } => false,
        },
    ensures
        parse(message_bytes(m)) == Ok::<_, Seq<char>>(m),
{
    lemma_keys();
    let s = message_bytes(m);
    let v = match m {
        MetadataModel::Request { index } => header(0, index),
        MetadataModel::Data { index, total_size, .. } => data_header(index, total_size),
        MetadataModel::Reject { index } => header(2, index),
        MetadataModel::Unsupported { .. } => arbitrary(),
    };
    let pairs = v->Dictionary_0;
    bencode::lemma_sound_pairs(pairs);
    let e = bencode::encoded(v);
    assert(s.subrange(0, e.len() as int) =~= e);
    bencode::law_bencode_round_trip(s, 0, v);
    assert(assoc::key_at(pairs, 0, "msg_type"@));
    assoc::lemma_index_unique(pairs, 0, "msg_type"@);
    assert(assoc::key_at(pairs, 1, "piece"@));
    assoc::lemma_index_unique(pairs, 1, "piece"@);
    if m is Data {
        assert(assoc::key_at(pairs, 2, "total_size"@));
        assoc::lemma_index_unique(pairs, 2, "total_size"@);
        assert(s.skip(e.len() as int) =~= m->piece);
    }
}

/// The number under a key that has to be there.
fn unsigned_at(root: &BencodeValue, key: &str) -> (r: Result<u64, String>)
    requires
        root.wf(),
    ensures
        match r {
            Ok(n) => required_unsigned(root.model(), key@) == Ok::<_, Seq<char>>(n),
            Err(e) => required_unsigned(root.model(), key@) == Err::<u64, _>(e@),
        },
{
    match root.required(key) {
        Ok(v) => v.unsigned(key),
        Err(e) => Err(e),
    }
}

impl MetadataMessage {
    /// The message's bytes.
    pub fn into_bytes(self) -> (r: Vec<u8>)
        ensures
            r@ == message_bytes(self@),
    {
        match self {
            MetadataMessage::Request { index } => header_bytes(0, index),
            MetadataMessage::Reject { index } => header_bytes(2, index),
            MetadataMessage::Data { index, piece, total_size } => {
                let mut pairs: Vec<(String, BencodeValue)> = Vec::new();
                pairs.push(("msg_type".to_owned(), BencodeValue::Integer(1)));
                pairs.push(("piece".to_owned(), BencodeValue::Integer(index as i64)));
                pairs.push(("total_size".to_owned(), BencodeValue::Integer(total_size as i64)));
                proof {
                    bencode::lemma_pair_models(pairs@);
                    assert(bencode::pair_models(pairs@) =~= data_header(
                        index,
                        total_size,
                    )->Dictionary_0);
                }
                let mut r = BencodeValue::Dictionary(pairs).to_bytes();
                bytes::append_bytes(&mut r, piece.as_slice());
                r
            },
            MetadataMessage::Unsupported { .. } => Vec::new(),
        }
    }

    /// Reads a message.
    pub fn from_bytes(encoded: &[u8]) -> (r: Result<MetadataMessage, String>)
        ensures
            match r {
                Ok(m) => parse(encoded@) == Ok::<_, Seq<char>>(m@),
                Err(e) => parse(encoded@) == Err::<MetadataModel, _>(e@),
            },
    {
        let (root, end) = match BencodeValue::from_bytes(encoded) {
            Ok((Some(root), end)) => (root, end),
            Ok((None, _)) => {
                return Err("Unable to find root dictionary".to_owned());
            },
            Err(e) => {
                return Err(e);
            },
        };
        let code = match unsigned_at(&root, "msg_type") {
            Ok(code) => code,
            Err(e) => {
                return Err(e);
            },
        };
        if code > 2 {
            return Ok(MetadataMessage::Unsupported { type_code: code });
        }
        let index = match unsigned_at(&root, "piece") {
            Ok(index) => index as usize,
            Err(e) => {
                return Err(e);
            },
        };
        if code == 0 {
            return Ok(MetadataMessage::Request { index });
        }
        if code == 2 {
            return Ok(MetadataMessage::Reject { index });
        }
        match unsigned_at(&root, "total_size") {
            Ok(total) => {
                let piece = bytes::copy_range(encoded, end, encoded.len());
                assert(piece@ =~= encoded@.skip(end as int));
                Ok(MetadataMessage::Data { index, piece, total_size: total as usize })
            },
            Err(e) => Err(e),
        }
    }
}

/// The bytes of a message without data.
fn header_bytes(type_code: i64, index: usize) -> (r: Vec<u8>)
    ensures
        r@ == bencode::encoded(header(type_code, index)),
{
    let mut pairs: Vec<(String, BencodeValue)> = Vec::new();
    pairs.push(("msg_type".to_owned(), BencodeValue::Integer(type_code)));
    pairs.push(("piece".to_owned(), BencodeValue::Integer(index as i64)));
    proof {
        bencode::lemma_pair_models(pairs@);
        assert(bencode::pair_models(pairs@) =~= header(type_code, index)->Dictionary_0);
    }
    BencodeValue::Dictionary(pairs).to_bytes()
}

/// Every peer understands what is sent of metadata: a dictionary that says by
/// number whether it is a request, data or a refusal, and which block it is about,
/// and behind it the data, if any.
pub proof fn law_metadata_format(m: MetadataModel) -> (v: BencodeModel)
    requires
        match m {
            MetadataModel::Request { index } => index <= i64::MAX,
            MetadataModel::Data { index, total_size, .. } => index <= i64::MAX && total_size
                <= i64::MAX,
            MetadataModel::Reject { index } => index <= i64::MAX,
            MetadataModel::Unsupported { .. } => false,
        },
    ensures
        ({
            let s = message_bytes(m);
            let number = |key: Seq<char>, n: int|
                bencode::entry(v, key) matches Some(BencodeModel::Integer(i)) && i == n;
            &&& bencode::value_at(s, 0) matches Parsed::Value(read, end) && read == v && match m {
                MetadataModel::Request { index } => number("msg_type"@, 0) && number(
                    "piece"@,
                    index as int,
                ) && end == s.len(),
                MetadataModel::Data { index, piece, total_size } => number("msg_type"@, 1)
                    && number("piece"@, index as int) && number("total_size"@, total_size as int)
                    && s.skip(end) == piece,
                MetadataModel::Reject { index } => number("msg_type"@, 2) && number(
                    "piece"@,
                    index as int,
                ) && end == s.len(),
                MetadataModel::Unsupported { .. } => true,
            }
        }),
{
    law_metadata_round_trip(m);
    lemma_keys();
    let s = message_bytes(m);
    let v = match m {
        MetadataModel::Request { index } => header(0, index),
        MetadataModel::Data { index, total_size, .. } => data_header(index, total_size),
        MetadataModel::Reject { index } => header(2, index),
        MetadataModel::Unsupported { .. } => arbitrary(),
    };
    let pairs = v->Dictionary_0;
    bencode::lemma_sound_pairs(pairs);
    let e = bencode::encoded(v);
    assert(s.subrange(0, e.len() as int) =~= e);
    bencode::law_bencode_round_trip(s, 0, v);
    assert(assoc::key_at(pairs, 0, "msg_type"@));
    assoc::lemma_index_unique(pairs, 0, "msg_type"@);
    assert(assoc::key_at(pairs, 1, "piece"@));
    assoc::lemma_index_unique(pairs, 1, "piece"@);
    if m is Data {
        assert(assoc::key_at(pairs, 2, "total_size"@));
        assoc::lemma_index_unique(pairs, 2, "total_size"@);
        assert(s.skip(e.len() as int) =~= m->piece);
    }
    v
}

} // verus!
