//! The peer exchange extension: learning of peers from other peers.

use crate::assoc;
use crate::bencode;
use crate::bencode::{BencodeModel, BencodeValue, Parsed};
use crate::proto::compact;
use crate::types::{PeerInfo, PeerInfoView};
use vstd::prelude::*;

verus! {

/// A peer exchange message.
#[derive(Debug)]
pub struct PEXMessage {
    pub added: Vec<PeerInfo>,
    pub dropped: Vec<PeerInfo>,
}

/// A peer exchange message's contents.
#[verifier::ext_equal]
pub struct PEXModel {
    pub added: Seq<PeerInfoView>,
    pub dropped: Seq<PeerInfoView>,
}

/// The contents of a list of peer records.
pub open spec fn info_views(s: Seq<PeerInfo>) -> Seq<PeerInfoView> {
    s.map_values(|p: PeerInfo| p@)
}

impl View for PEXMessage {
    type V = PEXModel;

    open spec fn view(&self) -> PEXModel {
        PEXModel { added: info_views(self.added@), dropped: info_views(self.dropped@) }
    }
}

/// The peers under a key of a message's dictionary; none where the key is
/// missing.
pub open spec fn peers_under(v: BencodeModel, key: Seq<char>) -> Result<
    Seq<PeerInfoView>,
    Seq<char>,
> {
    match bencode::entry(v, key) {
        None => Ok(Seq::empty()),
        Some(found) => match bencode::as_byte_string(found, key) {
            Err(e) => Err(e),
            Ok(bytes) => if bytes.len() % 6 == 0 {
                Ok(compact::peers(bytes))
            } else {
                Err(key + " must hold six bytes for each peer"@)
            },
        },
    }
}

/// The message that bytes write, or why they write none.
pub open spec fn parse(s: Seq<u8>) -> Result<PEXModel, Seq<char>> {
    match bencode::value_at(s, 0) {
        Parsed::Value(v, _) => match peers_under(v, "added"@) {
            Err(e) => Err(e),
            Ok(added) => match peers_under(v, "dropped"@) {
                Err(e) => Err(e),
                Ok(dropped) => Ok(PEXModel { added, dropped }),
            },
        },
        Parsed::End => Err("Unable to find root dictionary"@),
        Parsed::Error(e) => Err(e),
    }
}

/// The peers under a key.
pub fn read_peers(root: &BencodeValue, key: &str) -> (r: Result<Vec<PeerInfo>, String>)
    requires
        root.wf(),
    ensures
        match r {
            Ok(peers) => peers_under(root.model(), key@) == Ok::<_, Seq<char>>(info_views(peers@)),
            Err(e) => peers_under(root.model(), key@) == Err::<Seq<PeerInfoView>, _>(e@),
        },
{
    match root.get(key) {
        None => {
            let r: Vec<PeerInfo> = Vec::new();
            assert(info_views(r@) =~= Seq::<PeerInfoView>::empty());
            Ok(r)
        },
        Some(found) => match found.byte_string(key) {
            Err(e) => Err(e),
            Ok(bytes) => if bytes.len() % 6 == 0 {
                Ok(compact::read_peers(bytes.as_slice()))
            } else {
                let mut e = key.to_owned();
                e.append(" must hold six bytes for each peer");
                Err(e)
            },
        },
    }
}

impl PEXMessage {
    /// Reads a message.
    pub fn from_bytes(encoded: &[u8]) -> (r: Result<PEXMessage, String>)
        ensures
            match r {
                Ok(m) => parse(encoded@) == Ok::<_, Seq<char>>(m@),
                Err(e) => parse(encoded@) == Err::<PEXModel, _>(e@),
            },
    {
        let root = match BencodeValue::from_bytes(encoded) {
            Ok((Some(root), _)) => root,
            Ok((None, _)) => {
                return Err("Unable to find root dictionary".to_owned());
            },
            Err(e) => {
                return Err(e);
            },
        };
        let added = match read_peers(&root, "added") {
            Ok(added) => added,
            Err(e) => {
                return Err(e);
            },
        };
        match read_peers(&root, "dropped") {
            Ok(dropped) => Ok(PEXMessage { added, dropped }),
            Err(e) => Err(e),
        }
    }
}

/// A peer exchange message tells of the peers that are there under one key and of
/// those that are gone under another, six bytes for each.
pub proof fn law_exchange_read(
    s: Seq<u8>,
    added: Seq<((u8, u8, u8, u8), u16)>,
    dropped: Seq<((u8, u8, u8, u8), u16)>,
)
    requires
        s == bencode::encoded(
            BencodeModel::Dictionary(
                seq![
                    ("added"@, BencodeModel::ByteString(compact::written_all(added))),
                    ("dropped"@, BencodeModel::ByteString(compact::written_all(dropped))),
                ],
            ),
        ),
    ensures
        parse(s) matches Ok(m) && {
            &&& m.added.len() == added.len()
            &&& m.dropped.len() == dropped.len()
            &&& forall|i: int|
                0 <= i < added.len() ==> compact::is_at(
                    #[trigger] m.added[i],
                    added[i].0,
                    added[i].1,
                )
            &&& forall|i: int|
                0 <= i < dropped.len() ==> compact::is_at(
                    #[trigger] m.dropped[i],
                    dropped[i].0,
                    dropped[i].1,
                )
        },
{
    let pairs = seq![
        ("added"@, BencodeModel::ByteString(compact::written_all(added))),
        ("dropped"@, BencodeModel::ByteString(compact::written_all(dropped))),
    ];
    let v = BencodeModel::Dictionary(pairs);
    reveal_strlit("added");
    reveal_strlit("dropped");
    assert("added"@.len() == 5 && "dropped"@.len() == 7);
    bencode::lemma_sound_pairs(pairs);
    let e = bencode::encoded(v);
    assert(s.subrange(0, e.len() as int) =~= e);
    bencode::law_bencode_round_trip(s, 0, v);
    assert(assoc::key_at(pairs, 0, "added"@));
    assoc::lemma_index_unique(pairs, 0, "added"@);
    assert(assoc::key_at(pairs, 1, "dropped"@));
    assoc::lemma_index_unique(pairs, 1, "dropped"@);
    compact::law_compact_round_trip(added);
    compact::law_compact_round_trip(dropped);
}

} // verus!
