//! Magnet links.

use crate::text;
use crate::types;
use crate::types::Sha1Hash;
use vstd::prelude::*;

verus! {

/// The name and value of each parameter in a URL's query; none where the text is
/// no URL.
pub uninterp spec fn query_pairs_of(url: Seq<char>) -> Option<Seq<(Seq<char>, Seq<char>)>>;

/// The contents of a list of parameters.
pub open spec fn pair_texts(s: Seq<(String, String)>) -> Seq<(Seq<char>, Seq<char>)> {
    s.map_values(|p: (String, String)| (p.0@, p.1@))
}

/// Calls `url::Url::parse` and `url::Url::query_pairs`. Which texts are URLs, and
/// the names and values of a URL's parameters, decoded and in their order, are
/// functions of the text alone, which [`query_pairs_of`] names.
#[verifier::external_body]
fn query_pairs(url: &str) -> (r: Option<Vec<(String, String)>>)
    ensures
        match r {
            Some(pairs) => query_pairs_of(url@) == Some(pair_texts(pairs@)),
            None => query_pairs_of(url@) is None,
        },
{
    match url::Url::parse(url) {
        Ok(url) => Some(url.query_pairs().into_owned().collect()),
        Err(_) => None,
    }
}

/// A text is a magnet link rather than the path of a torrent file.
pub open spec fn is_link(uri: Seq<char>) -> bool {
    uri.len() >= 8 && uri.take(8) == "magnet:?"@
}

/// Whether a text is a magnet link rather than the path of a torrent file.
pub fn is_magnet(uri: &str) -> (r: bool)
    ensures
        r == is_link(uri@),
{
    let chars = text::chars_of(uri);
    if chars.len() < 8 {
        return false;
    }
    let start = text::string_of(&chars, 0, 8);
    assert(start@ =~= uri@.take(8));
    start == "magnet:?".to_owned()
}

/// What a magnet link says.
#[derive(Debug)]
pub struct Magnet {
    pub info_hash: Sha1Hash,
    pub display_name: String,
    pub trackers: Vec<String>,
}

/// What a magnet link says.
#[verifier::ext_equal]
pub struct MagnetModel {
    pub info_hash: Seq<u8>,
    pub display_name: Seq<char>,
    pub trackers: Seq<Seq<char>>,
}

impl View for Magnet {
    type V = MagnetModel;

    open spec fn view(&self) -> MagnetModel {
        MagnetModel {
            info_hash: self.info_hash.bytes@,
            display_name: self.display_name@,
            trackers: text::texts(self.trackers@),
        }
    }
}

/// The first parameter of that name from `i` on, or the end of the list.
pub open spec fn find(pairs: Seq<(Seq<char>, Seq<char>)>, name: Seq<char>, i: int) -> int
    decreases pairs.len() - i,
{
    if i < 0 || i >= pairs.len() {
        pairs.len() as int
    } else if pairs[i].0 == name {
        i
    } else {
        find(pairs, name, i + 1)
    }
}

/// The values of the parameters of that name from `i` on.
pub open spec fn values(pairs: Seq<(Seq<char>, Seq<char>)>, name: Seq<char>, i: int) -> Seq<
    Seq<char>,
>
    decreases pairs.len() - i,
{
    if i < 0 || i >= pairs.len() {
        Seq::empty()
    } else if pairs[i].0 == name {
        seq![pairs[i].1] + values(pairs, name, i + 1)
    } else {
        values(pairs, name, i + 1)
    }
}

/// The bytes of the info hash that an exact topic names.
pub open spec fn hash_of(xt: Seq<char>) -> Seq<u8> {
    Seq::new(20, |i: int| types::hex_byte(xt[9 + 2 * i], xt[10 + 2 * i]))
}

/// What a link with these parameters says, if it says all that it has to: the
/// exact topic, behind it the name, and behind that any trackers.
pub open spec fn magnet_of(pairs: Seq<(Seq<char>, Seq<char>)>) -> Option<MagnetModel> {
    let x = find(pairs, "xt"@, 0);
    let d = find(pairs, "dn"@, x + 1);
    if x >= pairs.len() || d >= pairs.len() || !types::is_xt(pairs[x].1) {
        None
    } else {
        Some(
            MagnetModel {
                info_hash: hash_of(pairs[x].1),
                display_name: pairs[d].1,
                trackers: values(pairs, "tr"@, d + 1),
            },
        )
    }
}

/// The first parameter of that name from `from` on.
fn find_name(pairs: &Vec<(String, String)>, name: &str, from: usize) -> (r: usize)
    requires
        from <= pairs@.len(),
    ensures
        r == find(pair_texts(pairs@), name@, from as int),
        from <= r <= pairs@.len(),
{
    let ghost all = pair_texts(pairs@);
    let wanted = name.to_owned();
    let mut i = from;
    while i < pairs.len() && !(pairs[i].0 == wanted)
        invariant
            from <= i <= pairs@.len(),
            all == pair_texts(pairs@),
            wanted@ == name@,
            find(all, name@, from as int) == find(all, name@, i as int),
        decreases pairs@.len() - i,
    {
        assert(all[i as int] == (pairs@[i as int].0@, pairs@[i as int].1@));
        i += 1;
    }
    proof {
        if i < pairs@.len() {
            assert(all[i as int] == (pairs@[i as int].0@, pairs@[i as int].1@));
        }
    }
    i
}

impl Magnet {
    /// Reads a link's parameters.
    pub fn from_pairs(pairs: &Vec<(String, String)>) -> (r: Option<Magnet>)
        ensures
            match r {
                Some(magnet) => magnet_of(pair_texts(pairs@)) == Some(magnet@),
                None => magnet_of(pair_texts(pairs@)) is None,
            },
    {
        let ghost all = pair_texts(pairs@);
        let x = find_name(pairs, "xt", 0);
        if x >= pairs.len() {
            return None;
        }
        let d = find_name(pairs, "dn", x + 1);
        if d >= pairs.len() {
            return None;
        }
        proof {
            assert(all[x as int].1 == pairs@[x as int].1@);
            assert(all[d as int].1 == pairs@[d as int].1@);
        }
        let info_hash = match Sha1Hash::from_xt(pairs[x].1.as_str()) {
            Some(info_hash) => info_hash,
            None => {
                return None;
            },
        };
        assert(info_hash.bytes@ =~= hash_of(all[x as int].1));
        let mut trackers: Vec<String> = Vec::new();
        let wanted = "tr".to_owned();
        let mut i = d + 1;
        assert(text::texts(trackers@) + values(all, "tr"@, d + 1) =~= values(all, "tr"@, d + 1));
        while i < pairs.len()
            invariant
                d < i <= pairs@.len(),
                all == pair_texts(pairs@),
                wanted@ == "tr"@,
                text::texts(trackers@) + values(all, "tr"@, i as int) == values(
                    all,
                    "tr"@,
                    d + 1,
                ),
            decreases pairs@.len() - i,
        {
            assert(all[i as int] == (pairs@[i as int].0@, pairs@[i as int].1@));
            if pairs[i].0 == wanted {
                let ghost before = text::texts(trackers@);
                trackers.push(pairs[i].1.clone());
                proof {
                    assert(text::texts(trackers@) =~= before.push(all[i as int].1));
                    assert(text::texts(trackers@) + values(all, "tr"@, i + 1) =~= before + (
                    seq![all[i as int].1] + values(all, "tr"@, i + 1)));
                }
            }
            i += 1;
        }
        assert(text::texts(trackers@) + values(all, "tr"@, i as int) =~= text::texts(trackers@));
        Some(Magnet { info_hash, display_name: pairs[d].1.clone(), trackers })
    }

    /// Reads a link.
    pub fn from_url(url: &str) -> (r: Option<Magnet>)
        ensures
            match (r, query_pairs_of(url@)) {
                (Some(magnet), Some(pairs)) => magnet_of(pairs) == Some(magnet@),
                (None, Some(pairs)) => magnet_of(pairs) is None,
                (r, None) => r is None,
            },
    {
        match query_pairs(url) {
            Some(pairs) => Magnet::from_pairs(&pairs),
            None => None,
        }
    }
}

/// A link that names a digest in hexadecimal names that digest.
pub proof fn law_hash_read(bytes: Seq<u8>)
    requires
        bytes.len() == 20,
    ensures
        types::is_xt("urn:btih:"@ + types::hex_text(bytes, Seq::empty())),
        hash_of("urn:btih:"@ + types::hex_text(bytes, Seq::empty())) == bytes,
{
    reveal_strlit("urn:btih:");
    let digits = types::hex_text(bytes, Seq::empty());
    let xt = "urn:btih:"@ + digits;
    lemma_hex_digits(bytes);
    assert(xt.take(9) =~= types::xt_prefix());
    assert forall|i: int| 9 <= i < 49 implies types::hex_value(#[trigger] xt[i]) is Some by {
        let k = (i - 9) / 2;
        assert(writes(digits, k, bytes[k]));
        assert(xt[i] == digits[i - 9]);
        assert(i - 9 == 2 * k || i - 9 == 2 * k + 1);
    }
    assert forall|i: int| 0 <= i < 20 implies hash_of(xt)[i] == bytes[i] by {
        assert(xt[9 + 2 * i] == digits[2 * i]);
        assert(xt[10 + 2 * i] == digits[2 * i + 1]);
        assert(writes(digits, i, bytes[i]));
    }
    assert(hash_of(xt) =~= bytes);
}

/// The two digits at place `k` write a byte.
spec fn writes(digits: Seq<char>, k: int, b: u8) -> bool {
    &&& types::hex_value(digits[2 * k]) is Some
    &&& types::hex_value(digits[2 * k + 1]) is Some
    &&& types::hex_byte(digits[2 * k], digits[2 * k + 1]) == b
}

proof fn lemma_hex_digits(bytes: Seq<u8>)
    ensures
        ({
            let digits = types::hex_text(bytes, Seq::empty());
            &&& digits.len() == 2 * bytes.len()
            &&& forall|k: int| 0 <= k < bytes.len() ==> #[trigger] writes(digits, k, bytes[k])
        }),
    decreases bytes.len(),
{
    if bytes.len() > 0 {
        let rest = bytes.drop_last();
        lemma_hex_digits(rest);
        let before = types::hex_text(rest, Seq::empty());
        let digits = types::hex_text(bytes, Seq::empty());
        let b = bytes.last();
        lemma_hex_char(b / 16);
        lemma_hex_char(b % 16);
        assert(digits =~= before + types::hex_pair(b));
        assert forall|k: int| 0 <= k < bytes.len() implies #[trigger] writes(digits, k, bytes[k]) by {
            if k < rest.len() {
                assert(digits[2 * k] == before[2 * k]);
                assert(digits[2 * k + 1] == before[2 * k + 1]);
                assert(writes(before, k, rest[k]));
            } else {
                assert(digits[2 * k] == types::hex_pair(b)[0]);
                assert(digits[2 * k + 1] == types::hex_pair(b)[1]);
                assert(b == (b / 16) * 16 + b % 16);
            }
        }
    }
}

proof fn lemma_hex_char(v: u8)
    requires
        v < 16,
    ensures
        types::hex_value(types::hex_char(v)) == Some(v),
{
}

/// The parameters of a link that names a torrent, its name and its trackers.
pub open spec fn parameters(
    xt: Seq<char>,
    name: Seq<char>,
    trackers: Seq<Seq<char>>,
) -> Seq<(Seq<char>, Seq<char>)> {
    seq![("xt"@, xt), ("dn"@, name)] + trackers.map_values(|t: Seq<char>| ("tr"@, t))
}

/// A link says what was put into it: which torrent, what it is called, and its
/// trackers in order.
pub proof fn law_magnet_read(bytes: Seq<u8>, name: Seq<char>, trackers: Seq<Seq<char>>)
    requires
        bytes.len() == 20,
    ensures
        magnet_of(
            parameters("urn:btih:"@ + types::hex_text(bytes, Seq::empty()), name, trackers),
        ) == Some(MagnetModel { info_hash: bytes, display_name: name, trackers }),
{
    let xt = "urn:btih:"@ + types::hex_text(bytes, Seq::empty());
    let pairs = parameters(xt, name, trackers);
    law_hash_read(bytes);
    reveal_strlit("xt");
    reveal_strlit("dn");
    reveal_strlit("tr");
    assert("xt"@[0] == 'x' && "dn"@[0] == 'd' && "tr"@[0] == 't');
    assert(pairs[0] == ("xt"@, xt) && pairs[1] == ("dn"@, name));
    assert(find(pairs, "xt"@, 0) == 0);
    assert(find(pairs, "dn"@, 1) == 1);
    lemma_values(pairs, trackers, 0);
    assert(trackers.skip(0) =~= trackers);
}

proof fn lemma_values(
    pairs: Seq<(Seq<char>, Seq<char>)>,
    trackers: Seq<Seq<char>>,
    i: int,
)
    requires
        0 <= i <= trackers.len(),
        pairs.len() == 2 + trackers.len(),
        forall|k: int| 0 <= k < trackers.len() ==> #[trigger] pairs[2 + k] == ("tr"@, trackers[k]),
    ensures
        values(pairs, "tr"@, 2 + i) == trackers.skip(i),
    decreases trackers.len() - i,
{
    if i < trackers.len() {
        lemma_values(pairs, trackers, i + 1);
        assert(pairs[2 + i] == ("tr"@, trackers[i]));
        assert(seq![trackers[i]] + trackers.skip(i + 1) =~= trackers.skip(i));
    } else {
        assert(trackers.skip(i) =~= Seq::empty());
    }
}

} // verus!
