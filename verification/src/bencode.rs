//! Bencode: the encoding of metadata and of extension messages.

use crate::assoc;
use crate::number;
use vstd::prelude::*;
use vstd::utf8;

verus! {

/// A bencoded value. A dictionary keeps its keys in the order in which they
/// came, and no key twice.
#[derive(Debug)]
pub enum BencodeValue {
    Integer(i64),
    ByteString(Vec<u8>),
    List(Vec<BencodeValue>),
    Dictionary(Vec<(String, BencodeValue)>),
}

/// A bencoded value's contents.
pub enum BencodeModel {
    Integer(i64),
    ByteString(Seq<u8>),
    List(Seq<BencodeModel>),
    Dictionary(Seq<(Seq<char>, BencodeModel)>),
}

impl BencodeValue {
    /// The value's contents.
    pub open spec fn model(self) -> BencodeModel
        decreases self,
    {
        match self {
            BencodeValue::Integer(i) => BencodeModel::Integer(i),
            BencodeValue::ByteString(bytes) => BencodeModel::ByteString(bytes@),
            BencodeValue::List(items) => BencodeModel::List(item_models(items@)),
            BencodeValue::Dictionary(pairs) => BencodeModel::Dictionary(pair_models(pairs@)),
        }
    }
}

/// The contents of several values.
pub open spec fn item_models(items: Seq<BencodeValue>) -> Seq<BencodeModel>
    decreases items,
{
    if items.len() == 0 {
        Seq::empty()
    } else {
        item_models(items.drop_last()).push(items.last().model())
    }
}

/// The contents of several entries.
pub open spec fn pair_models(pairs: Seq<(String, BencodeValue)>) -> Seq<(Seq<char>, BencodeModel)>
    decreases pairs,
{
    if pairs.len() == 0 {
        Seq::empty()
    } else {
        pair_models(pairs.drop_last()).push((pairs.last().0@, pairs.last().1.model()))
    }
}

/// The contents of each of several values.
pub proof fn lemma_item_models(items: Seq<BencodeValue>)
    ensures
        item_models(items).len() == items.len(),
        forall|i: int|
            0 <= i < items.len() ==> #[trigger] item_models(items)[i] == items[i].model(),
    decreases items.len(),
{
    if items.len() > 0 {
        lemma_item_models(items.drop_last());
    }
}

/// The contents of each of several entries.
pub proof fn lemma_pair_models(pairs: Seq<(String, BencodeValue)>)
    ensures
        pair_models(pairs).len() == pairs.len(),
        forall|i: int|
            0 <= i < pairs.len() ==> #[trigger] pair_models(pairs)[i] == (
                pairs[i].0@,
                pairs[i].1.model(),
            ),
    decreases pairs.len(),
{
    if pairs.len() > 0 {
        lemma_pair_models(pairs.drop_last());
    }
}

/// The contents of entries when one more is appended.
pub proof fn lemma_pair_pushed(pairs: Seq<(String, BencodeValue)>, entry: (String, BencodeValue))
    ensures
        pair_models(pairs.push(entry)) == pair_models(pairs).push((entry.0@, entry.1.model())),
{
    assert(pairs.push(entry).drop_last() =~= pairs);
}

/// The encoding of a byte string.
pub open spec fn encoded_bytes(bytes: Seq<u8>) -> Seq<u8> {
    number::digits(bytes.len()).push(58) + bytes
}

/// The encoding of a number.
pub open spec fn encoded_integer(i: i64) -> Seq<u8> {
    if i < 0 {
        seq![105u8, 45u8] + number::digits((-i) as nat).push(101)
    } else {
        seq![105u8] + number::digits(i as nat).push(101)
    }
}

/// The encoding of a value.
pub open spec fn encoded(v: BencodeModel) -> Seq<u8>
    decreases v,
{
    match v {
        BencodeModel::Integer(i) => encoded_integer(i),
        BencodeModel::ByteString(bytes) => encoded_bytes(bytes),
        BencodeModel::List(items) => seq![108u8] + encoded_items(items).push(101),
        BencodeModel::Dictionary(pairs) => seq![100u8] + encoded_pairs(pairs).push(101),
    }
}

/// The encodings of several values.
pub open spec fn encoded_items(items: Seq<BencodeModel>) -> Seq<u8>
    decreases items,
{
    if items.len() == 0 {
        Seq::empty()
    } else {
        encoded_items(items.drop_last()) + encoded(items.last())
    }
}

/// The encodings of several entries.
pub open spec fn encoded_pairs(pairs: Seq<(Seq<char>, BencodeModel)>) -> Seq<u8>
    decreases pairs,
{
    if pairs.len() == 0 {
        Seq::empty()
    } else {
        encoded_pairs(pairs.drop_last()) + encoded_bytes(utf8::encode_utf8(pairs.last().0)) + encoded(
            pairs.last().1,
        )
    }
}

/// No dictionary in the value has a key twice.
pub open spec fn sound(v: BencodeModel) -> bool
    decreases v,
{
    match v {
        BencodeModel::List(items) => sound_items(items),
        BencodeModel::Dictionary(pairs) => assoc::distinct_keys(pairs) && sound_pairs(pairs),
        _ => true,
    }
}

/// No dictionary in the values has a key twice.
pub open spec fn sound_items(items: Seq<BencodeModel>) -> bool
    decreases items,
{
    items.len() == 0 || (sound_items(items.drop_last()) && sound(items.last()))
}

/// No dictionary in the entries has a key twice.
pub open spec fn sound_pairs(pairs: Seq<(Seq<char>, BencodeModel)>) -> bool
    decreases pairs,
{
    pairs.len() == 0 || (sound_pairs(pairs.drop_last()) && sound(pairs.last().1))
}

/// What reading a value leads to: the value and where it ends, the mark that
/// ends a list or a dictionary, or an error.
pub enum Parsed {
    Value(BencodeModel, int),
    End,
    Error(Seq<char>),
}

/// What reading the items of a list leads to.
pub enum ParsedItems {
    Items(Seq<BencodeModel>, int),
    Error(Seq<char>),
}

/// What reading the entries of a dictionary leads to.
pub enum ParsedPairs {
    Pairs(Seq<(Seq<char>, BencodeModel)>, int),
    Error(Seq<char>),
}

/// What reading a byte string leads to.
pub enum ParsedBytes {
    Bytes(Seq<u8>, int),
    Error(Seq<char>),
}

/// Where the digits at `pos` end.
pub open spec fn digits_end(s: Seq<u8>, pos: int) -> int
    decreases s.len() - pos,
{
    if 0 <= pos < s.len() && number::is_digit(s[pos]) {
        digits_end(s, pos + 1)
    } else {
        pos
    }
}

/// The byte string at `pos`: its length, a colon, its bytes.
pub open spec fn bytes_at(s: Seq<u8>, pos: int) -> ParsedBytes {
    let e = digits_end(s, pos);
    if e == pos || e >= s.len() || s[e] != 58 {
        ParsedBytes::Error("Invalid string length"@)
    } else {
        let n = number::digits_value(s.subrange(pos, e));
        if n > s.len() - e - 1 {
            ParsedBytes::Error("Unexpected end of string"@)
        } else {
            ParsedBytes::Bytes(s.subrange(e + 1, e + 1 + n), e + 1 + n)
        }
    }
}

/// The number at `pos`, between an `i` and an `e`.
pub open spec fn integer_at(s: Seq<u8>, pos: int) -> Parsed {
    let negative = pos + 1 < s.len() && s[pos + 1] == 45;
    let from = if negative {
        pos + 2
    } else {
        pos + 1
    };
    let e = digits_end(s, from);
    if e == from || e >= s.len() || s[e] != 101 {
        Parsed::Error("Invalid integer"@)
    } else {
        let n = number::digits_value(s.subrange(from, e)) as int;
        let value = if negative {
            -n
        } else {
            n
        };
        if value < i64::MIN || value > i64::MAX {
            Parsed::Error("Integer out of range"@)
        } else {
            Parsed::Value(BencodeModel::Integer(value as i64), e + 1)
        }
    }
}

/// The value at `pos`.
pub open spec fn value_at(s: Seq<u8>, pos: int) -> Parsed
    decreases s.len() - pos, 0int,
{
    if pos < 0 || pos >= s.len() {
        Parsed::Error("Unexpected end"@)
    } else if s[pos] == 101 {
        Parsed::End
    } else if s[pos] == 105 {
        integer_at(s, pos)
    } else if s[pos] == 108 {
        match items_at(s, pos + 1, Seq::empty()) {
            ParsedItems::Items(items, end) => Parsed::Value(BencodeModel::List(items), end),
            ParsedItems::Error(e) => Parsed::Error(e),
        }
    } else if s[pos] == 100 {
        match pairs_at(s, pos + 1, Seq::empty()) {
            ParsedPairs::Pairs(pairs, end) => Parsed::Value(BencodeModel::Dictionary(pairs), end),
            ParsedPairs::Error(e) => Parsed::Error(e),
        }
    } else if number::is_digit(s[pos]) {
        match bytes_at(s, pos) {
            ParsedBytes::Bytes(bytes, end) => Parsed::Value(BencodeModel::ByteString(bytes), end),
            ParsedBytes::Error(e) => Parsed::Error(e),
        }
    } else {
        Parsed::Error("Unexpected byte"@)
    }
}

/// The items from `pos` on, after the ones in `before`.
pub open spec fn items_at(s: Seq<u8>, pos: int, before: Seq<BencodeModel>) -> ParsedItems
    decreases s.len() - pos, 1int,
{
    match value_at(s, pos) {
        Parsed::End => ParsedItems::Items(before, pos + 1),
        Parsed::Error(e) => ParsedItems::Error(e),
        Parsed::Value(v, end) => if pos < end <= s.len() {
            items_at(s, end, before.push(v))
        } else {
            ParsedItems::Error("Unexpected end"@)
        },
    }
}

/// The entries from `pos` on, after the ones in `before`.
pub open spec fn pairs_at(
    s: Seq<u8>,
    pos: int,
    before: Seq<(Seq<char>, BencodeModel)>,
) -> ParsedPairs
    decreases s.len() - pos, 1int,
{
    if pos < 0 || pos >= s.len() {
        ParsedPairs::Error("Unexpected end"@)
    } else if s[pos] == 101 {
        ParsedPairs::Pairs(before, pos + 1)
    } else {
        match bytes_at(s, pos) {
            ParsedBytes::Error(e) => ParsedPairs::Error(e),
            ParsedBytes::Bytes(key, middle) => if !utf8::valid_utf8(key) {
                ParsedPairs::Error("Key is not UTF-8"@)
            } else if !(pos < middle <= s.len()) {
                ParsedPairs::Error("Unexpected end"@)
            } else {
                match value_at(s, middle) {
                    Parsed::End => ParsedPairs::Error("Missing value"@),
                    Parsed::Error(e) => ParsedPairs::Error(e),
                    Parsed::Value(v, end) => if pos < end <= s.len() {
                        pairs_at(s, end, assoc::inserted(before, utf8::decode_utf8(key), v))
                    } else {
                        ParsedPairs::Error("Unexpected end"@)
                    },
                }
            },
        }
    }
}

/// Digits end within the bytes, and are digits.
proof fn lemma_digits_end(s: Seq<u8>, pos: int)
    requires
        0 <= pos <= s.len(),
    ensures
        pos <= digits_end(s, pos) <= s.len(),
        forall|i: int| pos <= i < digits_end(s, pos) ==> number::is_digit(#[trigger] s[i]),
        digits_end(s, pos) < s.len() ==> !number::is_digit(s[digits_end(s, pos)]),
    decreases s.len() - pos,
{
    if pos < s.len() && number::is_digit(s[pos]) {
        lemma_digits_end(s, pos + 1);
    }
}

/// A value that is read ends within the bytes, after where it starts.
pub proof fn lemma_value_end(s: Seq<u8>, pos: int)
    requires
        0 <= pos <= s.len(),
    ensures
        value_at(s, pos) matches Parsed::Value(_, end) ==> pos < end <= s.len(),
        value_at(s, pos) is End ==> pos < s.len(),
    decreases s.len() - pos, 0int,
{
    if pos < s.len() {
        lemma_digits_end(s, pos);
        if pos + 1 <= s.len() {
            lemma_digits_end(s, pos + 1);
        }
        if pos + 2 <= s.len() {
            lemma_digits_end(s, pos + 2);
        }
        lemma_items_end(s, pos + 1, Seq::empty());
        lemma_pairs_end(s, pos + 1, Seq::empty());
    }
}

proof fn lemma_items_end(s: Seq<u8>, pos: int, before: Seq<BencodeModel>)
    requires
        0 <= pos <= s.len(),
    ensures
        items_at(s, pos, before) matches ParsedItems::Items(_, end) ==> pos < end <= s.len(),
    decreases s.len() - pos, 1int,
{
    lemma_value_end(s, pos);
    if let Parsed::Value(v, end) = value_at(s, pos) {
        lemma_items_end(s, end, before.push(v));
    }
}

proof fn lemma_pairs_end(s: Seq<u8>, pos: int, before: Seq<(Seq<char>, BencodeModel)>)
    requires
        0 <= pos <= s.len(),
    ensures
        pairs_at(s, pos, before) matches ParsedPairs::Pairs(_, end) ==> pos < end <= s.len(),
    decreases s.len() - pos, 1int,
{
    if pos < s.len() && s[pos] != 101 {
        lemma_digits_end(s, pos);
        if let ParsedBytes::Bytes(key, middle) = bytes_at(s, pos) {
            if pos < middle <= s.len() {
                if let Parsed::Value(v, end) = value_at(s, middle) {
                    if pos < end <= s.len() {
                        lemma_pairs_end(s, end, assoc::inserted(before, utf8::decode_utf8(key), v));
                    }
                }
            }
        }
    }
}

/// Calls `String::from_utf8`, which gives the string that UTF-8 bytes encode and
/// fails exactly where the bytes are not UTF-8.
#[verifier::external_body]
pub(crate) fn string_from_utf8(bytes: Vec<u8>) -> (r: Option<String>)
    ensures
        match r {
            Some(s) => utf8::valid_utf8(bytes@) && s@ == utf8::decode_utf8(bytes@),
            None => !utf8::valid_utf8(bytes@),
        },
{
    String::from_utf8(bytes).ok()
}

/// What decoding a value came to.
enum Decoded {
    Value(BencodeValue, usize),
    End,
    Error(String),
}

/// A decoded value is the one that reading leads to.
spec fn agrees(d: Decoded, p: Parsed) -> bool {
    match d {
        Decoded::Value(v, end) => p matches Parsed::Value(m, e) && m == v.model() && e == end,
        Decoded::End => p is End,
        Decoded::Error(text) => p matches Parsed::Error(e) && e == text@,
    }
}

/// Where the digits at `pos` end.
fn find_digits_end(bytes: &[u8], pos: usize) -> (r: usize)
    requires
        pos <= bytes@.len(),
    ensures
        r == digits_end(bytes@, pos as int),
        pos <= r <= bytes@.len(),
        forall|i: int| pos <= i < r ==> number::is_digit(#[trigger] bytes@[i]),
{
    let mut e = pos;
    while e < bytes.len() && 48 <= bytes[e] && bytes[e] <= 57
        invariant
            pos <= e <= bytes@.len(),
            digits_end(bytes@, pos as int) == digits_end(bytes@, e as int),
            forall|i: int| pos <= i < e ==> number::is_digit(#[trigger] bytes@[i]),
        decreases bytes@.len() - e,
    {
        e += 1;
    }
    e
}

/// Reads the byte string at `pos`.
pub fn decode_bytes(bytes: &[u8], pos: usize) -> (r: Result<(Vec<u8>, usize), String>)
    requires
        pos <= bytes@.len(),
    ensures
        match r {
            Ok((v, end)) => bytes_at(bytes@, pos as int) matches ParsedBytes::Bytes(b, e) && b
                == v@ && e == end && pos < end <= bytes@.len(),
            Err(text) => bytes_at(bytes@, pos as int) matches ParsedBytes::Error(e) && e == text@,
        },
{
    let e = find_digits_end(bytes, pos);
    if e == pos || e >= bytes.len() || bytes[e] != 58 {
        return Err("Invalid string length".to_owned());
    }
    let room = bytes.len() - e - 1;
    match number::read_digits(bytes, pos, e) {
        Some(n) => {
            if n > room as u64 {
                return Err("Unexpected end of string".to_owned());
            }
            let end = e + 1 + n as usize;
            let v = crate::bytes::copy_range(bytes, e + 1, end);
            Ok((v, end))
        },
        None => Err("Unexpected end of string".to_owned()),
    }
}

/// Reads the number at `pos`.
fn decode_integer(bytes: &[u8], pos: usize) -> (r: Decoded)
    requires
        pos < bytes@.len(),
    ensures
        agrees(r, integer_at(bytes@, pos as int)),
{
    let negative = bytes.len() - pos > 1 && bytes[pos + 1] == 45;
    let from = if negative {
        pos + 2
    } else {
        pos + 1
    };
    let e = find_digits_end(bytes, from);
    if e == from || e >= bytes.len() || bytes[e] != 101 {
        return Decoded::Error("Invalid integer".to_owned());
    }
    match number::read_digits(bytes, from, e) {
        Some(n) => {
            if negative {
                if n > 0x8000_0000_0000_0000 {
                    Decoded::Error("Integer out of range".to_owned())
                } else {
                    let value = (0i128 - n as i128) as i64;
                    Decoded::Value(BencodeValue::Integer(value), e + 1)
                }
            } else if n > 0x7fff_ffff_ffff_ffff {
                Decoded::Error("Integer out of range".to_owned())
            } else {
                Decoded::Value(BencodeValue::Integer(n as i64), e + 1)
            }
        },
        None => Decoded::Error("Integer out of range".to_owned()),
    }
}

/// Reads the value at `pos`.
fn decode_value(bytes: &[u8], pos: usize) -> (r: Decoded)
    requires
        pos <= bytes@.len(),
    ensures
        agrees(r, value_at(bytes@, pos as int)),
    decreases bytes@.len() - pos, 0int,
{
    if pos >= bytes.len() {
        return Decoded::Error("Unexpected end".to_owned());
    }
    let first = bytes[pos];
    if first == 101 {
        Decoded::End
    } else if first == 105 {
        decode_integer(bytes, pos)
    } else if first == 108 {
        match decode_items(bytes, pos + 1) {
            Ok((items, end)) => Decoded::Value(BencodeValue::List(items), end),
            Err(e) => Decoded::Error(e),
        }
    } else if first == 100 {
        match decode_pairs(bytes, pos + 1) {
            Ok((pairs, end)) => Decoded::Value(BencodeValue::Dictionary(pairs), end),
            Err(e) => Decoded::Error(e),
        }
    } else if 48 <= first && first <= 57 {
        match decode_bytes(bytes, pos) {
            Ok((v, end)) => Decoded::Value(BencodeValue::ByteString(v), end),
            Err(e) => Decoded::Error(e),
        }
    } else {
        Decoded::Error("Unexpected byte".to_owned())
    }
}

/// Where the value at `pos` ends, if there is one.
pub fn value_end(bytes: &[u8], pos: usize) -> (r: Option<usize>)
    requires
        pos <= bytes@.len(),
    ensures
        match r {
            Some(n) => value_at(bytes@, pos as int) matches Parsed::Value(_, end) && end == n,
            None => !(value_at(bytes@, pos as int) is Value),
        },
{
    match decode_value(bytes, pos) {
        Decoded::Value(_, end) => Some(end),
        _ => None,
    }
}

/// Reads the items of a list.
fn decode_items(bytes: &[u8], start: usize) -> (r: Result<(Vec<BencodeValue>, usize), String>)
    requires
        start <= bytes@.len(),
    ensures
        match r {
            Ok((items, end)) => items_at(
                bytes@,
                start as int,
                Seq::empty(),
            ) matches ParsedItems::Items(m, e) && m == item_models(items@) && e == end,
            Err(text) => items_at(bytes@, start as int, Seq::empty()) matches ParsedItems::Error(e)
                && e == text@,
        },
    decreases bytes@.len() - start, 1int,
{
    let total = bytes.len();
    let mut items: Vec<BencodeValue> = Vec::new();
    let mut pos = start;
    loop
        invariant
            start <= pos <= bytes@.len(),
            total == bytes@.len(),
            items_at(bytes@, start as int, Seq::empty()) == items_at(
                bytes@,
                pos as int,
                item_models(items@),
            ),
        decreases bytes@.len() - pos,
    {
        proof {
            lemma_value_end(bytes@, pos as int);
        }
        match decode_value(bytes, pos) {
            Decoded::End => {
                return Ok((items, pos + 1));
            },
            Decoded::Error(e) => {
                return Err(e);
            },
            Decoded::Value(v, end) => {
                let ghost before = items@;
                items.push(v);
                assert(items@.drop_last() =~= before);
                pos = end;
            },
        }
    }
}

/// Where the entry for `key` stands.
fn find_key(pairs: &Vec<(String, BencodeValue)>, key: &String) -> (r: Option<usize>)
    ensures
        match r {
            Some(i) => i < pairs@.len() && assoc::key_at(pair_models(pairs@), i as int, key@),
            None => !assoc::has_key(pair_models(pairs@), key@),
        },
        assoc::distinct_keys(pair_models(pairs@)) ==> (r matches Some(i) ==> assoc::index_of(
            pair_models(pairs@),
            key@,
        ) == i),
{
    proof {
        lemma_pair_models(pairs@);
    }
    let ghost models = pair_models(pairs@);
    let mut i: usize = 0;
    while i < pairs.len()
        invariant
            i <= pairs@.len(),
            models == pair_models(pairs@),
            models.len() == pairs@.len(),
            forall|j: int|
                0 <= j < pairs@.len() ==> #[trigger] models[j] == (
                    pairs@[j].0@,
                    pairs@[j].1.model(),
                ),
            forall|j: int| 0 <= j < i ==> (#[trigger] models[j]).0 != key@,
        decreases pairs@.len() - i,
    {
        if pairs[i].0 == *key {
            proof {
                assert(assoc::key_at(models, i as int, key@));
                if assoc::distinct_keys(models) {
                    assoc::lemma_index_unique(models, i as int, key@);
                }
            }
            return Some(i);
        }
        i += 1;
    }
    assert forall|j: int| !assoc::key_at(models, j, key@) by {
        if 0 <= j < models.len() {
            assert(models[j].0 != key@);
        }
    }
    None
}

/// Puts a value under a key, replacing the one that was there.
pub fn put(pairs: &mut Vec<(String, BencodeValue)>, key: String, value: BencodeValue)
    requires
        assoc::distinct_keys(pair_models(old(pairs)@)),
    ensures
        assoc::distinct_keys(pair_models(final(pairs)@)),
        pair_models(final(pairs)@) == assoc::inserted(
            pair_models(old(pairs)@),
            key@,
            value.model(),
        ),
{
    let ghost models = pair_models(pairs@);
    let ghost entry = (key@, value.model());
    proof {
        lemma_pair_models(pairs@);
    }
    match find_key(pairs, &key) {
        Some(i) => {
            pairs[i] = (key, value);
            proof {
                lemma_pair_models(pairs@);
                assert(pair_models(pairs@) =~= models.update(i as int, entry));
            }
        },
        None => {
            let ghost before = pairs@;
            proof {
                assert forall|j: int| 0 <= j < models.len() implies (#[trigger] models[j]).0
                    != key@ by {
                    assert(!assoc::key_at(models, j, key@));
                }
            }
            pairs.push((key, value));
            assert(pairs@.drop_last() =~= before);
        },
    }
}

/// Reads the entries of a dictionary.
fn decode_pairs(bytes: &[u8], start: usize) -> (r: Result<
    (Vec<(String, BencodeValue)>, usize),
    String,
>)
    requires
        start <= bytes@.len(),
    ensures
        match r {
            Ok((pairs, end)) => pairs_at(
                bytes@,
                start as int,
                Seq::empty(),
            ) matches ParsedPairs::Pairs(m, e) && m == pair_models(pairs@) && e == end,
            Err(text) => pairs_at(bytes@, start as int, Seq::empty()) matches ParsedPairs::Error(e)
                && e == text@,
        },
    decreases bytes@.len() - start, 1int,
{
    let mut pairs: Vec<(String, BencodeValue)> = Vec::new();
    let mut pos = start;
    loop
        invariant
            start <= pos <= bytes@.len(),
            assoc::distinct_keys(pair_models(pairs@)),
            pairs_at(bytes@, start as int, Seq::empty()) == pairs_at(
                bytes@,
                pos as int,
                pair_models(pairs@),
            ),
        decreases bytes@.len() - pos,
    {
        if pos >= bytes.len() {
            return Err("Unexpected end".to_owned());
        }
        if bytes[pos] == 101 {
            return Ok((pairs, pos + 1));
        }
        let (key_bytes, middle) = match decode_bytes(bytes, pos) {
            Ok(found) => found,
            Err(e) => {
                return Err(e);
            },
        };
        let key = match string_from_utf8(key_bytes) {
            Some(key) => key,
            None => {
                return Err("Key is not UTF-8".to_owned());
            },
        };
        proof {
            lemma_value_end(bytes@, middle as int);
        }
        match decode_value(bytes, middle) {
            Decoded::End => {
                return Err("Missing value".to_owned());
            },
            Decoded::Error(e) => {
                return Err(e);
            },
            Decoded::Value(v, end) => {
                put(&mut pairs, key, v);
                pos = end;
            },
        }
    }
}

/// Appends the encoding of a byte string.
fn encode_bytes(out: &mut Vec<u8>, bytes: &[u8])
    ensures
        final(out)@ == old(out)@ + encoded_bytes(bytes@),
{
    number::push_digits(out, bytes.len() as u64);
    out.push(58);
    crate::bytes::append_bytes(out, bytes);
    assert(out@ =~= old(out)@ + encoded_bytes(bytes@));
}

/// Appends the encoding of a value.
fn encode_value(out: &mut Vec<u8>, value: &BencodeValue)
    ensures
        final(out)@ == old(out)@ + encoded(value.model()),
    decreases value,
{
    match value {
        BencodeValue::Integer(i) => {
            out.push(105);
            if *i < 0 {
                out.push(45);
                number::push_digits(out, (0i128 - *i as i128) as u64);
            } else {
                number::push_digits(out, *i as u64);
            }
            out.push(101);
            assert(out@ =~= old(out)@ + encoded_integer(*i));
        },
        BencodeValue::ByteString(bytes) => {
            encode_bytes(out, bytes.as_slice());
        },
        BencodeValue::List(items) => {
            out.push(108);
            let mut k: usize = 0;
            assert(item_models(items@.take(0)) =~= Seq::<BencodeModel>::empty());
            while k < items.len()
                invariant
                    k <= items@.len(),
                    decreases_to!(value => items),
                    out@ =~= old(out)@.push(108) + encoded_items(item_models(items@.take(k as int))),
                decreases items@.len() - k,
            {
                let ghost seen = items@.take(k as int + 1);
                assert(seen.drop_last() =~= items@.take(k as int));
                assert(item_models(seen).drop_last() =~= item_models(items@.take(k as int)));
                encode_value(out, &items[k]);
                k += 1;
            }
            assert(items@.take(k as int) =~= items@);
            out.push(101);
            assert(out@ =~= old(out)@ + encoded(value.model()));
        },
        BencodeValue::Dictionary(pairs) => {
            out.push(100);
            let mut k: usize = 0;
            assert(pair_models(pairs@.take(0)) =~= Seq::<(Seq<char>, BencodeModel)>::empty());
            while k < pairs.len()
                invariant
                    k <= pairs@.len(),
                    decreases_to!(value => pairs),
                    out@ =~= old(out)@.push(100) + encoded_pairs(pair_models(pairs@.take(k as int))),
                decreases pairs@.len() - k,
            {
                let ghost seen = pairs@.take(k as int + 1);
                assert(seen.drop_last() =~= pairs@.take(k as int));
                assert(pair_models(seen).drop_last() =~= pair_models(pairs@.take(k as int)));
                encode_bytes(out, pairs[k].0.as_str().as_bytes());
                encode_value(out, &pairs[k].1);
                k += 1;
            }
            assert(pairs@.take(k as int) =~= pairs@);
            out.push(101);
            assert(out@ =~= old(out)@ + encoded(value.model()));
        },
    }
}

/// Digits up to a byte that is none end there.
proof fn lemma_digits_run(s: Seq<u8>, pos: int, e: int)
    requires
        0 <= pos <= e < s.len(),
        forall|i: int| pos <= i < e ==> number::is_digit(#[trigger] s[i]),
        !number::is_digit(s[e]),
    ensures
        digits_end(s, pos) == e,
    decreases e - pos,
{
    if pos < e {
        lemma_digits_run(s, pos + 1, e);
    }
}

/// `part` stands in `s` at `pos`.
pub open spec fn stands_at(s: Seq<u8>, pos: int, part: Seq<u8>) -> bool {
    &&& 0 <= pos
    &&& pos + part.len() <= s.len()
    &&& s.subrange(pos, pos + part.len()) == part
}

/// Where a sequence stands, its parts stand one after the other.
proof fn lemma_stands_split(s: Seq<u8>, pos: int, a: Seq<u8>, b: Seq<u8>)
    requires
        stands_at(s, pos, a + b),
    ensures
        stands_at(s, pos, a),
        stands_at(s, pos + a.len(), b),
{
    let whole = s.subrange(pos, pos + a.len() + b.len());
    assert(s.subrange(pos, pos + a.len()) =~= a) by {
        assert forall|i: int| 0 <= i < a.len() implies s.subrange(pos, pos + a.len())[i] == a[i] by {
            assert(whole[i] == (a + b)[i]);
        }
    }
    assert(s.subrange(pos + a.len(), pos + a.len() + b.len()) =~= b) by {
        assert forall|i: int| 0 <= i < b.len() implies s.subrange(
            pos + a.len(),
            pos + a.len() + b.len(),
        )[i] == b[i] by {
            assert(whole[a.len() + i] == (a + b)[a.len() + i]);
        }
    }
}

/// A byte string that was encoded is read back.
proof fn lemma_bytes_round_trip(s: Seq<u8>, pos: int, bytes: Seq<u8>)
    requires
        stands_at(s, pos, encoded_bytes(bytes)),
    ensures
        bytes_at(s, pos) == ParsedBytes::Bytes(bytes, pos + encoded_bytes(bytes).len()),
        number::is_digit(s[pos]),
{
    let d = number::digits(bytes.len());
    number::lemma_digits(bytes.len());
    assert(encoded_bytes(bytes) =~= d + seq![58u8] + bytes);
    lemma_stands_split(s, pos, d + seq![58u8], bytes);
    lemma_stands_split(s, pos, d, seq![58u8]);
    let e = pos + d.len();
    assert(s[e] == s.subrange(e, e + 1)[0]);
    assert forall|i: int| pos <= i < e implies number::is_digit(#[trigger] s[i]) by {
        assert(s.subrange(pos, e)[i - pos] == d[i - pos]);
    }
    lemma_digits_run(s, pos, e);
}

/// A number that was encoded is read back.
proof fn lemma_integer_round_trip(s: Seq<u8>, pos: int, i: i64)
    requires
        stands_at(s, pos, encoded_integer(i)),
    ensures
        integer_at(s, pos) == Parsed::Value(
            BencodeModel::Integer(i),
            pos + encoded_integer(i).len(),
        ),
        s[pos] == 105,
{
    let magnitude = if i < 0 {
        (-i) as nat
    } else {
        i as nat
    };
    let d = number::digits(magnitude);
    number::lemma_digits(magnitude);
    let head = if i < 0 {
        seq![105u8, 45u8]
    } else {
        seq![105u8]
    };
    assert(encoded_integer(i) =~= head + (d + seq![101u8]));
    lemma_stands_split(s, pos, head, d + seq![101u8]);
    let from = pos + head.len();
    lemma_stands_split(s, from, d, seq![101u8]);
    let e = from + d.len();
    assert(s[pos] == s.subrange(pos, from)[0]);
    if i < 0 {
        assert(s[pos + 1] == s.subrange(pos, from)[1]);
    } else {
        assert(s[from] == s.subrange(from, e)[0]);
        assert(number::is_digit(d[0]));
    }
    assert(s[e] == s.subrange(e, e + 1)[0]);
    assert forall|j: int| from <= j < e implies number::is_digit(#[trigger] s[j]) by {
        assert(s.subrange(from, e)[j - from] == d[j - from]);
    }
    lemma_digits_run(s, from, e);
}

/// The encoding of the first items is the first part of the encoding of all.
proof fn lemma_encoded_items_at(items: Seq<BencodeModel>, k: int)
    requires
        0 <= k < items.len(),
    ensures
        exists|rest: Seq<u8>|
            encoded_items(items) == encoded_items(items.take(k)) + encoded(items[k]) + rest,
        encoded_items(items.take(k + 1)) == encoded_items(items.take(k)) + encoded(items[k]),
    decreases items.len(),
{
    assert(items.take(k + 1).drop_last() =~= items.take(k));
    if k == items.len() - 1 {
        assert(items.take(k + 1) =~= items);
        let rest = Seq::<u8>::empty();
        assert(encoded_items(items) =~= encoded_items(items.take(k)) + encoded(items[k]) + rest);
    } else {
        let shorter = items.drop_last();
        lemma_encoded_items_at(shorter, k);
        assert(shorter.take(k) =~= items.take(k));
        let rest = choose|rest: Seq<u8>|
            encoded_items(shorter) == encoded_items(shorter.take(k)) + encoded(shorter[k]) + rest;
        let more = rest + encoded(items.last());
        assert(encoded_items(items) =~= encoded_items(items.take(k)) + encoded(items[k]) + more);
    }
}

/// The encoding of the first entries is the first part of the encoding of all.
proof fn lemma_encoded_pairs_at(pairs: Seq<(Seq<char>, BencodeModel)>, k: int)
    requires
        0 <= k < pairs.len(),
    ensures
        exists|rest: Seq<u8>|
            encoded_pairs(pairs) == encoded_pairs(pairs.take(k)) + (encoded_bytes(
                utf8::encode_utf8(pairs[k].0),
            ) + encoded(pairs[k].1)) + rest,
        encoded_pairs(pairs.take(k + 1)) == encoded_pairs(pairs.take(k)) + (encoded_bytes(
            utf8::encode_utf8(pairs[k].0),
        ) + encoded(pairs[k].1)),
    decreases pairs.len(),
{
    let entry = encoded_bytes(utf8::encode_utf8(pairs[k].0)) + encoded(pairs[k].1);
    assert(pairs.take(k + 1).drop_last() =~= pairs.take(k));
    assert(encoded_pairs(pairs.take(k + 1)) =~= encoded_pairs(pairs.take(k)) + entry);
    if k == pairs.len() - 1 {
        assert(pairs.take(k + 1) =~= pairs);
        let rest = Seq::<u8>::empty();
        assert(encoded_pairs(pairs) =~= encoded_pairs(pairs.take(k)) + entry + rest);
    } else {
        let shorter = pairs.drop_last();
        lemma_encoded_pairs_at(shorter, k);
        assert(shorter.take(k) =~= pairs.take(k));
        let rest = choose|rest: Seq<u8>|
            encoded_pairs(shorter) == encoded_pairs(shorter.take(k)) + (encoded_bytes(
                utf8::encode_utf8(shorter[k].0),
            ) + encoded(shorter[k].1)) + rest;
        let more = rest + encoded_bytes(utf8::encode_utf8(pairs.last().0)) + encoded(
            pairs.last().1,
        );
        assert(encoded_pairs(pairs) =~= encoded_pairs(pairs.take(k)) + entry + more);
    }
}

/// An item of sound items is sound.
pub proof fn lemma_sound_item(items: Seq<BencodeModel>, k: int)
    requires
        sound_items(items),
        0 <= k < items.len(),
    ensures
        sound(items[k]),
    decreases items.len(),
{
    if k < items.len() - 1 {
        lemma_sound_item(items.drop_last(), k);
    }
}

proof fn lemma_sound_pair(pairs: Seq<(Seq<char>, BencodeModel)>, k: int)
    requires
        sound_pairs(pairs),
        0 <= k < pairs.len(),
    ensures
        sound(pairs[k].1),
    decreases pairs.len(),
{
    if k < pairs.len() - 1 {
        lemma_sound_pair(pairs.drop_last(), k);
    }
}

/// Entries are sound where each of them is.
pub proof fn lemma_sound_pairs(pairs: Seq<(Seq<char>, BencodeModel)>)
    requires
        forall|i: int| 0 <= i < pairs.len() ==> sound((#[trigger] pairs[i]).1),
    ensures
        sound_pairs(pairs),
    decreases pairs.len(),
{
    if pairs.len() > 0 {
        assert forall|i: int| 0 <= i < pairs.drop_last().len() implies sound(
            (#[trigger] pairs.drop_last()[i]).1,
        ) by {
            assert(pairs.drop_last()[i] == pairs[i]);
        }
        lemma_sound_pairs(pairs.drop_last());
        assert(pairs.last() == pairs[pairs.len() - 1]);
    }
}

/// A value that was encoded is read back, whatever follows it.
pub proof fn law_bencode_round_trip(s: Seq<u8>, pos: int, v: BencodeModel)
    requires
        sound(v),
        stands_at(s, pos, encoded(v)),
    ensures
        value_at(s, pos) == Parsed::Value(v, pos + encoded(v).len()),
    decreases v, 0int,
{
    match v {
        BencodeModel::Integer(i) => {
            lemma_integer_round_trip(s, pos, i);
        },
        BencodeModel::ByteString(bytes) => {
            lemma_bytes_round_trip(s, pos, bytes);
        },
        BencodeModel::List(items) => {
            assert(encoded(v) =~= seq![108u8] + (encoded_items(items) + seq![101u8]));
            lemma_stands_split(s, pos, seq![108u8], encoded_items(items) + seq![101u8]);
            assert(s[pos] == s.subrange(pos, pos + 1)[0]);
            assert(items.take(0) =~= Seq::<BencodeModel>::empty());
            lemma_items_round_trip(s, pos + 1, items, 0);
        },
        BencodeModel::Dictionary(pairs) => {
            assert(encoded(v) =~= seq![100u8] + (encoded_pairs(pairs) + seq![101u8]));
            lemma_stands_split(s, pos, seq![100u8], encoded_pairs(pairs) + seq![101u8]);
            assert(s[pos] == s.subrange(pos, pos + 1)[0]);
            assert(pairs.take(0) =~= Seq::<(Seq<char>, BencodeModel)>::empty());
            lemma_pairs_round_trip(s, pos + 1, pairs, 0);
        },
    }
}

proof fn lemma_items_round_trip(s: Seq<u8>, start: int, items: Seq<BencodeModel>, k: int)
    requires
        sound_items(items),
        0 <= k <= items.len(),
        stands_at(s, start, encoded_items(items) + seq![101u8]),
    ensures
        items_at(s, start + encoded_items(items.take(k)).len(), items.take(k))
            == ParsedItems::Items(items, start + encoded_items(items).len() + 1),
    decreases items, items.len() - k,
{
    lemma_stands_split(s, start, encoded_items(items), seq![101u8]);
    let pos = start + encoded_items(items.take(k)).len();
    if k == items.len() {
        assert(items.take(k) =~= items);
        assert(s[pos] == s.subrange(pos, pos + 1)[0]);
    } else {
        lemma_encoded_items_at(items, k);
        let rest = choose|rest: Seq<u8>|
            encoded_items(items) == encoded_items(items.take(k)) + encoded(items[k]) + rest;
        lemma_stands_split(
            s,
            start,
            encoded_items(items.take(k)) + encoded(items[k]),
            rest,
        );
        lemma_stands_split(s, start, encoded_items(items.take(k)), encoded(items[k]));
        lemma_sound_item(items, k);
        law_bencode_round_trip(s, pos, items[k]);
        assert(items.take(k).push(items[k]) =~= items.take(k + 1));
        lemma_value_end(s, pos);
        lemma_items_round_trip(s, start, items, k + 1);
    }
}

proof fn lemma_pairs_round_trip(
    s: Seq<u8>,
    start: int,
    pairs: Seq<(Seq<char>, BencodeModel)>,
    k: int,
)
    requires
        sound_pairs(pairs),
        assoc::distinct_keys(pairs),
        0 <= k <= pairs.len(),
        stands_at(s, start, encoded_pairs(pairs) + seq![101u8]),
    ensures
        pairs_at(s, start + encoded_pairs(pairs.take(k)).len(), pairs.take(k))
            == ParsedPairs::Pairs(pairs, start + encoded_pairs(pairs).len() + 1),
    decreases pairs, pairs.len() - k,
{
    lemma_stands_split(s, start, encoded_pairs(pairs), seq![101u8]);
    let pos = start + encoded_pairs(pairs.take(k)).len();
    if k == pairs.len() {
        assert(pairs.take(k) =~= pairs);
        assert(s[pos] == s.subrange(pos, pos + 1)[0]);
    } else {
        let key = utf8::encode_utf8(pairs[k].0);
        let entry = encoded_bytes(key) + encoded(pairs[k].1);
        lemma_encoded_pairs_at(pairs, k);
        let rest = choose|rest: Seq<u8>|
            encoded_pairs(pairs) == encoded_pairs(pairs.take(k)) + (encoded_bytes(
                utf8::encode_utf8(pairs[k].0),
            ) + encoded(pairs[k].1)) + rest;
        lemma_stands_split(s, start, encoded_pairs(pairs.take(k)) + entry, rest);
        lemma_stands_split(s, start, encoded_pairs(pairs.take(k)), entry);
        lemma_stands_split(s, pos, encoded_bytes(key), encoded(pairs[k].1));
        lemma_bytes_round_trip(s, pos, key);
        utf8::encode_utf8_valid_utf8(pairs[k].0);
        utf8::encode_utf8_decode_utf8(pairs[k].0);
        let middle = pos + encoded_bytes(key).len();
        lemma_sound_pair(pairs, k);
        assert(decreases_to!(pairs => pairs[k]));
        law_bencode_round_trip(s, middle, pairs[k].1);
        lemma_value_end(s, middle);
        let before = pairs.take(k);
        assert(!assoc::has_key(before, pairs[k].0)) by {
            assert forall|j: int| !assoc::key_at(before, j, pairs[k].0) by {
                if 0 <= j < k {
                    assert(pairs[j].0 != pairs[k].0);
                }
            }
        }
        assert(before.push((pairs[k].0, pairs[k].1)) =~= pairs.take(k + 1));
        lemma_pairs_round_trip(s, start, pairs, k + 1);
    }
}

/// What is read has no key twice in any dictionary.
pub proof fn law_decoded_sound(s: Seq<u8>, pos: int)
    requires
        0 <= pos <= s.len(),
    ensures
        value_at(s, pos) matches Parsed::Value(v, _) ==> sound(v),
    decreases s.len() - pos, 0int,
{
    if pos < s.len() {
        lemma_items_sound(s, pos + 1, Seq::empty());
        lemma_pairs_sound(s, pos + 1, Seq::empty());
    }
}

proof fn lemma_items_sound(s: Seq<u8>, pos: int, before: Seq<BencodeModel>)
    requires
        0 <= pos <= s.len(),
        sound_items(before),
    ensures
        items_at(s, pos, before) matches ParsedItems::Items(items, _) ==> sound_items(items),
    decreases s.len() - pos, 1int,
{
    law_decoded_sound(s, pos);
    lemma_value_end(s, pos);
    if let Parsed::Value(v, end) = value_at(s, pos) {
        assert(before.push(v).drop_last() =~= before);
        lemma_items_sound(s, end, before.push(v));
    }
}

proof fn lemma_sound_inserted(
    pairs: Seq<(Seq<char>, BencodeModel)>,
    key: Seq<char>,
    v: BencodeModel,
)
    requires
        sound_pairs(pairs),
        sound(v),
        assoc::distinct_keys(pairs),
    ensures
        sound_pairs(assoc::inserted(pairs, key, v)),
        assoc::distinct_keys(assoc::inserted(pairs, key, v)),
{
    if assoc::has_key(pairs, key) {
        let i = assoc::index_of(pairs, key);
        assert(assoc::key_at(pairs, i, key));
        lemma_sound_update(pairs, i, (key, v));
    } else {
        assert(pairs.push((key, v)).drop_last() =~= pairs);
        assert forall|j: int| 0 <= j < pairs.len() implies (#[trigger] pairs[j]).0 != key by {
            assert(!assoc::key_at(pairs, j, key));
        }
    }
}

proof fn lemma_sound_update(
    pairs: Seq<(Seq<char>, BencodeModel)>,
    i: int,
    entry: (Seq<char>, BencodeModel),
)
    requires
        sound_pairs(pairs),
        0 <= i < pairs.len(),
        sound(entry.1),
    ensures
        sound_pairs(pairs.update(i, entry)),
    decreases pairs.len(),
{
    let after = pairs.update(i, entry);
    if i == pairs.len() - 1 {
        assert(after.drop_last() =~= pairs.drop_last());
    } else {
        assert(after.drop_last() =~= pairs.drop_last().update(i, entry));
        lemma_sound_update(pairs.drop_last(), i, entry);
    }
}

proof fn lemma_pairs_sound(s: Seq<u8>, pos: int, before: Seq<(Seq<char>, BencodeModel)>)
    requires
        0 <= pos <= s.len(),
        sound_pairs(before),
        assoc::distinct_keys(before),
    ensures
        pairs_at(s, pos, before) matches ParsedPairs::Pairs(pairs, _) ==> sound_pairs(pairs)
            && assoc::distinct_keys(pairs),
    decreases s.len() - pos, 1int,
{
    if pos < s.len() && s[pos] != 101 {
        if let ParsedBytes::Bytes(key, middle) = bytes_at(s, pos) {
            if pos < middle <= s.len() {
                law_decoded_sound(s, middle);
                lemma_value_end(s, middle);
                if let Parsed::Value(v, end) = value_at(s, middle) {
                    lemma_sound_inserted(before, utf8::decode_utf8(key), v);
                    lemma_pairs_sound(
                        s,
                        end,
                        assoc::inserted(before, utf8::decode_utf8(key), v),
                    );
                }
            }
        }
    }
}

/// The value under a key of a dictionary.
pub open spec fn entry(v: BencodeModel, key: Seq<char>) -> Option<BencodeModel> {
    match v {
        BencodeModel::Dictionary(pairs) => assoc::lookup(pairs, key),
        _ => None,
    }
}

/// The number that a value has to be, or why it is not one.
pub open spec fn as_unsigned(v: BencodeModel, name: Seq<char>) -> Result<u64, Seq<char>> {
    match v {
        BencodeModel::Integer(i) if i >= 0 => Ok(i as u64),
        _ => Err(name + " must be an unsigned integer"@),
    }
}

/// The text that a value has to be, or why it is none.
pub open spec fn as_text(v: BencodeModel, name: Seq<char>) -> Result<Seq<char>, Seq<char>> {
    match v {
        BencodeModel::ByteString(bytes) if utf8::valid_utf8(bytes) => Ok(utf8::decode_utf8(bytes)),
        _ => Err(name + " must be a UTF-8 string"@),
    }
}

/// The bytes that a value has to be, or why it is none.
pub open spec fn as_byte_string(v: BencodeModel, name: Seq<char>) -> Result<Seq<u8>, Seq<char>> {
    match v {
        BencodeModel::ByteString(bytes) => Ok(bytes),
        _ => Err(name + " must be a byte string"@),
    }
}

/// The value that a dictionary has to have under a key, or why there is none.
pub open spec fn required_entry(v: BencodeModel, key: Seq<char>) -> Result<
    BencodeModel,
    Seq<char>,
> {
    match entry(v, key) {
        Some(found) => Ok(found),
        None => Err("Missing key "@ + key),
    }
}

/// A name and what is wrong with it.
fn complaint(name: &str, what: &str) -> (r: String)
    ensures
        r@ == name@ + what@,
{
    let mut r = name.to_owned();
    r.append(what);
    r
}

impl BencodeValue {
    /// No dictionary in the value has a key twice.
    pub open spec fn wf(self) -> bool {
        sound(self.model())
    }

    /// Reads the value at the start of a byte string, and says where it ends.
    /// There is no value where the mark that ends a list or a dictionary stands.
    pub fn from_bytes(bytes: &[u8]) -> (r: Result<(Option<BencodeValue>, usize), String>)
        ensures
            match r {
                Ok((Some(v), end)) => value_at(bytes@, 0) == Parsed::Value(v.model(), end as int)
                    && v.wf() && end <= bytes@.len(),
                Ok((None, end)) => value_at(bytes@, 0) is End && end == 1,
                Err(text) => value_at(bytes@, 0) == Parsed::Error(text@),
            },
    {
        proof {
            law_decoded_sound(bytes@, 0);
            lemma_value_end(bytes@, 0);
        }
        match decode_value(bytes, 0) {
            Decoded::Value(v, end) => Ok((Some(v), end)),
            Decoded::End => Ok((None, 1)),
            Decoded::Error(e) => Err(e),
        }
    }

    /// The encoding of the value.
    pub fn to_bytes(&self) -> (r: Vec<u8>)
        ensures
            r@ == encoded(self.model()),
    {
        let mut r: Vec<u8> = Vec::new();
        encode_value(&mut r, self);
        assert(r@ =~= encoded(self.model()));
        r
    }

    /// The entries of a dictionary.
    pub fn as_dict(&self) -> (r: Option<&Vec<(String, BencodeValue)>>)
        ensures
            match r {
                Some(pairs) => self.model() == BencodeModel::Dictionary(pair_models(pairs@)),
                None => !(self.model() is Dictionary),
            },
    {
        match self {
            BencodeValue::Dictionary(pairs) => Some(pairs),
            _ => None,
        }
    }

    /// The value under a key of a dictionary.
    pub fn get(&self, key: &str) -> (r: Option<&BencodeValue>)
        requires
            self.wf(),
        ensures
            match r {
                Some(v) => entry(self.model(), key@) == Some(v.model()) && v.wf(),
                None => entry(self.model(), key@) is None,
            },
    {
        match self {
            BencodeValue::Dictionary(pairs) => {
                let wanted = key.to_owned();
                match find_key(pairs, &wanted) {
                    Some(i) => {
                        proof {
                            lemma_pair_models(pairs@);
                            lemma_sound_pair(pair_models(pairs@), i as int);
                        }
                        Some(&pairs[i].1)
                    },
                    None => None,
                }
            },
            _ => None,
        }
    }

    /// The value that a dictionary has to have under a key.
    pub fn required(&self, key: &str) -> (r: Result<&BencodeValue, String>)
        requires
            self.wf(),
        ensures
            match r {
                Ok(v) => required_entry(self.model(), key@) == Ok::<_, Seq<char>>(v.model())
                    && v.wf(),
                Err(e) => required_entry(self.model(), key@) == Err::<BencodeModel, _>(e@),
            },
    {
        match self.get(key) {
            Some(v) => Ok(v),
            None => Err(complaint("Missing key ", key)),
        }
    }

    /// The number that the value has to be.
    pub fn unsigned(&self, name: &str) -> (r: Result<u64, String>)
        ensures
            match r {
                Ok(n) => as_unsigned(self.model(), name@) == Ok::<_, Seq<char>>(n),
                Err(e) => as_unsigned(self.model(), name@) == Err::<u64, _>(e@),
            },
    {
        match self {
            BencodeValue::Integer(i) if *i >= 0 => Ok(*i as u64),
            _ => Err(complaint(name, " must be an unsigned integer")),
        }
    }

    /// The text that the value has to be.
    pub fn string(&self, name: &str) -> (r: Result<String, String>)
        ensures
            match r {
                Ok(s) => as_text(self.model(), name@) == Ok::<_, Seq<char>>(s@),
                Err(e) => as_text(self.model(), name@) == Err::<Seq<char>, _>(e@),
            },
    {
        if let BencodeValue::ByteString(bytes) = self {
            if let Some(s) = string_from_utf8(crate::bytes::copy_bytes(bytes.as_slice())) {
                return Ok(s);
            }
        }
        Err(complaint(name, " must be a UTF-8 string"))
    }

    /// The bytes that the value has to be.
    pub fn byte_string(&self, name: &str) -> (r: Result<&Vec<u8>, String>)
        ensures
            match r {
                Ok(b) => as_byte_string(self.model(), name@) == Ok::<_, Seq<char>>(b@),
                Err(e) => as_byte_string(self.model(), name@) == Err::<Seq<u8>, _>(e@),
            },
    {
        match self {
            BencodeValue::ByteString(bytes) => Ok(bytes),
            _ => Err(complaint(name, " must be a byte string")),
        }
    }

    /// The text under a key of a dictionary, if there is anything.
    pub fn optional_string(&self, key: &str) -> (r: Result<Option<String>, String>)
        requires
            self.wf(),
        ensures
            match entry(self.model(), key@) {
                None => r matches Ok(None),
                Some(v) => match as_text(v, key@) {
                    Ok(text) => r matches Ok(Some(s)) && s@ == text,
                    Err(text) => r matches Err(e) && e@ == text,
                },
            },
    {
        match self.get(key) {
            None => Ok(None),
            Some(v) => match v.string(key) {
                Ok(s) => Ok(Some(s)),
                Err(e) => Err(e),
            },
        }
    }

    /// The number under a key of a dictionary, if there is anything.
    pub fn optional_unsigned(&self, key: &str) -> (r: Result<Option<u64>, String>)
        requires
            self.wf(),
        ensures
            match entry(self.model(), key@) {
                None => r matches Ok(None),
                Some(v) => match as_unsigned(v, key@) {
                    Ok(n) => r matches Ok(Some(m)) && m == n,
                    Err(text) => r matches Err(e) && e@ == text,
                },
            },
    {
        match self.get(key) {
            None => Ok(None),
            Some(v) => match v.unsigned(key) {
                Ok(n) => Ok(Some(n)),
                Err(e) => Err(e),
            },
        }
    }
}

} // verus!
