use victoria::bitfield::Bitfield;
use victoria::number;
use victoria::peer_map::PeerMap;
use victoria::pretty::{pretty_bar, pretty_duration, pretty_size};
use victoria::str_map::StrMap;
use victoria::style::{Color, Palette};
use victoria::text;
use victoria::types::{Endpoint, PeerId, PeerInfo, Sha1Hash};

fn endpoint(host: &str, port: u16) -> Endpoint {
    Endpoint { host: host.to_owned(), port }
}

#[test]
fn bits_are_counted_from_the_left() {
    let mut bits = Bitfield::new(10);
    bits.set(0);
    bits.set(9);
    assert_eq!(bits.as_bytes(), &[0x80, 0x40]);
    assert!(bits.has(0) && !bits.has(1) && bits.has(9));
    assert_eq!(bits.num_bytes(), 2);
    assert!(bits.is_sound());
}

#[test]
fn bytes_give_the_bits_back() {
    let mut a = Bitfield::new(11);
    a.set(3);
    a.set(10);
    let mut b = Bitfield::new(11);
    b.set_bytes(a.as_bytes());
    for i in 0..11 {
        assert_eq!(a.has(i), b.has(i));
    }
    b.fill(true);
    assert!((0..11).all(|i| b.has(i)));
    b.fill(false);
    assert!((0..11).all(|i| !b.has(i)));
    assert_eq!(Bitfield::from_vec(vec![1, 2]).length, 16);
    assert!(a.copy().has(3));
}

#[test]
fn numbers_are_written_and_read() {
    let mut bytes = Vec::new();
    number::push_be32(&mut bytes, 0x0102_0304);
    number::push_be16(&mut bytes, 0x0506);
    number::push_be64(&mut bytes, 0x0102_0304_0506_0708);
    assert_eq!(bytes, [1, 2, 3, 4, 5, 6, 1, 2, 3, 4, 5, 6, 7, 8]);
    assert_eq!(number::read_be32(&bytes, 0), 0x0102_0304);
    assert_eq!(number::read_be16(&bytes, 4), 0x0506);
    assert_eq!(number::to_decimal(0), "0");
    assert_eq!(number::to_decimal(u64::MAX), "18446744073709551615");
    assert_eq!(number::read_digits(b"a0123b", 1, 5), Some(123));
    assert_eq!(number::read_digits(b"18446744073709551616", 0, 20), None);
}

#[test]
fn maps_keep_their_order() {
    let (a, b) = (PeerId { bytes: [1; 20] }, PeerId { bytes: [2; 20] });
    let mut map = PeerMap::new();
    map.insert(a, "a");
    map.insert(b, "b");
    map.insert(a, "c");
    assert_eq!(map.entries.iter().map(|e| e.1).collect::<Vec<_>>(), ["c", "b"]);
    map.remove(&a);
    assert_eq!(map.position(&a), None);
    assert_eq!(map.position(&b), Some(0));

    let mut codes = StrMap::new();
    codes.insert("x".to_owned(), 1);
    let mut more = StrMap::new();
    more.insert("x".to_owned(), 2);
    more.insert("y".to_owned(), 3);
    codes.extend_from(&more);
    assert_eq!(codes.get("x"), Some(2));
    assert_eq!(codes.get("y"), Some(3));
    assert_eq!(codes.get("z"), None);
    assert_eq!(codes.copy().get("y"), Some(3));
}

#[test]
fn control_sequences_take_no_width() {
    assert_eq!(text::visible_width("plain"), 5);
    assert_eq!(text::visible_width("\u{1b}[38;5;10mgreen\u{1b}[0m"), 5);
    assert_eq!(text::visible_width("\u{1b}[31"), 0);
    assert_eq!(text::visible_width("\u{1b}x"), 2);
    assert_eq!(text::visible_width("h\u{e9}\u{2026}"), 3);
}

#[test]
fn plain_text_takes_its_length_before_anything() {
    let rest = "\u{1b}[0mxy";
    let all = format!("abc{rest}");
    assert_eq!(text::visible_width(&all), 3 + text::visible_width(rest));
}

#[test]
fn lines_end_with_newlines() {
    assert_eq!(text::lines("a\r\nb\n\nc"), ["a", "b", "", "c"]);
    assert_eq!(text::lines("a\n"), ["a"]);
    assert!(text::lines("").is_empty());
    assert_eq!(text::lines("a\r"), ["a\r"]);
}

#[test]
fn long_texts_are_chopped() {
    assert_eq!(text::chop("hello".to_owned(), 5).as_deref(), Some("hello"));
    assert_eq!(text::chop("hello".to_owned(), 4).as_deref(), Some("hel\u{2026}"));
    assert_eq!(text::chop("hello".to_owned(), 1).as_deref(), Some("\u{2026}"));
    assert_eq!(text::chop("hello".to_owned(), 0), None);
    assert_eq!(text::chop(String::new(), 0).as_deref(), Some(""));
}

#[test]
fn codes_of_the_palette_are_invisible() {
    let palette = Palette::current();
    for color in [Color::Green, Color::White, Color::Red, Color::Yellow, Color::Magenta] {
        let mut out = String::new();
        palette.push_code(&mut out, color);
        out.push_str("x");
        out.push_str(&palette.reset);
        assert_eq!(text::visible_width(&out), 1);
    }
}

#[test]
fn sizes_are_shown_in_the_largest_unit() {
    assert_eq!(pretty_size(0), "0 B");
    assert_eq!(pretty_size(1023), "1023 B");
    assert_eq!(pretty_size(1024), "1.0 KiB");
    assert_eq!(pretty_size(1536), "1.5 KiB");
    assert_eq!(pretty_size(5 * 1024 * 1024), "5.0 MiB");
    assert_eq!(pretty_size(3 << 30), "3.0 GiB");
    assert_eq!(pretty_size(2000 << 40), "2000.0 TiB");
}

#[test]
fn durations_are_shown_in_two_units() {
    assert_eq!(pretty_duration(59), "59s");
    assert_eq!(pretty_duration(61), "1m 1s");
    assert_eq!(pretty_duration(7325), "2h 2m");
    assert_eq!(pretty_duration(90_000), "1d 1h");
}

#[test]
fn bars_show_full_half_and_empty_cells() {
    let mut bits = Bitfield::new(6);
    bits.set(0);
    bits.set(1);
    bits.set(2);
    assert_eq!(pretty_bar(&bits, 3), "\u{2588}\u{2592} ");
    assert_eq!(pretty_bar(&bits, 0), "");
    assert_eq!(pretty_bar(&Bitfield::new(0), 4), "    ");
    let mut one = Bitfield::new(1);
    one.set(0);
    assert_eq!(pretty_bar(&one, 3), "\u{2588}\u{2588}\u{2588}");
}

#[test]
fn identities_are_shown_in_hexadecimal() {
    let mut bytes = [0u8; 20];
    bytes[0] = 0xab;
    bytes[19] = 0x09;
    let text = PeerId { bytes }.to_text();
    assert_eq!(text.len(), 40);
    assert!(text.starts_with("ab00") && text.ends_with("0009"));
}

#[test]
fn topics_name_hashes() {
    let hex = "0123456789abcdefABCDEF0000000000000000ff";
    let hash = Sha1Hash::from_xt(&format!("urn:btih:{hex}")).unwrap();
    assert_eq!(&hash.bytes[..4], &[0x01, 0x23, 0x45, 0x67]);
    assert_eq!(hash.bytes[19], 0xff);
    assert!(Sha1Hash::from_xt(hex).is_none());
    assert!(Sha1Hash::from_xt(&format!("urn:btih:{}", &hex[1..])).is_none());
    assert!(Sha1Hash::from_xt(&format!("urn:btih:x{}", &hex[1..])).is_none());
    assert!(Sha1Hash::from_xt(&format!("urn:sha1:{hex}")).is_none());
}

#[test]
fn peers_are_the_same_by_identity_or_endpoint() {
    let id = PeerId { bytes: [7; 20] };
    let a = PeerInfo { id: Some(id), endpoints: vec![endpoint("a", 1)] };
    let b = PeerInfo { id: Some(id), endpoints: vec![endpoint("b", 1)] };
    let c = PeerInfo { id: None, endpoints: vec![endpoint("a", 1), endpoint("c", 2)] };
    assert!(a.is_same_peer(&b));
    assert!(a.is_same_peer(&c) && c.is_same_peer(&a));
    assert!(!b.is_same_peer(&c));
    assert!(!a.same_info(&b) && a.same_info(&a.copy()));
}

#[test]
fn merging_adds_what_is_missing() {
    let id = PeerId { bytes: [7; 20] };
    let mut a = PeerInfo { id: None, endpoints: vec![endpoint("a", 1)] };
    a.merge(PeerInfo { id: Some(id), endpoints: vec![endpoint("b", 2), endpoint("a", 1)] });
    assert!(a.id == Some(id));
    assert_eq!(a.to_text(), "a:1, b:2");
    a.merge(PeerInfo { id: Some(PeerId { bytes: [8; 20] }), endpoints: vec![] });
    assert!(a.id == Some(id));
}
