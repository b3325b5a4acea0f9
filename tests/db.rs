use std::io::Write;

use oui_lookup::db::{build_database, check_disjoint, decode_database, lookup, Cache, DecodeError};
use oui_lookup::oui::MacAddress;
use oui_lookup::refresh::{next_action, CacheRead, LoadAction, LoadEvent};

fn lines(text: &[&str]) -> Vec<String> {
    text.iter().map(|s| s.to_string()).collect()
}

fn sample() -> Vec<String> {
    lines(&[
        "# header",
        "00:55:DA:50/28     Nanoleaf        Nanoleaf",
        "00:50:F1           Maxlinear       Maxlinear, Inc",
        "not a record",
        "00:1B:C5:00:10/36  Vendor1  Vendor One",
        "00:1B:C5:00:20/36  Vendor2  Vendor Two",
        "",
        "FC:FF:FF  Last  Last Vendor",
    ])
}

fn mac(s: &str) -> MacAddress {
    MacAddress::parse(s).unwrap()
}

#[test]
fn builder_sorts_and_drops() {
    let db = build_database(&sample());
    assert_eq!(db.len(), 5);
    for w in db.windows(2) {
        assert!(w[0].mac().to_u64() <= w[1].mac().to_u64());
    }
    assert_eq!(db[0].short_name, "Vendor1");
    assert_eq!(db[1].short_name, "Vendor2");
    assert_eq!(db[2].short_name, "Maxlinear");
    assert_eq!(db[3].short_name, "Nanoleaf");
    assert_eq!(db[4].short_name, "Last");
    assert!(build_database(&Vec::new()).is_empty());
}

#[test]
fn builder_keeps_order_of_equal_keys() {
    let db = build_database(&lines(&["00:50:F1 B Second", "00:50:F1 A First", "00:00:01 Z Zed"]));
    assert_eq!(db[0].short_name, "Z");
    assert_eq!(db[1].short_name, "B");
    assert_eq!(db[2].short_name, "A");
}

#[test]
fn disjoint_check() {
    let db = build_database(&sample());
    assert!(check_disjoint(&db));
    assert!(check_disjoint(&Vec::new()));
    let db = build_database(&lines(&["00:1B:C5 A Whole", "00:1B:C5:00:10/36 B Part"]));
    assert!(!check_disjoint(&db));
    let db = build_database(&lines(&["00:50:F1 A One", "00:50:F2 B Two"]));
    assert!(check_disjoint(&db));
}

#[test]
fn lookup_hits_and_misses() {
    let db = build_database(&sample());
    assert_eq!(lookup(&db, mac("00:50:f1:12:34:56")), Ok(2));
    assert_eq!(lookup(&db, mac("00:55:da:5f:ff:ff")), Ok(3));
    assert_eq!(lookup(&db, mac("00:55:da:60:00:00")), Err(4));
    assert_eq!(lookup(&db, mac("00:1b:c5:00:11:aa")), Ok(0));
    assert_eq!(lookup(&db, mac("00:1b:c5:00:20:bb")), Ok(1));
    assert_eq!(lookup(&db, mac("00:1b:c5:00:30:00")), Err(2));
    assert_eq!(lookup(&db, mac("00:00:00:00:00:00")), Err(0));
    assert_eq!(lookup(&db, mac("fc:ff:ff:ff:ff:ff")), Ok(4));
    assert_eq!(lookup(&db, mac("ff:ff:ff:ff:ff:ff")), Err(5));
    assert_eq!(lookup(&Vec::new(), mac("00:50:f1")), Err(0));
}

#[test]
fn lookup_zero_length_block() {
    let db = build_database(&lines(&["00:00:00/0 Any Everyone"]));
    assert_eq!(lookup(&db, mac("ab:cd:ef:01:23:45")), Ok(0));
}

#[test]
fn cache_holds_snapshot() {
    let c = Cache { last_modified: Some("Mon".to_string()), etag: None, db: build_database(&sample()) };
    assert_eq!(c.db.len(), 5);
    assert_eq!(c.last_modified.as_deref(), Some("Mon"));
}

#[test]
fn refresh_policy() {
    let start = |no_cache, force, has_path| next_action(LoadEvent::Start { no_cache, force, has_path });
    assert_eq!(start(true, false, true), LoadAction::Download { save: false });
    assert_eq!(start(false, false, false), LoadAction::Download { save: false });
    assert_eq!(start(false, true, true), LoadAction::Download { save: true });
    assert_eq!(start(false, false, true), LoadAction::ReadCache);
    assert_eq!(next_action(LoadEvent::CacheRead(CacheRead::Found)), LoadAction::Probe);
    assert_eq!(next_action(LoadEvent::CacheRead(CacheRead::Missing)), LoadAction::Download { save: true });
    assert_eq!(next_action(LoadEvent::CacheRead(CacheRead::Unreadable)), LoadAction::Download { save: true });
    assert_eq!(next_action(LoadEvent::Probed { not_modified: true }), LoadAction::UseCached);
    assert_eq!(next_action(LoadEvent::Probed { not_modified: false }), LoadAction::Download { save: true });
    assert_eq!(next_action(LoadEvent::Downloaded { save: true }), LoadAction::Save);
    assert_eq!(next_action(LoadEvent::Downloaded { save: false }), LoadAction::Done);
    assert_eq!(next_action(LoadEvent::Saved { ok: true }), LoadAction::Done);
    assert_eq!(next_action(LoadEvent::Saved { ok: false }), LoadAction::DiscardPartialFile);
}

fn gzip(data: &[u8]) -> Vec<u8> {
    let mut enc = flate2::write::GzEncoder::new(Vec::new(), flate2::Compression::default());
    enc.write_all(data).unwrap();
    enc.finish().unwrap()
}

#[test]
fn decode_gzipped_database() {
    let text = "# header\r\n00:55:DA:50/28  Nanoleaf  Nanoleaf\r\n00:50:F1  Maxlinear  Maxlinear, Inc\n";
    let db = decode_database(&gzip(text.as_bytes())).unwrap();
    assert_eq!(db.len(), 2);
    assert_eq!(db[0].short_name, "Maxlinear");
    assert_eq!(db[0].long_name, "Maxlinear, Inc");
    assert_eq!(db[1].long_name, "Nanoleaf");
    assert_eq!(db[1].prefix_len(), 28);
    assert!(decode_database(&gzip(b"")).unwrap().is_empty());
}

#[test]
fn decode_errors() {
    assert_eq!(decode_database(&b"not gzip at all".to_vec()).err(), Some(DecodeError::Gzip));
    assert_eq!(decode_database(&gzip(&[0xff, 0xfe, 0x00])).err(), Some(DecodeError::Utf8));
}
