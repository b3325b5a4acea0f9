use std::cmp::Ordering;

use oui_lookup::oui::{MacAddress, MacPrefix, Oui};

#[test]
fn test_parse() {
    let o = Oui::from_manuf("00:50:F1           Maxlinear       Maxlinear, Inc").unwrap();
    assert_eq!(&o.mac().0, b"\x00\x50\xf1\x00\x00\x00");
    assert_eq!(o.prefix_len(), 24);
    assert_eq!(o.short_name, "Maxlinear");
    assert_eq!(o.long_name, "Maxlinear, Inc");

    let o = Oui::from_manuf("00:55:DA:50/28     Nanoleaf        Nanoleaf").unwrap();
    assert_eq!(&o.mac().0, b"\x00\x55\xda\x50\x00\x00");
    assert_eq!(o.prefix_len(), 28);
    assert_eq!(o.short_name, "Nanoleaf");
    assert_eq!(o.long_name, "Nanoleaf");

    assert!(Oui::from_manuf("# foo bar").is_none());
}

#[test]
fn test_matches() {
    let prefix = MacPrefix::parse("01:02:03").unwrap();
    assert!(prefix.matches(MacAddress::parse("01:02:03:04:05:06").unwrap()));
    assert!(!prefix.matches(MacAddress::parse("01:02:33:00:00:00").unwrap()));

    let prefix = MacPrefix::parse("00:1B:C5:00:10/36").unwrap();
    assert!(prefix.matches(MacAddress::parse("00:1b:c5:00:10:aa").unwrap()));
    assert!(prefix.matches(MacAddress::parse("00:1b:c5:00:11:aa").unwrap()));
    assert!(!prefix.matches(MacAddress::parse("00:1b:c5:00:20:bb").unwrap()));
}

#[test]
fn short_address_is_zero_padded() {
    let a = MacAddress::parse("aa:bb:cc").unwrap();
    let b = MacAddress::parse("aa:bb:cc:00:00:00").unwrap();
    assert_eq!(a, b);
    assert_eq!(a.0, [0xaa, 0xbb, 0xcc, 0, 0, 0]);
}

#[test]
fn address_parse_rejects() {
    assert!(MacAddress::parse("").is_none());
    assert!(MacAddress::parse("aa:bb:cc:dd:ee:ff:00").is_none());
    assert!(MacAddress::parse("aa::bb").is_none());
    assert!(MacAddress::parse("aa:bb:").is_none());
    assert!(MacAddress::parse("aa:bg").is_none());
    assert!(MacAddress::parse("aa bb").is_none());
    assert!(MacAddress::parse("abc").is_none());
    assert!(MacAddress::parse("a:B:c:D:e:F").is_some());
    assert_eq!(MacAddress::parse("a:B:c:D:e:F").unwrap().0, [10, 11, 12, 13, 14, 15]);
}

#[test]
fn address_from_str() {
    let a: MacAddress = "01:23:45:67:89:ab".parse().unwrap();
    assert_eq!(a.0, [0x01, 0x23, 0x45, 0x67, 0x89, 0xab]);
    assert!("zz".parse::<MacAddress>().is_err());
}

#[test]
fn address_integer_round_trip() {
    let a = MacAddress::parse("01:23:45:67:89:ab").unwrap();
    let v = a.to_u64();
    assert_eq!(v, 0x0123_4567_89ab);
    assert_eq!(MacAddress::from_u64(v), a);
    assert_eq!(MacAddress::from_u64(0xffff_0000_0000_0001).0, [0, 0, 0, 0, 0, 1]);
    let top = MacAddress::parse("ff:ff:ff:ff:ff:ff").unwrap();
    assert_eq!(top.to_u64(), 0xffff_ffff_ffff);
    assert_eq!(MacAddress::from_u64(top.to_u64()), top);
}

#[test]
fn address_text() {
    let a = MacAddress::parse("A:1b:0:Ff:2:3").unwrap();
    assert_eq!(a.to_text(), "0a:1b:00:ff:02:03");
}

#[test]
fn prefix_parse_lengths() {
    let p = MacPrefix::parse("01:02:03").unwrap();
    assert_eq!(p.prefix_len(), 24);
    let p = MacPrefix::parse("01:02:03:04:05:06/48").unwrap();
    assert_eq!(p.prefix_len(), 48);
    assert_eq!(p.mac().0, [1, 2, 3, 4, 5, 6]);
    let p = MacPrefix::parse("ff:ff/0").unwrap();
    assert_eq!(p.prefix_len(), 0);
    assert_eq!(p.mac().0, [0, 0, 0, 0, 0, 0]);
    assert!(p.matches(MacAddress::parse("12:34:56:78:9a:bc").unwrap()));
    assert!(MacPrefix::parse("01:02:03/49").is_none());
    assert!(MacPrefix::parse("01:02:03/").is_none());
    assert!(MacPrefix::parse("01:02:03/x").is_none());
    assert!(MacPrefix::parse("01:02:03/300").is_none());
    assert!(MacPrefix::parse("01:02:zz/24").is_none());
}

#[test]
fn prefix_masks_low_bits() {
    let p = MacPrefix::parse("00:55:DA:5f:ff/28").unwrap();
    assert_eq!(p.mac().0, [0x00, 0x55, 0xda, 0x50, 0, 0]);
    let q = MacPrefix::from_parts(MacAddress::parse("00:55:da:5f").unwrap(), 28);
    assert_eq!(p, q);
    assert_eq!(p.end_value(), 0x0055_da5f_ffff);
}

#[test]
fn prefix_matches_top_bits() {
    let a = MacAddress::parse("80:00:00:00:00:01").unwrap();
    let p = MacPrefix::from_parts(a, 1);
    assert!(p.matches(MacAddress::parse("ff:ff:ff:ff:ff:ff").unwrap()));
    assert!(!p.matches(MacAddress::parse("7f:ff:ff:ff:ff:ff").unwrap()));
    let p = MacPrefix::from_parts(a, 48);
    assert!(p.matches(a));
    assert!(!p.matches(MacAddress::parse("80:00:00:00:00:00").unwrap()));
}

#[test]
fn prefix_text() {
    assert_eq!(MacPrefix::parse("00:50:F1").unwrap().to_text(), "00:50:f1/24");
    assert_eq!(MacPrefix::parse("00:55:DA:50/28").unwrap().to_text(), "00:55:da:50/28");
    assert_eq!(MacPrefix::parse("00:1B:C5:00:10/36").unwrap().to_text(), "00:1b:c5:00:10/36");
    assert_eq!(MacPrefix::parse("12:34/0").unwrap().to_text(), "00:00:00:00:00:00");
    assert_eq!(MacPrefix::parse("12:34/8").unwrap().to_text(), "12/8");
}

#[test]
fn manuf_line_fields() {
    let o = Oui::from_manuf("   00:50:F1\tMaxlinear \t Maxlinear,  Inc  ").unwrap();
    assert_eq!(o.short_name, "Maxlinear");
    assert_eq!(o.long_name, "Maxlinear,  Inc  ");
    assert!(Oui::from_manuf("   # comment").is_none());
    assert!(Oui::from_manuf("00:50:F1 Maxlinear").is_none());
    assert!(Oui::from_manuf("00:50:F1 Maxlinear ").is_none());
    assert!(Oui::from_manuf("").is_none());
    assert!(Oui::from_manuf("zz:50:F1 A B").is_none());
    assert!(Oui::from_manuf("00:50:F1/64 A B").is_none());
    let o = Oui::from_manuf("00:50:F1 A B").unwrap();
    assert_eq!(o.long_name, "B");
}

#[test]
fn records_equal_by_block() {
    let a = Oui::from_manuf("00:50:F1 A Alpha").unwrap();
    let b = Oui::from_manuf("00:50:f1 B Beta").unwrap();
    let c = Oui::from_manuf("00:50:f1/28 B Beta").unwrap();
    assert!(a == b);
    assert!(a != c);
}

#[test]
fn prefixes_order_by_first_address() {
    let a = MacPrefix::parse("00:1B:C5").unwrap();
    let b = MacPrefix::parse("00:1B:C5:00:00/36").unwrap();
    let c = MacPrefix::parse("00:1B:C6").unwrap();
    assert_eq!(a.partial_cmp(&b), Some(Ordering::Equal));
    assert!(a != b);
    assert!(a < c);
    assert!(c > b);
    let x = Oui::from_manuf("00:1B:C6 X Xylo").unwrap();
    let y = Oui::from_manuf("00:1B:C5 Y Yak").unwrap();
    assert_eq!(x.partial_cmp(&y), Some(Ordering::Greater));
}

#[test]
fn parse_error_message() {
    let e = "01:02:03:04:05:06:07".parse::<MacAddress>().unwrap_err();
    assert_eq!(e.message(), "Invalid MAC address");
}

#[test]
fn prefix_equality_by_start_and_length() {
    let p = MacPrefix::parse("01:02:03").unwrap();
    let q = MacPrefix::from_parts(MacAddress::parse("01:02:03:00:00:00").unwrap(), 24);
    assert_eq!(p, q);
    assert!(MacPrefix::same_block(p, q));
    let r = MacPrefix::from_parts(MacAddress::parse("01:02:03:ff:00:00").unwrap(), 24);
    assert!(MacPrefix::same_block(p, r));
    let s = MacPrefix::from_parts(MacAddress::parse("01:02:03:00:00:00").unwrap(), 28);
    assert!(!MacPrefix::same_block(p, s));
    let t = MacPrefix::parse("01:02:04").unwrap();
    assert!(!MacPrefix::same_block(p, t));
}

#[test]
fn rendered_prefix_parses_back() {
    for text in ["00:50:F1", "00:55:DA:50/28", "00:1B:C5:00:10/36", "ab/1", "01:02:03:04:05:06/48"] {
        let p = MacPrefix::parse(text).unwrap();
        assert_eq!(MacPrefix::parse(&p.to_text()), Some(p));
    }
}

#[test]
fn record_prefix_is_parsed_token() {
    let o = Oui::from_manuf("00:55:DA:50/28     Nanoleaf        Nanoleaf").unwrap();
    assert!(MacPrefix::same_block(o.mac_prefix, MacPrefix::parse("00:55:DA:50/28").unwrap()));
}
