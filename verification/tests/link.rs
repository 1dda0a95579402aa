use arrayvec::ArrayString;
use point_registry::host::Host;
use point_registry::link::Link;
use point_registry::link::LinkAsStr;
use point_registry::link::MalformedLinkText;
use point_registry::link::LINK_AS_STR_MAX_SIZE;
use point_registry::registry::Registry;

fn text(l: Link) -> String {
    String::from_utf8(l.to_text()).unwrap()
}

fn corpus() -> Vec<Link> {
    let tags = [
        Registry::BLN,
        Registry::U32,
        Registry::I32,
        Registry::F32,
        Registry::I64,
        Registry::U64,
        Registry::F64,
        Registry::ENU,
        Registry::STR,
    ];
    let ids = [0u32, 1, 9, 10, 123, 99_999, 1_000_000_000, 4_294_967_295];
    let hosts = [
        Host::Local,
        Host::V4(0, 0, 0, 0),
        Host::V4(127, 0, 0, 1),
        Host::V4(255, 255, 255, 255),
        Host::V6(0, 0, 0, 0, 0, 0, 0, 0),
        Host::V6(0, 0, 0, 0, 0, 0, 0, 1),
        Host::V6(0x2001, 0xdb8, 0, 0, 0, 0, 0, 1),
        Host::V6(1, 0, 0, 2, 3, 0, 0, 4),
        Host::V6(0xffff, 0xffff, 0xffff, 0xffff, 0xffff, 0xffff, 0xffff, 0xffff),
    ];
    let mut all = Vec::new();
    for tag in tags {
        for id in ids {
            for host in hosts {
                all.push(Link::new(id, tag, host));
            }
        }
    }
    all
}

#[test]
fn a_new_link_holds_its_parts() {
    let l = Link::new(7, Registry::F64, Host::V4(1, 2, 3, 4));
    assert_eq!(l.id, 7);
    assert_eq!(l.registry, Registry::F64);
    assert_eq!(l.host, Host::V4(1, 2, 3, 4));
}

#[test]
fn the_text_of_a_link_is_tag_identifier_and_host() {
    assert_eq!(text(Link::new(1, Registry::U32, Host::Local)), "U32|0000000001@local");
    assert_eq!(text(Link::new(0, Registry::BLN, Host::Local)), "BLN|0000000000@local");
    assert_eq!(
        text(Link::new(4_294_967_295, Registry::F64, Host::V4(192, 168, 0, 1))),
        "F64|4294967295@192.168.0.1"
    );
    assert_eq!(
        text(Link::new(1234567, Registry::ENU, Host::V6(0x2001, 0xdb8, 0, 0, 0, 0, 0, 1))),
        "ENU|0001234567@2001:db8::1"
    );
    assert_eq!(
        text(Link::new(
            42,
            Registry::I64,
            Host::V6(0xffff, 0xffff, 0xffff, 0xffff, 0xffff, 0xffff, 0xffff, 0xffff)
        )),
        "I64|0000000042@ffff:ffff:ffff:ffff:ffff:ffff:ffff:ffff"
    );
}

#[test]
fn the_longest_text_fills_a_link_as_str() {
    assert_eq!(LINK_AS_STR_MAX_SIZE, 54);
    let l = Link::new(
        4_294_967_295,
        Registry::U64,
        Host::V6(0xffff, 0xffff, 0xffff, 0xffff, 0xffff, 0xffff, 0xffff, 0xffff),
    );
    assert_eq!(l.to_text().len(), 54);
    let s = l.as_link_as_str();
    assert_eq!(s.len(), 54);
    assert!(s.is_full());
    assert_eq!(s.as_str(), "U64|4294967295@ffff:ffff:ffff:ffff:ffff:ffff:ffff:ffff");
    for l in corpus() {
        assert!(l.to_text().len() <= LINK_AS_STR_MAX_SIZE);
    }
}

#[test]
fn a_link_as_str_holds_the_text_of_the_link() {
    let s = Link::new(1, Registry::U32, Host::Local).as_link_as_str();
    assert_eq!(s.as_str(), "U32|0000000001@local");
    for l in corpus() {
        assert_eq!(l.as_link_as_str().as_bytes(), &l.to_text()[..]);
    }
}

#[test]
fn parsing_the_text_of_a_link_gives_the_link_back() {
    for l in corpus() {
        assert_eq!(Link::from_text(&l.to_text()), Ok(l));
        assert_eq!(Link::from_link_as_str(&l.as_link_as_str()), Some(l));
    }
}

#[test]
fn a_link_is_parsed_from_its_text() {
    assert_eq!(
        Link::from_text(b"U32|0000000001@local"),
        Ok(Link::new(1, Registry::U32, Host::Local))
    );
    assert_eq!(
        Link::from_text(b"F32|0000000300@10.1.2.3"),
        Ok(Link::new(300, Registry::F32, Host::V4(10, 1, 2, 3)))
    );
    assert_eq!(
        Link::from_text(b"BLN|4294967295@::1"),
        Ok(Link::new(u32::MAX, Registry::BLN, Host::V6(0, 0, 0, 0, 0, 0, 0, 1)))
    );
    let s: LinkAsStr = ArrayString::from("I32|0000000012@fe80::1").unwrap();
    assert_eq!(
        Link::from_link_as_str(&s),
        Some(Link::new(12, Registry::I32, Host::V6(0xfe80, 0, 0, 0, 0, 0, 0, 1)))
    );
}

#[test]
fn a_link_names_a_string_by_the_tag_of_its_table() {
    let l = Link::new(17, Registry::STR, Host::Local);
    assert_eq!(text(l), "STR|0000000017@local");
    assert_eq!(Link::from_text(b"STR|0000000017@local"), Ok(l));
    assert_eq!(l.as_link_as_str().as_str(), "STR|0000000017@local");
    assert_eq!(Link::from_link_as_str(&l.as_link_as_str()), Some(l));
}

#[test]
fn a_host_in_another_form_is_the_same_link() {
    let l = Link::new(1, Registry::U32, Host::V6(0x2001, 0xdb8, 0, 0, 0, 0, 0, 1));
    assert_eq!(Link::from_text(b"U32|0000000001@2001:db8::1"), Ok(l));
    assert_eq!(Link::from_text(b"U32|0000000001@2001:DB8:0:0:0:0:0:1"), Ok(l));
    assert_eq!(Link::from_text(b"U32|0000000001@2001:0db8::0001"), Ok(l));
    assert_eq!(text(l), "U32|0000000001@2001:db8::1");
}

#[test]
fn a_text_of_a_link_has_16_to_54_bytes() {
    assert_eq!(
        Link::from_text(b"U32|0000000001@0000:0000:0000:0000:0000:0000:0000:0001"),
        Ok(Link::new(1, Registry::U32, Host::V6(0, 0, 0, 0, 0, 0, 0, 1)))
    );
    assert_eq!(
        Link::from_text(b"U32|0000000001@0000:0000:0000:0000:0000:0000:0000:00001"),
        Err(MalformedLinkText)
    );
    assert_eq!(
        Link::from_text(b"U32|0000000001@0000:0000:0000:0000:0000:0000:0000:0000:1"),
        Err(MalformedLinkText)
    );
    assert_eq!(Link::from_text(b"U32|0000000001@"), Err(MalformedLinkText));
    assert_eq!(Link::from_text(b"U32|0000000001@1"), Err(MalformedLinkText));
    assert_eq!(Link::from_text(b"U32|000000001@::"), Err(MalformedLinkText));
    assert_eq!(
        Link::from_text(b"U32|0000000001@::"),
        Ok(Link::new(1, Registry::U32, Host::V6(0, 0, 0, 0, 0, 0, 0, 0)))
    );
}

#[test]
fn different_links_have_different_texts() {
    let all = corpus();
    let mut texts: Vec<Vec<u8>> = all.iter().map(|l| l.to_text()).collect();
    texts.sort();
    texts.dedup();
    assert_eq!(texts.len(), all.len());
}

#[test]
fn a_text_without_its_separators_is_malformed() {
    let bad: [&[u8]; 10] = [
        b"",
        b"U32",
        b"U32|0000000001",
        b"U32|0000000001local",
        b"U320000000001@local",
        b"U32@0000000001|local",
        b"U32|0000000001@",
        b"U32|0000000001@@local",
        b"U32||0000000001@local",
        b"U32|0000000001@local@local",
    ];
    for t in bad {
        assert_eq!(Link::from_text(t), Err(MalformedLinkText));
    }
}

#[test]
fn an_identifier_that_is_not_ten_digits_is_malformed() {
    let bad: [&[u8]; 10] = [
        b"U32|1@local",
        b"U32|000000001@local",
        b"U32|00000000001@local",
        b"U32|000000000a@local",
        b"U32|00000 0001@local",
        b"U32|+000000001@local",
        b"U32|-000000001@local",
        b"U32|0x00000001@local",
        b"U32|4294967296@local",
        b"U32|9999999999@local",
    ];
    for t in bad {
        assert_eq!(Link::from_text(t), Err(MalformedLinkText));
    }
}

#[test]
fn an_unknown_tag_is_malformed() {
    let bad: [&[u8]; 6] = [
        b"XYZ|0000000001@local",
        b"u32|0000000001@local",
        b"STS|0000000001@local",
        b"U3|0000000001@local",
        b"U322|0000000001@local",
        b" U32|0000000001@local",
    ];
    for t in bad {
        assert_eq!(Link::from_text(t), Err(MalformedLinkText));
    }
}

#[test]
fn a_host_that_is_no_host_is_malformed() {
    let bad: [&[u8]; 9] = [
        b"U32|0000000001@localhost",
        b"U32|0000000001@LOCAL",
        b"U32|0000000001@256.0.0.1",
        b"U32|0000000001@1.2.3",
        b"U32|0000000001@1.2.3.4.5",
        b"U32|0000000001@example.org",
        b"U32|0000000001@1::2::3",
        b"U32|0000000001@12345::1",
        b"U32|0000000001@local ",
    ];
    for t in bad {
        assert_eq!(Link::from_text(t), Err(MalformedLinkText));
    }
}

#[test]
fn a_malformed_link_as_str_gives_no_link() {
    let s: LinkAsStr = ArrayString::from("U32|1@local").unwrap();
    assert_eq!(Link::from_link_as_str(&s), None);
    let empty: LinkAsStr = ArrayString::new();
    assert_eq!(Link::from_link_as_str(&empty), None);
    let other: LinkAsStr = ArrayString::from("U32|0000000001@l\u{f6}cal").unwrap();
    assert_eq!(Link::from_link_as_str(&other), None);
}
