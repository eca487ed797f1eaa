use lanflow::discovery::{
    choose_address, host_name_of, now_ms, parse_version, peer_from_announcement, service_type,
    Announced, Announcement, PeerRegistry,
};

fn announcement(id: Option<&str>, addresses: &[(&str, bool)]) -> Announcement {
    Announcement {
        id: id.map(|id| id.to_owned()),
        name: None,
        addresses: addresses
            .iter()
            .map(|(address, is_ipv4)| Announced { address: address.to_string(), is_ipv4: *is_ipv4 })
            .collect(),
        port: 47_932,
        major: None,
        minor: None,
    }
}

#[test]
fn names_of_the_service() {
    assert_eq!(service_type(), "_lanflow._tcp.local.");
    assert_eq!(host_name_of("0123456789"), "lanflow-01234567.local.");
    assert_eq!(host_name_of("ab"), "lanflow-ab.local.");
    assert_eq!(host_name_of("\u{e9}\u{e9}\u{e9}\u{e9}\u{e9}"), "lanflow-\u{e9}\u{e9}\u{e9}\u{e9}.local.");
}

#[test]
fn the_clock_is_read() {
    let now = now_ms();
    assert!(now > 1_577_836_800_000);
    assert!(now_ms() - now < 60_000);
}

#[test]
fn version_numbers() {
    for text in ["0", "7", "+7", "65535", "000012", "", "+", "-1", "65536", "1.0", " 1", "x", "99999999999999999999999"] {
        assert_eq!(parse_version(text), text.parse::<u16>().ok(), "{:?}", text);
    }
}

#[test]
fn the_first_ipv4_address_is_chosen() {
    let list = |addresses: &[(&str, bool)]| announcement(None, addresses).addresses;
    assert_eq!(choose_address(&list(&[("::1", false), ("1.1.1.1", true), ("2.2.2.2", true)])), "1.1.1.1");
    assert_eq!(choose_address(&list(&[("::1", false), ("::2", false)])), "::1");
    assert_eq!(choose_address(&Vec::new()), "");
}

#[test]
fn peers_are_announced() {
    assert!(peer_from_announcement(&announcement(None, &[("1.1.1.1", true)]), "me", 5).is_none());
    assert!(peer_from_announcement(&announcement(Some("me"), &[("1.1.1.1", true)]), "me", 5).is_none());
    assert!(peer_from_announcement(&announcement(Some("you"), &[]), "me", 5).is_none());
    let mut heard = announcement(Some("you"), &[("1.1.1.1", true)]);
    let peer = peer_from_announcement(&heard, "me", 5).unwrap();
    assert_eq!((peer.id.as_str(), peer.name.as_str()), ("you", "you"));
    assert_eq!((peer.protocol_major, peer.protocol_minor), (1, 0));
    assert_eq!((peer.online, peer.manual, peer.last_seen, peer.port), (true, false, 5, 47_932));
    heard.name = Some("Name".to_owned());
    heard.major = Some("3".to_owned());
    heard.minor = Some("bad".to_owned());
    let peer = peer_from_announcement(&heard, "me", 5).unwrap();
    assert_eq!(peer.name, "Name");
    assert_eq!((peer.protocol_major, peer.protocol_minor), (3, 0));
}

#[test]
fn peers_come_and_go() {
    let mut registry = PeerRegistry::new();
    let heard = announcement(Some("you"), &[("1.1.1.1", true)]);
    registry.resolved("you._lanflow".to_owned(), &heard, "me", 5);
    assert!(registry.find("you").unwrap().online);
    registry.removed("other._lanflow", 6);
    assert!(registry.find("you").unwrap().online);
    registry.removed("you._lanflow", 7);
    let peer = registry.find("you").unwrap();
    assert!(!peer.online);
    assert_eq!(peer.last_seen, 7);
    registry.removed("you._lanflow", 8);
    assert_eq!(registry.find("you").unwrap().last_seen, 7);
    registry.resolved("me._lanflow".to_owned(), &announcement(Some("me"), &[("1.1.1.1", true)]), "me", 9);
    assert!(registry.find("me").is_none());
    let mut manual = peer_from_announcement(&announcement(Some("third"), &[("3.3.3.3", true)]), "me", 1).unwrap();
    manual.manual = true;
    registry.connected(&manual);
    assert!(registry.find("third").unwrap().manual);
    let mut ids: Vec<String> = registry.list().into_iter().map(|peer| peer.id).collect();
    ids.sort();
    assert_eq!(ids, vec!["third", "you"]);
}
