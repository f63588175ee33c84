use agni::ssdp::broadcast_presence;
use agni::ssdp::contains_bytes;
use agni::ssdp::destination;
use agni::ssdp::first_local_ip;
use agni::ssdp::get_local_ip;
use agni::ssdp::get_local_ips;
use agni::ssdp::is_discovery_request;
use agni::ssdp::presence_cycle;
use agni::ssdp::qualifying_ips;
use agni::ssdp::reply_presence;
use agni::ssdp::write_device_name;
use agni::ssdp::write_message;
use agni::ssdp::Interface;
use agni::ssdp::Presence;

const ID: u128 = 0xa1a2a3a4b1b2c1c2d1d2d3d4d5d6d7d8;

const NAME: &str = "uuid:a1a2a3a4-b1b2-c1c2-d1d2-d3d4d5d6d7d8";

fn alive(ip: &str, nt: &str, usn: &str) -> String {
    format!(
        "NOTIFY * HTTP/1.1\r\nHOST: 239.255.255.250:1900\r\nNT: {}\r\nNTS: ssdp:alive\r\n\
LOCATION: http://{}:3030/root.xml\r\nUSN: {}\r\nCACHE-CONTROL: max-age=1800\r\n\
SERVER: Linux/5.8, UPnP/1.0, agni/1.0\r\n\r\n",
        nt, ip, usn
    )
}

fn reply(date: &str, ip: &str, st: &str, usn: &str) -> String {
    format!(
        "HTTP/1.1 200 OK\r\nCACHE-CONTROL: max-age=1800\r\nDATE: {}\r\nEXT:\r\n\
LOCATION: http://{}:3030/root.xml\r\nSERVER: Linux/5.8, UPnP/1.0, agni/1.0\r\nST: {}\r\n\
USN: {}\r\n\r\n",
        date, ip, st, usn
    )
}

fn five(write: &dyn Fn(&str, &str) -> String) -> Vec<String> {
    let service = |target: &str| write(target, &format!("{}::{}", NAME, target));
    vec![
        write(NAME, NAME),
        service("upnp:rootdevice"),
        service("urn:schemas-upnp-org:device:MediaServer:1"),
        service("urn:schemas-upnp-org:service:ConnectionManager:1"),
        service("urn:schemas-upnp-org:service:ContentDirectory:1"),
    ]
}

fn interface(broadcast: bool, multicast: bool, ips: &[&str]) -> Interface {
    Interface { broadcast, multicast, ips: ips.iter().map(|ip| ip.to_string()).collect() }
}

#[test]
fn a_device_is_named_by_its_id() {
    assert_eq!(write_device_name(ID), NAME);
    assert_eq!(write_device_name(0), "uuid:00000000-0000-0000-0000-000000000000");
    assert_eq!(
        write_device_name(0x0123456789abcdef0fedcba987654321),
        "uuid:01234567-89ab-cdef-0fed-cba987654321"
    );
    assert_eq!(write_device_name(u128::MAX), "uuid:ffffffff-ffff-ffff-ffff-ffffffffffff");
    assert_eq!(write_device_name(1), "uuid:00000000-0000-0000-0000-000000000001");
}

#[test]
fn an_announcement_is_a_block_of_headers() {
    assert_eq!(
        write_message(&Presence::Alive, "10.0.0.2", "upnp:rootdevice", "uuid:x::upnp:rootdevice"),
        alive("10.0.0.2", "upnp:rootdevice", "uuid:x::upnp:rootdevice")
    );
}

#[test]
fn an_answer_is_a_block_of_headers() {
    let kind = Presence::Reply("Thu, 01 Jan 1970 00:00:00 GMT".to_string());
    assert_eq!(
        write_message(&kind, "10.0.0.2", "upnp:rootdevice", "uuid:x::upnp:rootdevice"),
        reply("Thu, 01 Jan 1970 00:00:00 GMT", "10.0.0.2", "upnp:rootdevice", "uuid:x::upnp:rootdevice")
    );
}

#[test]
fn one_cycle_for_one_address_sends_fifteen_messages() {
    let messages = broadcast_presence(ID, &vec!["10.0.0.2".to_string()]);
    assert_eq!(messages.len(), 15);
    let expected = five(&|target, usn| alive("10.0.0.2", target, usn));
    assert_eq!(&messages[0..5], &expected[..]);
    assert_eq!(&messages[5..10], &expected[..]);
    assert_eq!(&messages[10..15], &expected[..]);
    for i in 0..5 {
        for j in 0..i {
            assert_ne!(messages[i], messages[j]);
        }
    }
}

#[test]
fn a_cycle_goes_through_the_addresses_in_turn() {
    let ips = vec!["10.0.0.2".to_string(), "192.168.1.9".to_string()];
    let messages = broadcast_presence(ID, &ips);
    assert_eq!(messages.len(), 30);
    assert_eq!(&messages[0..5], &five(&|target, usn| alive("10.0.0.2", target, usn))[..]);
    assert_eq!(&messages[25..30], &five(&|target, usn| alive("192.168.1.9", target, usn))[..]);
    assert!(broadcast_presence(ID, &vec![]).is_empty());
}

#[test]
fn an_answer_carries_the_time() {
    let messages = reply_presence(ID, &vec!["10.0.0.2".to_string()], 1431648000).unwrap();
    assert_eq!(messages.len(), 15);
    let date = "Fri, 15 May 2015 00:00:00 GMT";
    let expected = five(&|target, usn| reply(date, "10.0.0.2", target, usn));
    assert_eq!(&messages[0..5], &expected[..]);
    assert_eq!(&messages[10..15], &expected[..]);
    let first = reply_presence(ID, &vec!["h".to_string()], 0).unwrap();
    assert!(first[0].contains("DATE: Thu, 01 Jan 1970 00:00:00 GMT\r\n"));
    let later = reply_presence(ID, &vec!["h".to_string()], 86399).unwrap();
    assert!(later[0].contains("DATE: Thu, 01 Jan 1970 23:59:59 GMT\r\n"));
    let new_year = reply_presence(ID, &vec!["h".to_string()], 1609556645).unwrap();
    for message in &new_year {
        assert!(message.contains("\r\nDATE: Sat, 02 Jan 2021 03:04:05 GMT\r\n"));
    }
}

#[test]
fn a_time_out_of_range_gives_no_answer() {
    assert_eq!(reply_presence(ID, &vec!["h".to_string()], i64::MAX), None);
    assert_eq!(reply_presence(ID, &vec!["h".to_string()], i64::MIN), None);
}

#[test]
fn a_cycle_of_answers_follows_its_kind() {
    let kind = Presence::Reply("now".to_string());
    let messages = presence_cycle(&kind, "uuid:x", &vec!["h".to_string()]);
    assert_eq!(messages.len(), 15);
    assert_eq!(messages[0], reply("now", "h", "uuid:x", "uuid:x"));
    assert_eq!(
        messages[4],
        reply(
            "now",
            "h",
            "urn:schemas-upnp-org:service:ContentDirectory:1",
            "uuid:x::urn:schemas-upnp-org:service:ContentDirectory:1"
        )
    );
}

#[test]
fn messages_go_to_the_peer_or_to_the_group() {
    assert_eq!(destination(&None), "239.255.255.250:1900");
    assert_eq!(destination(&Some("10.0.0.7:50000".to_string())), "10.0.0.7:50000");
}

#[test]
fn bytes_are_searched() {
    assert!(contains_bytes(b"abcabd", b"abd"));
    assert!(contains_bytes(b"abcabd", b"abc"));
    assert!(contains_bytes(b"abcabd", b""));
    assert!(contains_bytes(b"", b""));
    assert!(contains_bytes(b"aab", b"ab"));
    assert!(!contains_bytes(b"abcabd", b"abe"));
    assert!(!contains_bytes(b"ab", b"abc"));
    assert!(!contains_bytes(b"", b"a"));
}

#[test]
fn a_search_for_the_content_directory_is_answered() {
    let search = b"M-SEARCH * HTTP/1.1\r\nHOST: 239.255.255.250:1900\r\nMAN: \"ssdp:discover\"\r\n\
MX: 3\r\nST: urn:schemas-upnp-org:service:ContentDirectory:1\r\n\r\n";
    assert!(is_discovery_request(search));
    assert!(is_discovery_request(b"\xff ContentDirectory ssdp:discover M-SEARCH \xfe"));
}

#[test]
fn other_datagrams_are_not_answered() {
    let all = b"M-SEARCH * HTTP/1.1\r\nHOST: 239.255.255.250:1900\r\nMAN: \"ssdp:discover\"\r\n\
MX: 3\r\nST: ssdp:all\r\n\r\n";
    assert!(!is_discovery_request(all));
    assert!(!is_discovery_request(b"NOTIFY * HTTP/1.1\r\nNT: ContentDirectory ssdp:discover"));
    assert!(!is_discovery_request(b"M-SEARCH ContentDirectory"));
    assert!(!is_discovery_request(b"m-search ssdp:discover ContentDirectory"));
    assert!(!is_discovery_request(b""));
}

#[test]
fn the_addresses_of_interfaces_that_qualify_are_advertised() {
    let interfaces = vec![
        interface(false, true, &["127.0.0.1"]),
        interface(true, true, &["10.0.0.2", "fe80::1"]),
        interface(true, false, &["10.1.0.2"]),
        interface(true, true, &[]),
        interface(true, true, &["192.168.1.9"]),
    ];
    assert_eq!(qualifying_ips(&interfaces), vec!["10.0.0.2", "fe80::1", "192.168.1.9"]);
    assert_eq!(first_local_ip(&interfaces), Some("10.0.0.2".to_string()));
    assert!(qualifying_ips(&vec![]).is_empty());
}

#[test]
fn the_first_interface_that_qualifies_gives_the_address() {
    assert_eq!(first_local_ip(&vec![]), None);
    assert_eq!(first_local_ip(&vec![interface(true, false, &["10.0.0.2"])]), None);
    let interfaces = vec![interface(true, true, &[]), interface(true, true, &["10.0.0.2"])];
    assert_eq!(first_local_ip(&interfaces), None);
}

#[test]
fn the_machine_is_asked_for_its_addresses() {
    let ips = get_local_ips();
    match get_local_ip() {
        Some(ip) => assert_eq!(ips.first(), Some(&ip)),
        None => {}
    }
}
