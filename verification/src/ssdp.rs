//! Presence on the network: the messages that announce the server to the multicast
//! group and those that answer a search, and the test that tells a search from other
//! datagrams.
//!
//! A device is announced under five targets: its own id, the root device, and the three
//! kinds of device and service that it is. One cycle sends the five messages three
//! times over for every address that is advertised.

use std::fmt::Write;
use vstd::prelude::*;
use vstd::string::StringExecFns;
use vstd::utf8::encode_utf8;
use crate::text::texts;

verus! {

/// The address of the multicast group.
pub const GROUP_ADDRESS: &'static str = "239.255.255.250:1900";

/// The target of the root device.
pub const TARGET_ROOT_DEVICE: &'static str = "upnp:rootdevice";

/// The target of the kind of device that the server is.
pub const TARGET_MEDIA_SERVER: &'static str = "urn:schemas-upnp-org:device:MediaServer:1";

/// The target of the service that is browsed.
pub const TARGET_CONTENT_DIRECTORY: &'static str = "urn:schemas-upnp-org:service:ContentDirectory:1";

/// The target of the service that manages connections.
pub const TARGET_CONNECTION_MANAGER: &'static str =
    "urn:schemas-upnp-org:service:ConnectionManager:1";

/// How the time of an answer is written, as the dates of HTTP are: the day of the week,
/// the day of the month, the name of the month, the year and the time of day.
pub const DATE_PATTERN: &'static str = "%a, %d %b %Y %H:%M:%S GMT";

/// How often the five messages are sent in one cycle.
pub const REPEATS: usize = 3;

// ---------------------------------------------------------------------------
// Messages
// ---------------------------------------------------------------------------

/// What a message is sent as.
#[derive(PartialEq, Debug, Clone)]
pub enum Presence {
    /// An announcement to the group.
    Alive,
    /// An answer to a search, with the time at which it is given, as text.
    Reply(String),
}

/// What a message is sent as, with the time as a text.
pub enum PresenceView {
    Alive,
    Reply(Seq<char>),
}

impl View for Presence {
    type V = PresenceView;

    open spec fn view(&self) -> PresenceView {
        match self {
            Presence::Alive => PresenceView::Alive,
            Presence::Reply(date) => PresenceView::Reply(date@),
        }
    }
}

/// A message up to its target.
pub open spec fn before_target(kind: PresenceView, ip: Seq<char>) -> Seq<char> {
    match kind {
        PresenceView::Alive => "NOTIFY * HTTP/1.1\r\nHOST: 239.255.255.250:1900\r\nNT: "@,
        PresenceView::Reply(date) => "HTTP/1.1 200 OK\r\nCACHE-CONTROL: max-age=1800\r\nDATE: "@
            + date + "\r\nEXT:\r\nLOCATION: http://"@ + ip
            + ":3030/root.xml\r\nSERVER: Linux/5.8, UPnP/1.0, agni/1.0\r\nST: "@,
    }
}

/// A message from its target on.
pub open spec fn after_target(kind: PresenceView, ip: Seq<char>, usn: Seq<char>) -> Seq<char> {
    match kind {
        PresenceView::Alive => "\r\nNTS: ssdp:alive\r\nLOCATION: http://"@ + ip
            + ":3030/root.xml\r\nUSN: "@ + usn
            + "\r\nCACHE-CONTROL: max-age=1800\r\nSERVER: Linux/5.8, UPnP/1.0, agni/1.0\r\n\r\n"@,
        PresenceView::Reply(_) => "\r\nUSN: "@ + usn + "\r\n\r\n"@,
    }
}

/// A message: headers alone, closed by an empty line. It names its target, the unique
/// name of the service, and the place of the description of the device at `ip`.
pub open spec fn message_text(
    kind: PresenceView,
    ip: Seq<char>,
    target: Seq<char>,
    usn: Seq<char>,
) -> Seq<char> {
    before_target(kind, ip) + target + after_target(kind, ip, usn)
}

/// The unique name of a service of a device: the id of the device, `::`, and the target.
pub open spec fn service_name(uuid_urn: Seq<char>, target: Seq<char>) -> Seq<char> {
    uuid_urn + "::"@ + target
}

/// The message for a kind of device or service.
pub open spec fn service_message(
    kind: PresenceView,
    uuid_urn: Seq<char>,
    ip: Seq<char>,
    target: Seq<char>,
) -> Seq<char> {
    message_text(kind, ip, target, service_name(uuid_urn, target))
}

/// The five messages of a device at one address: for the device itself, the root
/// device, the media server, the connection manager and the content directory.
pub open spec fn five_messages(kind: PresenceView, uuid_urn: Seq<char>, ip: Seq<char>) -> Seq<
    Seq<char>,
> {
    seq![
        message_text(kind, ip, uuid_urn, uuid_urn),
        service_message(kind, uuid_urn, ip, TARGET_ROOT_DEVICE@),
        service_message(kind, uuid_urn, ip, TARGET_MEDIA_SERVER@),
        service_message(kind, uuid_urn, ip, TARGET_CONNECTION_MANAGER@),
        service_message(kind, uuid_urn, ip, TARGET_CONTENT_DIRECTORY@),
    ]
}

/// The five messages, `times` times over.
pub open spec fn repeated(five: Seq<Seq<char>>, times: nat) -> Seq<Seq<char>>
    decreases times,
{
    if times == 0 {
        Seq::empty()
    } else {
        repeated(five, (times - 1) as nat) + five
    }
}

/// What one cycle sends: for each address in turn, the five messages three times over.
pub open spec fn cycle_messages(kind: PresenceView, uuid_urn: Seq<char>, ips: Seq<Seq<char>>) -> Seq<
    Seq<char>,
>
    decreases ips.len(),
{
    if ips.len() == 0 {
        Seq::empty()
    } else {
        cycle_messages(kind, uuid_urn, ips.drop_last()) + repeated(
            five_messages(kind, uuid_urn, ips.last()),
            REPEATS as nat,
        )
    }
}

/// Writes a message.
pub fn write_message(kind: &Presence, ip: &str, target: &str, usn: &str) -> (text: String)
    ensures
        text@ == message_text(kind@, ip@, target@, usn@),
{
    match kind {
        Presence::Alive => {
            let mut text = "NOTIFY * HTTP/1.1\r\nHOST: 239.255.255.250:1900\r\nNT: ".to_owned();
            text.append(target);
            text.append("\r\nNTS: ssdp:alive\r\nLOCATION: http://");
            text.append(ip);
            text.append(":3030/root.xml\r\nUSN: ");
            text.append(usn);
            text.append(
                "\r\nCACHE-CONTROL: max-age=1800\r\nSERVER: Linux/5.8, UPnP/1.0, agni/1.0\r\n\r\n",
            );
            text
        },
        Presence::Reply(date) => {
            let mut text = "HTTP/1.1 200 OK\r\nCACHE-CONTROL: max-age=1800\r\nDATE: ".to_owned();
            text.append(date.as_str());
            text.append("\r\nEXT:\r\nLOCATION: http://");
            text.append(ip);
            text.append(":3030/root.xml\r\nSERVER: Linux/5.8, UPnP/1.0, agni/1.0\r\nST: ");
            text.append(target);
            text.append("\r\nUSN: ");
            text.append(usn);
            text.append("\r\n\r\n");
            text
        },
    }
}

/// Writes the message for a kind of device or service.
fn write_service_message(kind: &Presence, uuid_urn: &str, ip: &str, target: &str) -> (text: String)
    ensures
        text@ == service_message(kind@, uuid_urn@, ip@, target@),
{
    let mut usn = uuid_urn.to_owned();
    usn.append("::");
    usn.append(target);
    write_message(kind, ip, target, usn.as_str())
}

/// Appends the five messages of a device at one address to `messages`.
fn push_five(messages: &mut Vec<String>, kind: &Presence, uuid_urn: &str, ip: &str)
    ensures
        texts(final(messages)@) == texts(old(messages)@) + five_messages(kind@, uuid_urn@, ip@),
{
    messages.push(write_message(kind, ip, uuid_urn, uuid_urn));
    messages.push(write_service_message(kind, uuid_urn, ip, TARGET_ROOT_DEVICE));
    messages.push(write_service_message(kind, uuid_urn, ip, TARGET_MEDIA_SERVER));
    messages.push(write_service_message(kind, uuid_urn, ip, TARGET_CONNECTION_MANAGER));
    messages.push(write_service_message(kind, uuid_urn, ip, TARGET_CONTENT_DIRECTORY));
}

/// The messages of one cycle for a device that is advertised at the addresses `ips`,
/// in the order in which they are sent.
pub fn presence_cycle(kind: &Presence, uuid_urn: &str, ips: &Vec<String>) -> (messages: Vec<String>)
    ensures
        texts(messages@) == cycle_messages(kind@, uuid_urn@, texts(ips@)),
{
    let mut messages: Vec<String> = Vec::new();
    let ghost addresses = texts(ips@);
    let mut i: usize = 0;
    while i < ips.len()
        invariant
            i <= ips.len(),
            addresses == texts(ips@),
            texts(messages@) == cycle_messages(kind@, uuid_urn@, addresses.take(i as int)),
        decreases ips.len() - i,
    {
        let ghost sent = texts(messages@);
        let ghost five = five_messages(kind@, uuid_urn@, ips[i as int]@);
        let mut round: usize = 0;
        while round < REPEATS
            invariant
                round <= REPEATS,
                i < ips.len(),
                five == five_messages(kind@, uuid_urn@, ips[i as int]@),
                texts(messages@) == sent + repeated(five, round as nat),
            decreases REPEATS - round,
        {
            push_five(&mut messages, kind, uuid_urn, ips[i].as_str());
            round += 1;
        }
        proof {
            assert(addresses.take(i + 1).drop_last() =~= addresses.take(i as int));
        }
        i += 1;
    }
    proof {
        assert(addresses.take(ips.len() as int) =~= addresses);
    }
    messages
}

// ---------------------------------------------------------------------------
// The device and the time
// ---------------------------------------------------------------------------

/// The character of a hexadecimal digit, in lower case.
pub open spec fn lower_hex_digit(d: int) -> char {
    if d < 10 {
        ('0' as u8 + d) as char
    } else {
        ('a' as u8 + d - 10) as char
    }
}

/// The hexadecimal digit of `id` at `place`, where the most significant of its
/// thirty-two digits is at place 0.
pub open spec fn uuid_digit(id: u128, place: int) -> int {
    ((id >> ((4 * (31 - place)) as u128)) & 0xf) as int
}

/// How many hyphens stand before the position `at` of the text of a device id.
pub open spec fn hyphens_before(at: int) -> int {
    if at < 8 {
        0
    } else if at < 13 {
        1
    } else if at < 18 {
        2
    } else if at < 23 {
        3
    } else {
        4
    }
}

/// The text of a device id: its thirty-two hexadecimal digits in lower case, the most
/// significant first, with a hyphen behind the eighth, the twelfth, the sixteenth and
/// the twentieth digit.
pub open spec fn uuid_text(id: u128) -> Seq<char> {
    Seq::new(
        36,
        |at: int|
            if at == 8 || at == 13 || at == 18 || at == 23 {
                '-'
            } else {
                lower_hex_digit(uuid_digit(id, at - hyphens_before(at)))
            },
    )
}

/// Calls `uuid::Uuid::from_u128` and writes the id with its `Display`, which writes the
/// sixteen bytes of the number, the most significant first, as two hexadecimal digits
/// each in lower case, in groups of eight, four, four, four and twelve digits with
/// hyphens between the groups.
#[verifier::external_body]
fn write_uuid(id: u128) -> (text: String)
    ensures
        text@ == uuid_text(id),
{
    uuid::Uuid::from_u128(id).to_string()
}

/// The text that `chrono` writes for the time `seconds` after the start of 1970, in
/// universal time, after `pattern`; nothing where the time is out of its range or the
/// pattern is none that it knows.
pub uninterp spec fn time_text(seconds: i64, pattern: Seq<char>) -> Option<Seq<char>>;

/// Calls `chrono::DateTime::from_timestamp` and writes the time with
/// `DateTime::format`. The result is named, not stated: it depends on the two
/// arguments alone, as the time is taken in universal time.
#[verifier::external_body]
fn write_time(seconds: i64, pattern: &str) -> (text: Option<String>)
    ensures
        match text {
            Some(text) => time_text(seconds, pattern@) == Some(text@),
            None => time_text(seconds, pattern@) is None,
        },
{
    let time = chrono::DateTime::from_timestamp(seconds, 0)?;
    let mut text = String::new();
    match write!(text, "{}", time.format(pattern)) {
        Ok(_) => Some(text),
        Err(_) => None,
    }
}

/// The name under which a device of the id `id` is announced.
pub open spec fn device_name(id: u128) -> Seq<char> {
    "uuid:"@ + uuid_text(id)
}

/// Writes the name under which a device of the id `id` is announced.
pub fn write_device_name(id: u128) -> (name: String)
    ensures
        name@ == device_name(id),
{
    let mut name = "uuid:".to_owned();
    let text = write_uuid(id);
    name.append(text.as_str());
    name
}

/// The messages of one cycle that announces the device `uuid` at the addresses `ips`
/// to the group, in the order in which they are sent.
pub fn broadcast_presence(uuid: u128, ips: &Vec<String>) -> (messages: Vec<String>)
    ensures
        texts(messages@) == cycle_messages(PresenceView::Alive, device_name(uuid), texts(ips@)),
{
    let name = write_device_name(uuid);
    presence_cycle(&Presence::Alive, name.as_str(), ips)
}

/// The messages of one cycle that answers a search at the time `now`, in seconds after
/// the start of 1970, for the device `uuid` at the addresses `ips`, in the order in
/// which they are sent. There is no answer where the time cannot be written.
pub fn reply_presence(uuid: u128, ips: &Vec<String>, now: i64) -> (messages: Option<Vec<String>>)
    ensures
        match time_text(now, DATE_PATTERN@) {
            Some(date) => messages matches Some(messages) && texts(messages@) == cycle_messages(
                PresenceView::Reply(date),
                device_name(uuid),
                texts(ips@),
            ),
            None => messages is None,
        },
{
    match write_time(now, DATE_PATTERN) {
        Some(date) => {
            let name = write_device_name(uuid);
            Some(presence_cycle(&Presence::Reply(date), name.as_str(), ips))
        },
        None => None,
    }
}

/// Where a message is sent: to the peer that searched, or to the group.
pub fn destination(unicast_ip: &Option<String>) -> (address: String)
    ensures
        address@ == match unicast_ip {
            Some(peer) => peer@,
            None => GROUP_ADDRESS@,
        },
{
    match unicast_ip {
        Some(peer) => peer.clone(),
        None => GROUP_ADDRESS.to_owned(),
    }
}

// ---------------------------------------------------------------------------
// The count of a cycle
// ---------------------------------------------------------------------------

/// Two messages differ where their targets differ at one position.
proof fn lemma_targets_differ(
    front: Seq<char>,
    first: Seq<char>,
    first_rest: Seq<char>,
    second: Seq<char>,
    second_rest: Seq<char>,
    at: int,
)
    requires
        0 <= at < first.len(),
        at < second.len(),
        first[at] != second[at],
    ensures
        front + first + first_rest != front + second + second_rest,
{
    let a = front + first + first_rest;
    assert(a[front.len() + at] == first[at]);
}

/// Messages that are sent `times` times over are `times` times as many.
pub proof fn lemma_repeated_len(five: Seq<Seq<char>>, times: nat)
    ensures
        repeated(five, times).len() == times * five.len(),
    decreases times,
{
    let len = five.len() as int;
    if times > 0 {
        let fewer = times - 1;
        lemma_repeated_len(five, fewer as nat);
        assert(times * len == fewer * len + len) by (nonlinear_arith)
            requires
                fewer == times - 1,
        ;
    } else {
        assert(times * len == 0) by (nonlinear_arith)
            requires
                times == 0,
        ;
    }
}

/// One cycle for one address sends fifteen messages: five that differ from one another,
/// three times over.
pub proof fn lemma_cycle_of_one_address(kind: PresenceView, id: u128, ip: Seq<char>)
    ensures
        five_messages(kind, device_name(id), ip).len() == 5,
        forall|i: int, j: int|
            0 <= i < j < 5 ==> five_messages(kind, device_name(id), ip)[i] != five_messages(
                kind,
                device_name(id),
                ip,
            )[j],
        cycle_messages(kind, device_name(id), seq![ip]) == five_messages(
            kind,
            device_name(id),
            ip,
        ) + five_messages(kind, device_name(id), ip) + five_messages(kind, device_name(id), ip),
        cycle_messages(kind, device_name(id), seq![ip]).len() == 15,
{
    let name = device_name(id);
    let five = five_messages(kind, name, ip);
    let front = before_target(kind, ip);
    let root = TARGET_ROOT_DEVICE@;
    let server = TARGET_MEDIA_SERVER@;
    let manager = TARGET_CONNECTION_MANAGER@;
    let directory = TARGET_CONTENT_DIRECTORY@;
    reveal_strlit("uuid:");
    reveal_strlit("upnp:rootdevice");
    reveal_strlit("urn:schemas-upnp-org:device:MediaServer:1");
    reveal_strlit("urn:schemas-upnp-org:service:ConnectionManager:1");
    reveal_strlit("urn:schemas-upnp-org:service:ContentDirectory:1");
    let tail = |target: Seq<char>| after_target(kind, ip, service_name(name, target));
    let own = after_target(kind, ip, name);
    lemma_targets_differ(front, name, own, root, tail(root), 1);
    lemma_targets_differ(front, name, own, server, tail(server), 1);
    lemma_targets_differ(front, name, own, manager, tail(manager), 1);
    lemma_targets_differ(front, name, own, directory, tail(directory), 1);
    lemma_targets_differ(front, root, tail(root), server, tail(server), 1);
    lemma_targets_differ(front, root, tail(root), manager, tail(manager), 1);
    lemma_targets_differ(front, root, tail(root), directory, tail(directory), 1);
    lemma_targets_differ(front, server, tail(server), manager, tail(manager), 21);
    lemma_targets_differ(front, server, tail(server), directory, tail(directory), 21);
    lemma_targets_differ(front, manager, tail(manager), directory, tail(directory), 32);
    let one = seq![ip];
    assert(repeated(five, 3) =~= five + five + five) by {
        assert(repeated(five, 0) =~= Seq::<Seq<char>>::empty());
        assert(repeated(five, 1) =~= five);
        assert(repeated(five, 2) =~= five + five);
    }
    assert(cycle_messages(kind, name, one.drop_last()) =~= Seq::<Seq<char>>::empty());
}

/// A cycle sends fifteen messages for each address.
pub proof fn lemma_cycle_len(kind: PresenceView, uuid_urn: Seq<char>, ips: Seq<Seq<char>>)
    ensures
        cycle_messages(kind, uuid_urn, ips).len() == 15 * ips.len(),
    decreases ips.len(),
{
    if ips.len() > 0 {
        lemma_cycle_len(kind, uuid_urn, ips.drop_last());
        lemma_repeated_len(five_messages(kind, uuid_urn, ips.last()), REPEATS as nat);
    }
}

// ---------------------------------------------------------------------------
// Searches
// ---------------------------------------------------------------------------

/// `needle` stands somewhere in `payload`, byte for byte.
pub open spec fn holds_bytes(payload: Seq<u8>, needle: Seq<u8>) -> bool {
    exists|at: int|
        0 <= at && at + needle.len() <= payload.len() && #[trigger] payload.subrange(
            at,
            at + needle.len(),
        ) == needle
}

/// A datagram is a search for this server where it holds the three texts `M-SEARCH`,
/// `ssdp:discover` and `ContentDirectory`.
pub open spec fn is_search(payload: Seq<u8>) -> bool {
    &&& holds_bytes(payload, encode_utf8("M-SEARCH"@))
    &&& holds_bytes(payload, encode_utf8("ssdp:discover"@))
    &&& holds_bytes(payload, encode_utf8("ContentDirectory"@))
}

/// Tells whether `needle` stands somewhere in `payload`.
pub fn contains_bytes(payload: &[u8], needle: &[u8]) -> (found: bool)
    ensures
        found == holds_bytes(payload@, needle@),
{
    if needle.len() > payload.len() {
        return false;
    }
    let last = payload.len() - needle.len();
    let mut at: usize = 0;
    while at <= last
        invariant
            at <= last + 1,
            last == payload.len() - needle.len(),
            forall|k: int|
                0 <= k < at ==> #[trigger] payload@.subrange(k, k + needle.len()) != needle@,
        decreases last + 1 - at,
    {
        let mut matched: usize = 0;
        while matched < needle.len() && payload[at + matched] == needle[matched]
            invariant
                at <= last,
                last == payload.len() - needle.len(),
                matched <= needle.len(),
                forall|k: int| 0 <= k < matched ==> payload[at + k] == needle[k],
            decreases needle.len() - matched,
        {
            matched += 1;
        }
        let ghost window = payload@.subrange(at as int, at + needle.len());
        if matched == needle.len() {
            proof {
                assert(window =~= needle@);
            }
            return true;
        }
        at += 1;
    }
    false
}

/// Tells whether a datagram is a search that this server answers.
pub fn is_discovery_request(payload: &[u8]) -> (search: bool)
    ensures
        search == is_search(payload@),
{
    contains_bytes(payload, "M-SEARCH".as_bytes()) && contains_bytes(
        payload,
        "ssdp:discover".as_bytes(),
    ) && contains_bytes(payload, "ContentDirectory".as_bytes())
}

// ---------------------------------------------------------------------------
// Addresses
// ---------------------------------------------------------------------------

/// A network interface: whether it supports broadcast, whether it supports multicast,
/// and its addresses as text.
#[derive(PartialEq, Debug, Clone)]
pub struct Interface {
    pub broadcast: bool,
    pub multicast: bool,
    pub ips: Vec<String>,
}

impl Interface {
    /// The addresses of an interface are advertised where it supports both broadcast
    /// and multicast.
    pub open spec fn qualifies(self) -> bool {
        self.broadcast && self.multicast
    }
}

/// The addresses that are advertised: those of the interfaces that qualify, in order.
pub open spec fn advertised(interfaces: Seq<Interface>) -> Seq<Seq<char>>
    decreases interfaces.len(),
{
    if interfaces.len() == 0 {
        Seq::empty()
    } else if interfaces.last().qualifies() {
        advertised(interfaces.drop_last()) + texts(interfaces.last().ips@)
    } else {
        advertised(interfaces.drop_last())
    }
}

/// The address of this server in the addresses of media files: the first address of
/// the first interface that qualifies, where there is such an interface and it has an
/// address.
pub open spec fn first_address(interfaces: Seq<Interface>) -> Option<Seq<char>>
    decreases interfaces.len(),
{
    if interfaces.len() == 0 {
        None
    } else if interfaces[0].qualifies() {
        if interfaces[0].ips.len() > 0 {
            Some(interfaces[0].ips[0]@)
        } else {
            None
        }
    } else {
        first_address(interfaces.drop_first())
    }
}

/// Calls `pnet::datalink::interfaces` and takes of each interface `is_broadcast()`,
/// `is_multicast()` and the text of the address of each of its networks. Nothing is
/// claimed of the result: it is what the machine has at the time.
#[verifier::external_body]
fn local_interfaces() -> Vec<Interface> {
    pnet::datalink::interfaces().into_iter().map(
        |found|
            Interface {
                broadcast: found.is_broadcast(),
                multicast: found.is_multicast(),
                ips: found.ips.iter().map(|network| network.ip().to_string()).collect(),
            },
    ).collect()
}

/// The addresses that are advertised, of the interfaces given.
pub fn qualifying_ips(interfaces: &Vec<Interface>) -> (ips: Vec<String>)
    ensures
        texts(ips@) == advertised(interfaces@),
{
    let mut ips: Vec<String> = Vec::new();
    let mut i: usize = 0;
    while i < interfaces.len()
        invariant
            i <= interfaces.len(),
            texts(ips@) == advertised(interfaces@.take(i as int)),
        decreases interfaces.len() - i,
    {
        let interface = &interfaces[i];
        proof {
            assert(interfaces@.take(i + 1).drop_last() =~= interfaces@.take(i as int));
        }
        if interface.broadcast && interface.multicast {
            let ghost before = texts(ips@);
            let mut k: usize = 0;
            while k < interface.ips.len()
                invariant
                    k <= interface.ips.len(),
                    texts(ips@) == before + texts(interface.ips@).take(k as int),
                decreases interface.ips.len() - k,
            {
                let ghost sofar = texts(ips@);
                ips.push(interface.ips[k].clone());
                proof {
                    let added = interface.ips[k as int]@;
                    assert(texts(ips@) =~= sofar.push(added));
                }
                k += 1;
            }
        }
        i += 1;
    }
    proof {
        assert(interfaces@.take(interfaces.len() as int) =~= interfaces@);
    }
    ips
}

/// The address of this server in the addresses of media files, of the interfaces
/// given.
pub fn first_local_ip(interfaces: &Vec<Interface>) -> (ip: Option<String>)
    ensures
        match ip {
            Some(ip) => first_address(interfaces@) == Some(ip@),
            None => first_address(interfaces@) is None,
        },
{
    let mut i: usize = 0;
    proof {
        assert(interfaces@.skip(0) =~= interfaces@);
    }
    while i < interfaces.len()
        invariant
            i <= interfaces.len(),
            first_address(interfaces@) == first_address(interfaces@.skip(i as int)),
        decreases interfaces.len() - i,
    {
        let interface = &interfaces[i];
        proof {
            assert(interfaces@.skip(i as int).drop_first() =~= interfaces@.skip(i + 1));
        }
        if interface.broadcast && interface.multicast {
            if interface.ips.len() > 0 {
                return Some(interface.ips[0].clone());
            } else {
                return None;
            }
        }
        i += 1;
    }
    None
}

/// The address of this machine in the addresses of media files, if it has one: what
/// `first_local_ip` returns for the interfaces that the machine has at the time of the
/// call. Nothing is promised of the result, as nothing is known of those interfaces.
pub fn get_local_ip() -> (ip: Option<String>) {
    let interfaces = local_interfaces();
    first_local_ip(&interfaces)
}

/// The addresses of this machine that are advertised: what `qualifying_ips` returns for
/// the interfaces that the machine has at the time of the call. Nothing is promised of
/// the result, as nothing is known of those interfaces.
pub fn get_local_ips() -> (ips: Vec<String>) {
    let interfaces = local_interfaces();
    qualifying_ips(&interfaces)
}

} // verus!
