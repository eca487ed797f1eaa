//! Finding other devices: how this one presents itself, and what is known of
//! the others.

use vstd::hash_map::StringHashMap;
use vstd::prelude::*;
use vstd::slice::slice_subrange;
use vstd::utf8;

use crate::fields;
use crate::models::{PeerDto, PeerDtoView};
use crate::outside::machine::clock_millis;
use crate::outside::strings::string_from_utf8;
use crate::protocol::{PROTOCOL_MAJOR, PROTOCOL_MINOR};
use crate::snapshot;
use crate::text;

verus! {

/// The kind of service that devices offer and look for.
pub fn service_type() -> (name: &'static str)
    ensures
        name@ == "_lanflow._tcp.local."@,
{
    "_lanflow._tcp.local."
}

/// The milliseconds since 1970 that a clock reading stands for; zero for a
/// clock that stands before that.
pub open spec fn millis_of(reading: Option<u128>) -> i64 {
    match reading {
        Some(n) => n as i64,
        None => 0,
    }
}

/// The time in milliseconds since 1970.
pub fn now_ms() -> (now: i64)
    ensures
        exists|reading: Option<u128>| now == #[trigger] millis_of(reading),
{
    let reading = clock_millis();
    let now: i64 = snapshot::epoch_ms(reading);
    assert(now == millis_of(reading));
    now
}

/// The first eight bytes of an identity, or all where it has fewer.
pub open spec fn first_bytes(device_id: Seq<char>) -> Seq<u8> {
    let bytes = utf8::encode_utf8(device_id);
    if bytes.len() < 8 {
        bytes
    } else {
        bytes.take(8)
    }
}

/// The name under which a device can be reached.
pub open spec fn host_name(device_id: Seq<char>) -> Seq<char> {
    "lanflow-"@ + utf8::decode_utf8(first_bytes(device_id)) + ".local."@
}

/// The name under which a device can be reached. No character of an identity
/// lies across its eighth byte.
pub fn host_name_of(device_id: &str) -> (name: String)
    requires
        utf8::valid_utf8(first_bytes(device_id@)),
    ensures
        name@ == host_name(device_id@),
{
    let bytes = device_id.as_bytes();
    let kept: usize = if bytes.len() < 8 {
        bytes.len()
    } else {
        8
    };
    let first = fields::copy_bytes(slice_subrange(bytes, 0, kept));
    assert(first@ =~= first_bytes(device_id@));
    let short = match string_from_utf8(first) {
        Some(short) => short,
        None => String::new(),
    };
    let named = text::joined("lanflow-", short.as_str());
    text::joined(named.as_str(), ".local.")
}

/// Whether a character is a decimal digit.
pub open spec fn is_digit(c: char) -> bool {
    '0' <= c <= '9'
}

/// The number that decimal digits say.
pub open spec fn digits_value(digits: Seq<char>) -> nat
    decreases digits.len(),
{
    if digits.len() == 0 {
        0
    } else {
        digits_value(digits.drop_last()) * 10 + (digits.last() as u32 - '0' as u32) as nat
    }
}

/// Whether a text is made of decimal digits, at least one.
pub open spec fn is_number(digits: Seq<char>) -> bool {
    digits.len() > 0 && forall|i: int| 0 <= i < digits.len() ==> is_digit(#[trigger] digits[i])
}

/// A text without a plus sign at its front, where something follows it.
pub open spec fn unsigned(value: Seq<char>) -> Seq<char> {
    if value.len() > 1 && value[0] == '+' {
        value.skip(1)
    } else {
        value
    }
}

/// The version number that a text says: decimal digits, at least one, with or
/// without a plus sign before them, up to the largest 16-bit number.
pub open spec fn version_number(value: Seq<char>) -> Option<u16> {
    if is_number(unsigned(value)) && digits_value(unsigned(value)) <= u16::MAX {
        Some(digits_value(unsigned(value)) as u16)
    } else {
        None
    }
}

fn digit_of(c: char) -> (digit: Option<u32>)
    ensures
        is_digit(c) ==> (digit matches Some(d) && d == c as u32 - '0' as u32),
        !is_digit(c) ==> digit is None,
{
    match c {
        '0' => Some(0),
        '1' => Some(1),
        '2' => Some(2),
        '3' => Some(3),
        '4' => Some(4),
        '5' => Some(5),
        '6' => Some(6),
        '7' => Some(7),
        '8' => Some(8),
        '9' => Some(9),
        _ => None,
    }
}

/// The version number that a text says.
pub fn parse_version(value: &str) -> (number: Option<u16>)
    ensures
        number == version_number(value@),
{
    let chars = text::chars_of(value);
    let start: usize = if chars.len() > 1 && chars[0] == '+' {
        1
    } else {
        0
    };
    let ghost digits = unsigned(value@);
    assert(digits =~= chars@.skip(start as int));
    if start == chars.len() {
        return None;
    }
    let mut n: u32 = 0;
    let mut i: usize = start;
    let mut large = false;
    assert(digits.take(0) =~= Seq::empty());
    while i < chars.len()
        invariant
            start <= i <= chars@.len(),
            chars@ == value@,
            start < chars@.len(),
            digits == chars@.skip(start as int),
            digits == unsigned(value@),
            forall|j: int| 0 <= j < i - start ==> is_digit(#[trigger] digits[j]),
            !large ==> n == digits_value(digits.take(i - start)) && n <= u16::MAX,
            large ==> digits_value(digits.take(i - start)) > u16::MAX,
        decreases chars@.len() - i,
    {
        let c = chars[i];
        proof {
            assert(digits[i - start] == c);
            assert(digits.take(i + 1 - start).drop_last() =~= digits.take(i - start));
            assert(digits.take(i + 1 - start).last() == c);
        }
        match digit_of(c) {
            None => {
                return None;
            },
            Some(d) => {
                if !large {
                    n = n * 10 + d;
                    if n > 65_535 {
                        large = true;
                    }
                }
            },
        }
        i += 1;
    }
    assert(digits.take(i - start) =~= digits);
    if large {
        None
    } else {
        Some(n as u16)
    }
}

/// An address that a device announced.
#[derive(Debug)]
pub struct Announced {
    pub address: String,
    pub is_ipv4: bool,
}

/// The address that is used, of those that a device announced: the first of
/// the fourth version, else the first.
pub open spec fn best_address(list: Seq<Announced>) -> Seq<char> {
    if exists|i: int| 0 <= i < list.len() && (#[trigger] list[i]).is_ipv4 {
        let i = choose|i: int|
            0 <= i < list.len() && (#[trigger] list[i]).is_ipv4 && forall|j: int|
                0 <= j < i ==> !(#[trigger] list[j]).is_ipv4;
        list[i].address@
    } else if list.len() > 0 {
        list[0].address@
    } else {
        Seq::empty()
    }
}

/// The address that is used, of those that a device announced.
pub fn choose_address(list: &Vec<Announced>) -> (address: String)
    ensures
        address@ == best_address(list@),
{
    let mut i: usize = 0;
    while i < list.len()
        invariant
            i <= list@.len(),
            forall|j: int| 0 <= j < i ==> !(#[trigger] list@[j]).is_ipv4,
        decreases list@.len() - i,
    {
        if list[i].is_ipv4 {
            proof {
                let k = choose|k: int|
                    0 <= k < list@.len() && (#[trigger] list@[k]).is_ipv4 && forall|j: int|
                        0 <= j < k ==> !(#[trigger] list@[j]).is_ipv4;
                assert(list@[i as int].is_ipv4);
                assert(k == i);
            }
            return list[i].address.clone();
        }
        i += 1;
    }
    if list.len() > 0 {
        list[0].address.clone()
    } else {
        let none = String::new();
        assert(none@ =~= Seq::empty());
        none
    }
}

/// What a device announced of itself.
#[derive(Debug)]
pub struct Announcement {
    pub id: Option<String>,
    pub name: Option<String>,
    pub addresses: Vec<Announced>,
    pub port: u16,
    pub major: Option<String>,
    pub minor: Option<String>,
}

/// A version number that was announced, or the own one.
pub open spec fn announced_version(value: Option<Seq<char>>, own: u16) -> u16 {
    match value {
        Some(text) => match version_number(text) {
            Some(n) => n,
            None => own,
        },
        None => own,
    }
}

fn version_or(value: &Option<String>, own: u16) -> (version: u16)
    ensures
        version == announced_version(text::optional(*value), own),
{
    match value {
        Some(text) => match parse_version(text.as_str()) {
            Some(n) => n,
            None => own,
        },
        None => own,
    }
}

/// The device that an announcement speaks of. Announcements without an
/// identity or an address count for nothing, and neither does the own one.
pub open spec fn announced_peer(announcement: Announcement, local_id: Seq<char>, now: i64) -> Option<
    PeerDtoView,
> {
    match text::optional(announcement.id) {
        None => None,
        Some(id) => {
            let address = best_address(announcement.addresses@);
            if id == local_id || address.len() == 0 {
                None
            } else {
                Some(
                    PeerDtoView {
                        id,
                        name: match text::optional(announcement.name) {
                            Some(name) => name,
                            None => id,
                        },
                        address,
                        port: announcement.port,
                        online: true,
                        manual: false,
                        protocol_major: announced_version(
                            text::optional(announcement.major),
                            PROTOCOL_MAJOR,
                        ),
                        protocol_minor: announced_version(
                            text::optional(announcement.minor),
                            PROTOCOL_MINOR,
                        ),
                        last_seen: now,
                    },
                )
            }
        },
    }
}

/// The device that an announcement speaks of.
pub fn peer_from_announcement(announcement: &Announcement, local_id: &str, now: i64) -> (peer: Option<
    PeerDto,
>)
    ensures
        match announced_peer(*announcement, local_id@, now) {
            Some(expected) => peer matches Some(p) && p@ == expected,
            None => peer is None,
        },
{
    let id = match &announcement.id {
        Some(id) => id,
        None => {
            return None;
        },
    };
    if text::same_text(id.as_str(), local_id) {
        return None;
    }
    let address = choose_address(&announcement.addresses);
    proof {
        text::lemma_empty_text(address@);
    }
    if address.as_str().as_bytes().len() == 0 {
        return None;
    }
    Some(
        PeerDto {
            id: id.clone(),
            name: match &announcement.name {
                Some(name) => name.clone(),
                None => id.clone(),
            },
            address,
            port: announcement.port,
            online: true,
            manual: false,
            protocol_major: version_or(&announcement.major, PROTOCOL_MAJOR),
            protocol_minor: version_or(&announcement.minor, PROTOCOL_MINOR),
            last_seen: now,
        },
    )
}

/// The devices that were seen, and the names under which they announced
/// themselves.
pub struct PeerRegistry {
    pub peers: StringHashMap<PeerDto>,
    /// The identities of the devices, in the order in which they were first
    /// seen.
    pub ids: Vec<String>,
    pub names: StringHashMap<String>,
}

/// The model of a [`PeerRegistry`].
#[verifier::ext_equal]
pub struct PeerRegistryView {
    pub peers: Map<Seq<char>, PeerDtoView>,
    pub names: Map<Seq<char>, Seq<char>>,
}

impl View for PeerRegistry {
    type V = PeerRegistryView;

    open spec fn view(&self) -> PeerRegistryView {
        PeerRegistryView {
            peers: self.peers@.map_values(|peer: PeerDto| peer@),
            names: self.names@.map_values(|name: String| name@),
        }
    }
}

/// Whether a list holds each of some values once.
pub open spec fn lists_all(list: Seq<PeerDtoView>, peers: Map<Seq<char>, PeerDtoView>) -> bool {
    exists|keys: Seq<Seq<char>>| #[trigger] is_listing(keys, list, peers)
}

/// Whether a list holds the values at some keys, which are all the keys there
/// are, each once.
pub open spec fn is_listing(
    keys: Seq<Seq<char>>,
    list: Seq<PeerDtoView>,
    peers: Map<Seq<char>, PeerDtoView>,
) -> bool {
    &&& keys.no_duplicates()
    &&& forall|key: Seq<char>| #[trigger] peers.contains_key(key) <==> keys.contains(key)
    &&& list.len() == keys.len()
    &&& forall|i: int| 0 <= i < keys.len() ==> #[trigger] list[i] == peers[keys[i]]
}

/// What is known after an announcement.
pub open spec fn after_resolved(
    registry: PeerRegistryView,
    fullname: Seq<char>,
    peer: Option<PeerDtoView>,
) -> PeerRegistryView {
    match peer {
        Some(p) => PeerRegistryView {
            peers: registry.peers.insert(p.id, p),
            names: registry.names.insert(fullname, p.id),
        },
        None => registry,
    }
}

/// What is known after a device said goodbye: it stays known, as not online.
pub open spec fn after_removed(
    registry: PeerRegistryView,
    fullname: Seq<char>,
    now: i64,
) -> PeerRegistryView {
    if registry.names.contains_key(fullname) {
        let id = registry.names[fullname];
        let names = registry.names.remove(fullname);
        if registry.peers.contains_key(id) {
            PeerRegistryView {
                peers: registry.peers.insert(
                    id,
                    PeerDtoView { online: false, last_seen: now, ..registry.peers[id] },
                ),
                names,
            }
        } else {
            PeerRegistryView { names, ..registry }
        }
    } else {
        registry
    }
}

impl PeerRegistry {
    /// The identities are those of the devices, each once.
    pub open spec fn wf(&self) -> bool {
        &&& fields::views(self.ids@).no_duplicates()
        &&& forall|id: Seq<char>| #[trigger]
            self.peers@.contains_key(id) <==> fields::views(self.ids@).contains(id)
    }

    pub fn new() -> (registry: PeerRegistry)
        ensures
            registry.wf(),
            registry@ == (PeerRegistryView { peers: Map::empty(), names: Map::empty() }),
    {
        let registry = PeerRegistry {
            peers: StringHashMap::new(),
            ids: Vec::new(),
            names: StringHashMap::new(),
        };
        assert(registry@.peers =~= Map::empty());
        assert(registry@.names =~= Map::empty());
        registry
    }

    fn put(&mut self, id: String, peer: PeerDto)
        requires
            old(self).wf(),
        ensures
            final(self).wf(),
            final(self)@ == (PeerRegistryView {
                peers: old(self)@.peers.insert(id@, peer@),
                ..old(self)@
            }),
    {
        let ghost before = self@;
        let ghost ids = fields::views(self.ids@);
        let ghost known = self.peers@;
        if !self.peers.contains_key(id.as_str()) {
            self.ids.push(id.clone());
            assert(fields::views(self.ids@) =~= ids.push(id@));
        }
        let ghost key = id@;
        self.peers.insert(id, peer);
        proof {
            assert(self@.peers =~= before.peers.insert(key, peer@));
            let after = fields::views(self.ids@);
            assert forall|other: Seq<char>| #[trigger]
                self.peers@.contains_key(other) <==> after.contains(other) by {
                assert(known.contains_key(other) <==> ids.contains(other));
                if ids.contains(other) {
                    assert(after[ids.index_of(other)] == other);
                }
                if other == key && !known.contains_key(key) {
                    assert(after[ids.len() as int] == other);
                }
                if after.contains(other) && other != key {
                    let k = after.index_of(other);
                    assert(ids[k] == other);
                }
            }
            assert(known.contains_key(key) <==> ids.contains(key));
        }
    }

    /// Takes in an announcement.
    pub fn resolved(
        &mut self,
        fullname: String,
        announcement: &Announcement,
        local_id: &str,
        now: i64,
    )
        requires
            old(self).wf(),
        ensures
            final(self).wf(),
            final(self)@ == after_resolved(
                old(self)@,
                fullname@,
                announced_peer(*announcement, local_id@, now),
            ),
    {
        let ghost before = self@;
        match peer_from_announcement(announcement, local_id, now) {
            Some(peer) => {
                let id = peer.id.clone();
                let key = peer.id.clone();
                self.names.insert(fullname, id);
                assert(self@.names =~= before.names.insert(fullname@, peer@.id));
                self.put(key, peer);
            },
            None => {},
        }
    }

    /// Takes in that a device said goodbye.
    pub fn removed(&mut self, fullname: &str, now: i64)
        requires
            old(self).wf(),
        ensures
            final(self).wf(),
            final(self)@ == after_removed(old(self)@, fullname@, now),
    {
        let ghost before = self@;
        let id = match self.names.get(fullname) {
            Some(id) => id.clone(),
            None => {
                return;
            },
        };
        assert(before.names[fullname@] == id@);
        self.names.remove(fullname);
        assert(self@.names =~= before.names.remove(fullname@));
        let gone = match self.peers.get(id.as_str()) {
            Some(peer) => Some(peer.clone()),
            None => None,
        };
        match gone {
            Some(peer) => {
                assert(before.peers[id@] == peer@);
                let mut peer = peer;
                peer.online = false;
                peer.last_seen = now;
                self.put(id, peer);
            },
            None => {},
        }
    }

    /// Takes in a device that was connected to by hand.
    pub fn connected(&mut self, peer: &PeerDto)
        requires
            old(self).wf(),
        ensures
            final(self).wf(),
            final(self)@ == (PeerRegistryView {
                peers: old(self)@.peers.insert(peer@.id, peer@),
                ..old(self)@
            }),
    {
        self.put(peer.id.clone(), peer.clone());
    }

    /// What is known of a device.
    pub fn find(&self, peer_id: &str) -> (peer: Option<PeerDto>)
        ensures
            match peer {
                Some(p) => self@.peers.contains_key(peer_id@) && p@ == self@.peers[peer_id@],
                None => !self@.peers.contains_key(peer_id@),
            },
    {
        match self.peers.get(peer_id) {
            Some(peer) => Some(peer.clone()),
            None => None,
        }
    }

    /// All devices that are known.
    pub fn list(&self) -> (list: Vec<PeerDto>)
        requires
            self.wf(),
        ensures
            lists_all(fields::views(list@), self@.peers),
    {
        let ghost keys = fields::views(self.ids@);
        let mut list: Vec<PeerDto> = Vec::new();
        let mut i: usize = 0;
        while i < self.ids.len()
            invariant
                i <= self.ids@.len(),
                self.wf(),
                keys == fields::views(self.ids@),
                list@.len() == i,
                forall|k: int| 0 <= k < i ==> (#[trigger] list@[k])@ == self@.peers[keys[k]],
            decreases self.ids@.len() - i,
        {
            let id = &self.ids[i];
            proof {
                assert(keys[i as int] == id@);
                assert(keys.contains(id@));
                assert(self.peers@.contains_key(id@));
            }
            match self.peers.get(id.as_str()) {
                Some(peer) => {
                    assert(self@.peers[id@] == peer@);
                    list.push(peer.clone());
                },
                None => {},
            }
            i += 1;
        }
        proof {
            let models = fields::views(list@);
            assert forall|key: Seq<char>| #[trigger]
                self@.peers.contains_key(key) <==> keys.contains(key) by {
                assert(self.peers@.contains_key(key) <==> keys.contains(key));
            }
            assert forall|k: int| 0 <= k < keys.len() implies #[trigger] models[k]
                == self@.peers[keys[k]] by {
                assert(list@[k]@ == self@.peers[keys[k]]);
            }
            assert(is_listing(keys, models, self@.peers));
        }
        list
    }
}

/// A device that announced itself and said goodbye is still known, and not
/// online.
pub proof fn law_goodbye_keeps_peer(
    registry: PeerRegistryView,
    fullname: Seq<char>,
    peer: PeerDtoView,
    now: i64,
)
    ensures
        ({
            let seen = after_resolved(registry, fullname, Some(peer));
            let gone = after_removed(seen, fullname, now);
            &&& gone.peers.contains_key(peer.id)
            &&& gone.peers[peer.id] == (PeerDtoView { online: false, last_seen: now, ..peer })
            &&& !gone.names.contains_key(fullname)
        }),
{
}

proof fn lemma_digits(digits: Seq<char>)
    requires
        forall|i: int| 0 <= i < digits.len() ==> is_digit(#[trigger] digits[i]),
    ensures
        digits_value(digits) == text::number_of(digits),
    decreases digits.len(),
{
    if digits.len() > 0 {
        let before = digits.drop_last();
        assert forall|i: int| 0 <= i < before.len() implies is_digit(#[trigger] before[i]) by {
            assert(before[i] == digits[i]);
        }
        lemma_digits(before);
        lemma_digit_value(digits[digits.len() - 1]);
    }
}

proof fn lemma_digit_value(c: char)
    requires
        is_digit(c),
    ensures
        (c as u32 - '0' as u32) as nat == c as int - '0' as int,
{
}

/// A version that a device announces in decimal is understood, with or without
/// a plus sign, as far as it has 16 bits; a text that holds anything but digits
/// says no version.
pub proof fn law_announced_versions_are_understood(n: nat, value: Seq<char>, i: int)
    ensures
        n <= u16::MAX ==> version_number(text::decimal(n)) == Some(n as u16),
        n <= u16::MAX ==> version_number("+"@ + text::decimal(n)) == Some(n as u16),
        n > u16::MAX ==> version_number(text::decimal(n)) is None,
        value.len() == 0 ==> version_number(value) is None,
        0 < i < value.len() && !('0' <= value[i] <= '9') ==> version_number(value) is None,
{
    reveal_strlit("+");
    let digits = text::decimal(n);
    text::law_decimal_is_read_back(n);
    assert forall|k: int| 0 <= k < digits.len() implies is_digit(#[trigger] digits[k]) by {
        assert('0' as int <= digits[k] as int <= '9' as int);
    }
    lemma_digits(digits);
    assert(is_digit(digits[0]));
    assert(unsigned(digits) == digits);
    assert(("+"@ + digits).skip(1) =~= digits);
    assert(unsigned("+"@ + digits) == digits);
    if 0 < i < value.len() && !('0' <= value[i] <= '9') {
        let rest = unsigned(value);
        if rest == value {
            assert(!is_digit(rest[i]));
        } else {
            assert(rest[i - 1] == value[i]);
            assert(!is_digit(rest[i - 1]));
        }
    }
}

/// Of the addresses of a device the first one of the fourth version is used,
/// and the first one where it has none of these.
pub proof fn law_addresses_are_picked(list: Seq<Announced>, i: int)
    requires
        0 <= i < list.len(),
    ensures
        list[i].is_ipv4 && (forall|j: int| 0 <= j < i ==> !(#[trigger] list[j]).is_ipv4)
            ==> best_address(list) == list[i].address@,
        (forall|j: int| 0 <= j < list.len() ==> !(#[trigger] list[j]).is_ipv4) ==> best_address(list)
            == list[0].address@,
{
    if list[i].is_ipv4 && (forall|j: int| 0 <= j < i ==> !(#[trigger] list[j]).is_ipv4) {
        let k = choose|k: int|
            0 <= k < list.len() && (#[trigger] list[k]).is_ipv4 && forall|j: int|
                0 <= j < k ==> !(#[trigger] list[j]).is_ipv4;
        assert(list[i].is_ipv4);
        if i < k {
            assert(!list[i].is_ipv4);
        }
        if k < i {
            assert(!list[k].is_ipv4);
        }
    }
}

/// Every other device that announces itself with an identity and an address is
/// taken for online at that address, under the name it gives or its identity;
/// an announcement of this device, or one without an identity or an address,
/// is not.
pub proof fn law_other_devices_are_found(announcement: Announcement, local_id: Seq<char>, now: i64)
    ensures
        match announced_peer(announcement, local_id, now) {
            Some(peer) => {
                &&& text::optional(announcement.id) == Some(peer.id)
                &&& peer.id != local_id
                &&& peer.address == best_address(announcement.addresses@)
                &&& peer.address.len() > 0
                &&& peer.port == announcement.port
                &&& peer.online && !peer.manual
                &&& peer.last_seen == now
                &&& text::optional(announcement.name) matches Some(name) ==> peer.name == name
                &&& text::optional(announcement.name) is None ==> peer.name == peer.id
                &&& text::optional(announcement.major) matches Some(told) ==> (version_number(told)
                    matches Some(n) ==> peer.protocol_major == n)
                &&& text::optional(announcement.minor) matches Some(told) ==> (version_number(told)
                    matches Some(n) ==> peer.protocol_minor == n)
                &&& text::optional(announcement.major) is None ==> peer.protocol_major
                    == PROTOCOL_MAJOR
                &&& text::optional(announcement.minor) is None ==> peer.protocol_minor
                    == PROTOCOL_MINOR
            },
            None => text::optional(announcement.id) is None || text::optional(announcement.id)
                == Some(local_id) || best_address(announcement.addresses@).len() == 0,
        },
{
}

/// An announcement changes what is known of the device that it is of, and of no
/// other; one that counts for nothing changes nothing.
pub proof fn law_announcements_touch_one_device(
    registry: PeerRegistryView,
    fullname: Seq<char>,
    peer: PeerDtoView,
    other: Seq<char>,
)
    ensures
        after_resolved(registry, fullname, None) == registry,
        ({
            let seen = after_resolved(registry, fullname, Some(peer));
            &&& seen.peers.contains_key(peer.id) && seen.peers[peer.id] == peer
            &&& other != peer.id ==> (seen.peers.contains_key(other) <==> registry.peers.contains_key(
                other,
            ))
            &&& other != peer.id && registry.peers.contains_key(other) ==> seen.peers[other]
                == registry.peers[other]
        }),
{
}

/// A goodbye changes what is known of the device that said it, and of no other;
/// no device is forgotten, and one under an unknown name changes nothing.
pub proof fn law_goodbyes_touch_one_device(
    registry: PeerRegistryView,
    fullname: Seq<char>,
    now: i64,
    other: Seq<char>,
)
    ensures
        !registry.names.contains_key(fullname) ==> after_removed(registry, fullname, now) == registry,
        after_removed(registry, fullname, now).peers.contains_key(other)
            <==> registry.peers.contains_key(other),
        registry.peers.contains_key(other) && !(registry.names.contains_key(fullname)
            && registry.names[fullname] == other) ==> after_removed(
            registry,
            fullname,
            now,
        ).peers[other] == registry.peers[other],
        registry.peers.contains_key(other) && registry.names.contains_key(fullname)
            && registry.names[fullname] == other ==> after_removed(
            registry,
            fullname,
            now,
        ).peers[other] == (PeerDtoView {
            online: false,
            last_seen: now,
            ..registry.peers[other]
        }),
{
}

/// The list of the devices holds every device that is known, and each once.
pub proof fn law_all_devices_are_listed(
    list: Seq<PeerDtoView>,
    peers: Map<Seq<char>, PeerDtoView>,
    id: Seq<char>,
)
    requires
        lists_all(list, peers),
    ensures
        peers.contains_key(id) ==> list.contains(peers[id]),
        list.len() == peers.dom().len(),
        peers.dom().finite(),
{
    let keys = choose|keys: Seq<Seq<char>>| #[trigger] is_listing(keys, list, peers);
    if peers.contains_key(id) {
        assert(keys.contains(id));
        let i = keys.index_of(id);
        assert(list[i] == peers[keys[i]]);
    }
    keys.unique_seq_to_set();
    assert(keys.to_set() =~= peers.dom()) by {
        assert forall|key: Seq<char>| keys.to_set().contains(key) <==> peers.dom().contains(
            key,
        ) by {
            assert(peers.contains_key(key) <==> keys.contains(key));
        }
    }
}

} // verus!
