//! Discovery over ssdp: the announcements, the answers to searches, and the relay.
//!
//! ssdp is link-local multicast, which does not cross a NAT the way the http and rtsp ports do with
//! a plain port publish. When multicast cannot leave where the server runs (a podman container, a
//! bridged VM), every ssdp datagram, in and out, is framed over one unicast udp connection to a
//! relay running on the real LAN, which reflects it onto the multicast group.
use crate::dlna::{str_of, CACHE_MAX_AGE, CONNECTION_MANAGER, CONTENT_DIRECTORY, SERVER_ID};
use crate::http::headers_text;
use crate::numbers::{
    decimal, is_digit, law_decimal_round_trip, lemma_decimal_value, number, to_decimal,
};
use crate::text::{
    after, after_last, before, decode, holds, law_holds, law_holds_within, law_split_at_last, lemma_join,
    lemma_position, lowercase, same, same_ignoring_case, split_before, split_once, starts_with, texts, trim, trimmed,
};
use crate::time::Duration;
use vstd::prelude::*;
use vstd::string::*;
use vstd::utf8::{decode_utf8, valid_utf8};

verus! {

pub const SSDP_ADDRESS: &'static str = "239.255.255.250:1900";

pub const MEDIA_SERVER: &'static str = "urn:schemas-upnp-org:device:MediaServer:1";

// ---------------------------------------------------------------------------
// Where the server is

/// Base url to hand a client: the operator-provided one, or else the local address that routes to
/// the client.
pub open spec fn base_url(
    advertised: Option<Seq<char>>,
    local_ip: Option<Seq<char>>,
    http_port: u16,
) -> Option<Seq<char>> {
    match advertised {
        Some(url) => Some(url),
        None => match local_ip {
            Some(ip) => Some("http://"@ + ip + ":"@ + decimal(http_port as nat)),
            None => None,
        },
    }
}

/// Where the device description is, if the server can be reached at all.
pub open spec fn described_at(
    advertised: Option<Seq<char>>,
    local_ip: Option<Seq<char>>,
    http_port: u16,
) -> Option<Seq<char>> {
    match base_url(advertised, local_ip, http_port) {
        Some(url) => Some(url + "/dlna/device.xml"@),
        None => None,
    }
}

/// Base url to hand a client, either the operator-provided one or, toward a given peer, whatever
/// local address routes there.
pub fn client_base_url(advertised: Option<&str>, local_ip: Option<&str>, http_port: u16) -> (r:
    Option<String>)
    ensures
        match r {
            Some(url) => base_url(str_of(advertised), str_of(local_ip), http_port) == Some(url@),
            None => base_url(str_of(advertised), str_of(local_ip), http_port) is None,
        },
{
    match advertised {
        Some(url) => Some(url.to_owned()),
        None => match local_ip {
            Some(ip) => {
                let mut r = "http://".to_owned();
                r.append(ip);
                r.append(":");
                r.append(to_decimal(http_port as u64).as_str());
                Some(r)
            },
            None => None,
        },
    }
}

/// Where the device description is.
pub fn location(advertised: Option<&str>, local_ip: Option<&str>, http_port: u16) -> (r: Option<
    String,
>)
    ensures
        match r {
            Some(url) => described_at(str_of(advertised), str_of(local_ip), http_port) == Some(
                url@,
            ),
            None => described_at(str_of(advertised), str_of(local_ip), http_port) is None,
        },
{
    match client_base_url(advertised, local_ip, http_port) {
        Some(url) => {
            let mut r = url;
            r.append("/dlna/device.xml");
            Some(r)
        },
        None => None,
    }
}

// ---------------------------------------------------------------------------
// Announcements

/// The (NT, USN) pairs that a MediaServer announces and answers searches for.
pub open spec fn announced(uuid: Seq<char>) -> Seq<(Seq<char>, Seq<char>)> {
    let id = "uuid:"@ + uuid;
    seq![
        ("upnp:rootdevice"@, id + "::"@ + "upnp:rootdevice"@),
        (id, id),
        (MEDIA_SERVER@, id + "::"@ + MEDIA_SERVER@),
        (CONTENT_DIRECTORY@, id + "::"@ + CONTENT_DIRECTORY@),
        (CONNECTION_MANAGER@, id + "::"@ + CONNECTION_MANAGER@),
    ]
}

/// A type and the name under which this server offers it.
fn named(uuid: &str, nt: &str) -> (r: (String, String))
    ensures
        r.0@ == nt@,
        r.1@ == "uuid:"@ + uuid@ + "::"@ + nt@,
{
    let mut usn = "uuid:".to_owned();
    usn.append(uuid);
    usn.append("::");
    usn.append(nt);
    (nt.to_owned(), usn)
}

/// (NT, USN) pairs a MediaServer announces and answers searches for.
pub fn notification_types(uuid: &str) -> (r: Vec<(String, String)>)
    ensures
        headers_text(r@) == announced(uuid@),
{
    let mut id = "uuid:".to_owned();
    id.append(uuid);
    let mut r: Vec<(String, String)> = Vec::new();
    r.push(named(uuid, "upnp:rootdevice"));
    r.push((id.clone(), id));
    r.push(named(uuid, MEDIA_SERVER));
    r.push(named(uuid, CONTENT_DIRECTORY));
    r.push(named(uuid, CONNECTION_MANAGER));
    assert(headers_text(r@) =~= announced(uuid@));
    r
}

/// Every name that is announced carries the server's identity.
pub proof fn law_every_name_carries_the_uuid(uuid: Seq<char>, i: int)
    requires
        0 <= i < announced(uuid).len(),
    ensures
        ("uuid:"@ + uuid).is_prefix_of(announced(uuid)[i].1),
{
    let id = "uuid:"@ + uuid;
    let usn = announced(uuid)[i].1;
    assert(id =~= usn.subrange(0, id.len() as int));
}

/// The datagram that announces one type, or takes the announcement back.
pub open spec fn notification(
    nt: Seq<char>,
    usn: Seq<char>,
    location: Seq<char>,
    alive: bool,
) -> Seq<char> {
    if alive {
        "NOTIFY * HTTP/1.1\r\nHOST: "@ + SSDP_ADDRESS@ + "\r\nCACHE-CONTROL: max-age="@ + decimal(
            CACHE_MAX_AGE as nat,
        ) + "\r\nLOCATION: "@ + location + "\r\nNT: "@ + nt + "\r\nNTS: ssdp:alive\r\nSERVER: "@
            + SERVER_ID@ + "\r\nUSN: "@ + usn + "\r\n\r\n"@
    } else {
        "NOTIFY * HTTP/1.1\r\nHOST: "@ + SSDP_ADDRESS@ + "\r\nNT: "@ + nt
            + "\r\nNTS: ssdp:byebye\r\nUSN: "@ + usn + "\r\n\r\n"@
    }
}

/// The datagrams that announce every type.
pub open spec fn notifications(uuid: Seq<char>, location: Seq<char>, alive: bool) -> Seq<
    Seq<char>,
> {
    announced(uuid).map_values(
        |p: (Seq<char>, Seq<char>)| notification(p.0, p.1, location, alive),
    )
}

fn notification_message(nt: &str, usn: &str, location: &str, alive: bool) -> (r: String)
    ensures
        r@ == notification(nt@, usn@, location@, alive),
{
    let mut r = "NOTIFY * HTTP/1.1\r\nHOST: ".to_owned();
    r.append(SSDP_ADDRESS);
    if alive {
        r.append("\r\nCACHE-CONTROL: max-age=");
        r.append(to_decimal(CACHE_MAX_AGE as u64).as_str());
        r.append("\r\nLOCATION: ");
        r.append(location);
        r.append("\r\nNT: ");
        r.append(nt);
        r.append("\r\nNTS: ssdp:alive\r\nSERVER: ");
        r.append(SERVER_ID);
        r.append("\r\nUSN: ");
        r.append(usn);
        r.append("\r\n\r\n");
    } else {
        r.append("\r\nNT: ");
        r.append(nt);
        r.append("\r\nNTS: ssdp:byebye\r\nUSN: ");
        r.append(usn);
        r.append("\r\n\r\n");
    }
    r
}

/// The datagrams for the group that announce the server at its location, or take the announcement
/// back. None where it cannot be reached.
pub fn notify(location: Option<&str>, uuid: &str, alive: bool) -> (r: Vec<String>)
    ensures
        match location {
            Some(location) => texts(r@) == notifications(uuid@, location@, alive),
            None => r.len() == 0,
        },
{
    let mut r: Vec<String> = Vec::new();
    let location = match location {
        Some(location) => location,
        None => return r,
    };
    let types = notification_types(uuid);
    let ghost all = announced(uuid@);
    let mut i: usize = 0;
    while i < types.len()
        invariant
            i <= types.len(),
            all == announced(uuid@),
            headers_text(types@) == all,
            texts(r@) == notifications(uuid@, location@, alive).take(i as int),
        decreases types.len() - i,
    {
        let ghost sent = r@;
        let ghost due = notifications(uuid@, location@, alive);
        assert(all[i as int] == (types@[i as int].0@, types@[i as int].1@));
        assert(due[i as int] == notification(
            all[i as int].0,
            all[i as int].1,
            location@,
            alive,
        ));
        r.push(
            notification_message(types[i].0.as_str(), types[i].1.as_str(), location, alive),
        );
        i += 1;
        assert(texts(r@) =~= texts(sent).push(r@.last()@));
        assert(due.take(i as int) =~= due.take(i - 1).push(due[i - 1]));
    }
    assert(headers_text(types@).len() == types.len());
    assert(notifications(uuid@, location@, alive).take(i as int) =~= notifications(
        uuid@,
        location@,
        alive,
    ));
    r
}

// ---------------------------------------------------------------------------
// Searches

/// The answer to a search for one type.
pub open spec fn search_response(st: Seq<char>, usn: Seq<char>, location: Seq<char>) -> Seq<char> {
    "HTTP/1.1 200 OK\r\nCACHE-CONTROL: max-age="@ + decimal(CACHE_MAX_AGE as nat)
        + "\r\nEXT:\r\nLOCATION: "@ + location + "\r\nSERVER: "@ + SERVER_ID@ + "\r\nST: "@ + st
        + "\r\nUSN: "@ + usn + "\r\n\r\n"@
}

/// Whether a search is for this type.
pub open spec fn searched(target: Seq<char>, nt: Seq<char>) -> bool {
    target == "ssdp:all"@ || target == nt
}

/// The answers to a search out of the first `n` types: one for each type it is for, naming that
/// type.
pub open spec fn answers(
    types: Seq<(Seq<char>, Seq<char>)>,
    target: Seq<char>,
    location: Seq<char>,
) -> Seq<Seq<char>>
    decreases types.len(),
{
    if types.len() == 0 {
        Seq::empty()
    } else {
        let earlier = answers(types.drop_last(), target, location);
        let (nt, usn) = types.last();
        if searched(target, nt) {
            earlier.push(search_response(nt, usn, location))
        } else {
            earlier
        }
    }
}

fn response_message(st: &str, usn: &str, location: &str) -> (r: String)
    ensures
        r@ == search_response(st@, usn@, location@),
{
    let mut r = "HTTP/1.1 200 OK\r\nCACHE-CONTROL: max-age=".to_owned();
    r.append(to_decimal(CACHE_MAX_AGE as u64).as_str());
    r.append("\r\nEXT:\r\nLOCATION: ");
    r.append(location);
    r.append("\r\nSERVER: ");
    r.append(SERVER_ID);
    r.append("\r\nST: ");
    r.append(st);
    r.append("\r\nUSN: ");
    r.append(usn);
    r.append("\r\n\r\n");
    r
}

/// The datagrams that answer a search, toward the searcher. None where the server cannot be
/// reached.
pub fn answer_search(location: Option<&str>, uuid: &str, search_target: &str) -> (r: Vec<String>)
    ensures
        match location {
            Some(location) => texts(r@) == answers(announced(uuid@), search_target@, location@),
            None => r.len() == 0,
        },
{
    let mut r: Vec<String> = Vec::new();
    let location = match location {
        Some(location) => location,
        None => return r,
    };
    let types = notification_types(uuid);
    let ghost all = announced(uuid@);
    let mut i: usize = 0;
    assert(texts(r@) =~= Seq::empty());
    while i < types.len()
        invariant
            i <= types.len(),
            headers_text(types@) == all,
            texts(r@) == answers(all.take(i as int), search_target@, location@),
        decreases types.len() - i,
    {
        assert(all[i as int] == (types@[i as int].0@, types@[i as int].1@));
        assert(all.take(i + 1).drop_last() =~= all.take(i as int));
        let ghost sent = r@;
        let nt = types[i].0.as_str();
        if same(search_target, "ssdp:all") || same(search_target, nt) {
            r.push(response_message(nt, types[i].1.as_str(), location));
            assert(texts(r@) =~= texts(sent).push(r@.last()@));
        }
        i += 1;
    }
    assert(headers_text(types@).len() == types.len());
    assert(all.take(i as int) =~= all);
    r
}

/// A search for everything is answered once for each type that is announced.
pub proof fn law_search_for_all_answers_all(
    types: Seq<(Seq<char>, Seq<char>)>,
    location: Seq<char>,
)
    ensures
        answers(types, "ssdp:all"@, location) == types.map_values(
            |p: (Seq<char>, Seq<char>)| search_response(p.0, p.1, location),
        ),
    decreases types.len(),
{
    let f = |p: (Seq<char>, Seq<char>)| search_response(p.0, p.1, location);
    if types.len() > 0 {
        law_search_for_all_answers_all(types.drop_last(), location);
        assert(types.map_values(f) =~= types.drop_last().map_values(f).push(f(types.last())));
    } else {
        assert(types.map_values(f) =~= Seq::empty());
    }
}

/// A search for a type that is not announced is not answered.
pub proof fn law_search_for_others_is_silent(
    types: Seq<(Seq<char>, Seq<char>)>,
    target: Seq<char>,
    location: Seq<char>,
)
    requires
        forall|i: int| 0 <= i < types.len() ==> !searched(target, (#[trigger] types[i]).0),
    ensures
        answers(types, target, location).len() == 0,
    decreases types.len(),
{
    if types.len() > 0 {
        assert(types[types.len() - 1] == types.last());
        assert forall|i: int| 0 <= i < types.drop_last().len() implies !searched(
            target,
            (#[trigger] types.drop_last()[i]).0,
        ) by {
            assert(types.drop_last()[i] == types[i]);
        }
        law_search_for_others_is_silent(types.drop_last(), target, location);
    }
}

/// The value that a message gives for a name: what stands behind the colon in the first line whose
/// part before the colon is the name, whatever its case and without the white space around either.
pub open spec fn value_in(message: Seq<char>, name: Seq<char>) -> Option<Seq<char>>
    decreases message.len(),
{
    let line = before(message, '\n');
    if line.contains(':') && lowercase(trim(before(line, ':'))) == lowercase(name) {
        Some(trim(after(line, ':')))
    } else if message.contains('\n') {
        proof {
            lemma_position(message, '\n');
        }
        value_in(after(message, '\n'), name)
    } else {
        None
    }
}

/// The value that a message gives for a name, whatever the case of the name.
pub fn header_value<'a>(message: &'a str, name: &str) -> (r: Option<&'a str>)
    ensures
        match r {
            Some(v) => value_in(message@, name@) == Some(v@),
            None => value_in(message@, name@) is None,
        },
    decreases message@.len(),
{
    // The carriage return at the end of a line is white space and goes with it
    let line = split_before(message, '\n');
    if let Some((key, value)) = split_once(line, ':') {
        if same_ignoring_case(trimmed(key), name) {
            return Some(trimmed(value));
        }
    }
    match split_once(message, '\n') {
        Some((_, rest)) => {
            proof {
                lemma_position(message@, '\n');
            }
            header_value(rest, name)
        },
        None => None,
    }
}

/// What a datagram searches for: it is text, starts with `M-SEARCH`, and has an ST header.
pub open spec fn target_of(datagram: Seq<u8>) -> Option<Seq<char>> {
    if valid_utf8(datagram) && "M-SEARCH"@.is_prefix_of(decode_utf8(datagram)) {
        value_in(decode_utf8(datagram), "st"@)
    } else {
        None
    }
}

/// What a datagram searches for, if it is a search.
pub fn search_target(datagram: &[u8]) -> (r: Option<&str>)
    ensures
        match r {
            Some(st) => target_of(datagram@) == Some(st@),
            None => target_of(datagram@) is None,
        },
{
    match decode(datagram) {
        Some(text) => {
            if starts_with(text, "M-SEARCH") {
                header_value(text, "st")
            } else {
                None
            }
        },
        None => None,
    }
}

/// The seconds between two announcements.
pub const NOTIFY_EVERY: u64 = 600;

/// When the server was last announced. Times count from one common start.
pub struct Announcer {
    last_notify: Option<Duration>,
}

impl View for Announcer {
    type V = Option<nat>;

    closed spec fn view(&self) -> Option<nat> {
        match self.last_notify {
            Some(last) => Some(last@),
            None => None,
        }
    }
}

/// Whether an announcement is due: at the start, and then three times within the age at which
/// clients forget one.
pub open spec fn notify_due(last: Option<nat>, now: nat) -> bool {
    match last {
        Some(last) => now >= last + (CACHE_MAX_AGE as nat / 3) * 1_000_000_000,
        None => true,
    }
}

/// When the last announcement was, after a turn.
pub open spec fn after_turn(last: Option<nat>, now: nat) -> Option<nat> {
    if notify_due(last, now) {
        Some(now)
    } else {
        last
    }
}

impl Announcer {
    /// Nothing has been announced.
    pub fn new() -> (r: Announcer)
        ensures
            r@ is None,
    {
        Announcer { last_notify: None }
    }

    /// Whether to announce now. If so, that is noted.
    pub fn turn(&mut self, now: Duration) -> (due: bool)
        ensures
            due == notify_due(old(self)@, now@),
            final(self)@ == after_turn(old(self)@, now@),
    {
        let due = match self.last_notify {
            Some(last) => {
                if last.longer_than(now) {
                    false
                } else {
                    !Duration::from_secs(NOTIFY_EVERY).longer_than(now.minus(last))
                }
            },
            None => true,
        };
        if due {
            self.last_notify = Some(now);
        }
        due
    }
}

// ---------------------------------------------------------------------------
// Laws

/// A line of a message, from index `a` up to index `b`: between two line feeds, or between one and
/// an end of the message.
pub open spec fn line_at(message: Seq<char>, a: int, b: int) -> bool {
    &&& 0 <= a <= b <= message.len()
    &&& a == 0 || message[a - 1] == '\n'
    &&& b == message.len() || message[b] == '\n'
    &&& forall|j: int| a <= j < b ==> #[trigger] message[j] != '\n'
}

/// A line that gives a value for a name: its first colon is at index `k`, and what stands before
/// that, without the white space around it, is the name up to the case of ASCII letters.
pub open spec fn line_names(message: Seq<char>, a: int, b: int, k: int, name: Seq<char>) -> bool {
    &&& a <= k < b
    &&& message[k] == ':'
    &&& forall|j: int| a <= j < k ==> #[trigger] message[j] != ':'
    &&& lowercase(trim(message.subrange(a, k))) == lowercase(name)
}

proof fn lemma_first_line(message: Seq<char>, p: int)
    requires
        0 <= p <= message.len(),
        p == message.len() || message[p] == '\n',
        forall|j: int| 0 <= j < p ==> #[trigger] message[j] != '\n',
    ensures
        line_at(message, 0, p),
        forall|b: int| #[trigger] line_at(message, 0, b) ==> b == p,
        p == message.len() ==> forall|a: int, b: int| #[trigger] line_at(message, a, b) ==> a == 0,
        p < message.len() ==> forall|a: int, b: int|
            #[trigger] line_at(message, a, b) && a != 0 ==> a >= p + 1,
{
    assert forall|b: int| #[trigger] line_at(message, 0, b) implies b == p by {
        if b < p {
            assert(message[b] != '\n');
        }
        if b > p {
            assert(message[p] != '\n');
        }
    }
    assert forall|a: int, b: int| #[trigger] line_at(message, a, b) && a != 0 implies a >= p + 1 by {
        if a < p + 1 {
            assert(message[a - 1] != '\n');
        }
    }
}

proof fn lemma_later_lines(message: Seq<char>, o: int, a: int, b: int, k: int, name: Seq<char>)
    requires
        0 < o <= message.len(),
        message[o - 1] == '\n',
        o <= a,
    ensures
        line_at(message, a, b) == line_at(message.skip(o), a - o, b - o),
        line_at(message, a, b) ==> line_names(message, a, b, k, name) == line_names(
            message.skip(o),
            a - o,
            b - o,
            k - o,
            name,
        ),
        line_at(message, a, b) && a <= k < b ==> message.skip(o).subrange(k - o + 1, b - o)
            == message.subrange(k + 1, b),
{
    let rest = message.skip(o);
    if line_at(message, a, b) {
        assert forall|j: int| a - o <= j < b - o implies #[trigger] rest[j] != '\n' by {
            assert(rest[j] == message[j + o]);
        }
    }
    if line_at(rest, a - o, b - o) {
        assert forall|j: int| a <= j < b implies #[trigger] message[j] != '\n' by {
            assert(rest[j - o] == message[j]);
        }
    }
    if line_at(message, a, b) && a <= k < b {
        assert(rest.subrange(k - o + 1, b - o) =~= message.subrange(k + 1, b));
        assert(rest.subrange(a - o, k - o) =~= message.subrange(a, k));
        assert(rest[k - o] == message[k]);
        if line_names(message, a, b, k, name) {
            assert forall|j: int| a - o <= j < k - o implies #[trigger] rest[j] != ':' by {
                assert(rest[j] == message[j + o]);
            }
        }
        if line_names(rest, a - o, b - o, k - o, name) {
            assert forall|j: int| a <= j < k implies #[trigger] message[j] != ':' by {
                assert(rest[j - o] == message[j]);
            }
        }
    }
}

proof fn lemma_first_line_value(message: Seq<char>, name: Seq<char>, p: int)
    requires
        line_at(message, 0, p),
        before(message, '\n') == message.take(p),
    ensures
        ({
            let line = before(message, '\n');
            let named = line.contains(':') && lowercase(trim(before(line, ':'))) == lowercase(name);
            &&& named ==> exists|k: int|
                #[trigger] line_names(message, 0, p, k, name) && trim(after(line, ':')) == trim(
                    message.subrange(k + 1, p),
                )
            &&& !named ==> forall|k: int| !#[trigger] line_names(message, 0, p, k, name)
        }),
{
    let line = message.take(p);
    let c = crate::text::position(line, ':');
    lemma_position(line, ':');
    if line.contains(':') {
        assert(line.take(c) =~= message.subrange(0, c));
        assert(line.skip(c + 1) =~= message.subrange(c + 1, p));
        assert(line[c] == message[c]);
        assert forall|j: int| 0 <= j < c implies #[trigger] message[j] != ':' by {
            assert(line[j] == message[j]);
        }
        if lowercase(trim(before(line, ':'))) == lowercase(name) {
            assert(line_names(message, 0, p, c, name));
        } else {
            assert forall|k: int| !#[trigger] line_names(message, 0, p, k, name) by {
                if line_names(message, 0, p, k, name) {
                    if k > c {
                        assert(message[c] != ':');
                    }
                    if k < c {
                        assert(message[k] == ':');
                    }
                }
            }
        }
    } else {
        assert forall|k: int| !#[trigger] line_names(message, 0, p, k, name) by {
            if 0 <= k < p && message[k] == ':' {
                assert(line[k] == ':');
            }
        }
    }
}

/// A value is found whenever some line of the message gives one for the name, whatever lines come
/// before it: it is what stands behind the colon of the first such line, without the white space
/// around it. None is found only if no line gives one.
pub proof fn law_value_of_the_first_line_that_names(message: Seq<char>, name: Seq<char>)
    ensures
        match value_in(message, name) {
            Some(v) => exists|a: int, b: int, k: int|
                {
                    &&& line_at(message, a, b)
                    &&& #[trigger] line_names(message, a, b, k, name)
                    &&& v == trim(message.subrange(k + 1, b))
                    &&& forall|c: int, d: int, j: int|
                        line_at(message, c, d) && c < a ==> !#[trigger] line_names(
                            message,
                            c,
                            d,
                            j,
                            name,
                        )
                },
            None => forall|a: int, b: int, k: int|
                line_at(message, a, b) ==> !#[trigger] line_names(message, a, b, k, name),
        },
    decreases message.len(),
{
    let p = crate::text::position(message, '\n');
    lemma_position(message, '\n');
    lemma_first_line(message, p);
    lemma_first_line_value(message, name, p);
    let line = before(message, '\n');
    if line.contains(':') && lowercase(trim(before(line, ':'))) == lowercase(name) {
        let k = choose|k: int|
            #[trigger] line_names(message, 0, p, k, name) && trim(after(line, ':')) == trim(
                message.subrange(k + 1, p),
            );
        assert(line_names(message, 0, p, k, name));
    } else if message.contains('\n') {
        let o = p + 1;
        let rest = message.skip(o);
        law_value_of_the_first_line_that_names(rest, name);
        match value_in(rest, name) {
            Some(v) => {
                let (a, b, k) = choose|a: int, b: int, k: int|
                    {
                        &&& line_at(rest, a, b)
                        &&& #[trigger] line_names(rest, a, b, k, name)
                        &&& v == trim(rest.subrange(k + 1, b))
                        &&& forall|c: int, d: int, j: int|
                            line_at(rest, c, d) && c < a ==> !#[trigger] line_names(
                                rest,
                                c,
                                d,
                                j,
                                name,
                            )
                    };
                lemma_later_lines(message, o, a + o, b + o, k + o, name);
                assert(line_names(message, a + o, b + o, k + o, name));
                assert forall|c: int, d: int, j: int|
                    line_at(message, c, d) && c < a + o implies !#[trigger] line_names(
                    message,
                    c,
                    d,
                    j,
                    name,
                ) by {
                    if c != 0 {
                        lemma_later_lines(message, o, c, d, j, name);
                        assert(!line_names(rest, c - o, d - o, j - o, name));
                    }
                }
            },
            None => {
                assert forall|a: int, b: int, k: int| line_at(message, a, b) implies !#[trigger]
                line_names(message, a, b, k, name) by {
                    if a != 0 {
                        lemma_later_lines(message, o, a, b, k, name);
                        assert(!line_names(rest, a - o, b - o, k - o, name));
                    }
                }
            },
        }
    } else {
        assert forall|a: int, b: int, k: int| line_at(message, a, b) implies !#[trigger] line_names(
            message,
            a,
            b,
            k,
            name,
        ) by {
            assert(a == 0);
        }
    }
}

/// A datagram is a search exactly if it is text whose first eight characters are `M-SEARCH` and
/// some line of it gives a value for `ST`, in any case; that value of the first such line is what
/// it searches for.
pub proof fn law_search_target(datagram: Seq<u8>)
    ensures
        ({
            let text = decode_utf8(datagram);
            match target_of(datagram) {
                Some(v) => {
                    &&& valid_utf8(datagram)
                    &&& text.len() >= 8
                    &&& text.take(8) == seq!['M', '-', 'S', 'E', 'A', 'R', 'C', 'H']
                    &&& exists|a: int, b: int, k: int|
                        {
                            &&& line_at(text, a, b)
                            &&& #[trigger] line_names(text, a, b, k, "ST"@)
                            &&& v == trim(text.subrange(k + 1, b))
                            &&& forall|c: int, d: int, j: int|
                                line_at(text, c, d) && c < a ==> !#[trigger] line_names(
                                    text,
                                    c,
                                    d,
                                    j,
                                    "ST"@,
                                )
                        }
                },
                None => {
                    ||| !valid_utf8(datagram)
                    ||| text.len() < 8
                    ||| text.take(8) != seq!['M', '-', 'S', 'E', 'A', 'R', 'C', 'H']
                    ||| forall|a: int, b: int, k: int|
                        line_at(text, a, b) ==> !#[trigger] line_names(
                            text,
                            a,
                            b,
                            k,
                            "ST"@,
                        )
                },
            }
        }),
{
    let text = decode_utf8(datagram);
    reveal_strlit("M-SEARCH");
    reveal_strlit("st");
    let prefix = seq!['M', '-', 'S', 'E', 'A', 'R', 'C', 'H'];
    assert("M-SEARCH"@ =~= prefix);
    if text.len() >= 8 {
        assert(text.take(8) =~= text.subrange(0, 8));
    }
    reveal_strlit("ST");
    assert(lowercase("ST"@) =~= lowercase("st"@));
    law_value_of_the_first_line_that_names(text, "st"@);
    assert forall|a: int, b: int, k: int| #[trigger]
        line_names(text, a, b, k, "ST"@) == line_names(text, a, b, k, "st"@) by {}
    if target_of(datagram) is Some {
        let v = target_of(datagram)->0;
        let (a, b, k) = choose|a: int, b: int, k: int|
            {
                &&& line_at(text, a, b)
                &&& #[trigger] line_names(text, a, b, k, "st"@)
                &&& v == trim(text.subrange(k + 1, b))
                &&& forall|c: int, d: int, j: int|
                    line_at(text, c, d) && c < a ==> !#[trigger] line_names(text, c, d, j, "st"@)
            };
        assert(line_names(text, a, b, k, "ST"@));
    }
}

/// A message is an answer to a search exactly if it names a type that was searched for, either by
/// itself or with all others, together with the name that is announced for that type.
pub proof fn law_answers_are_for_the_types_searched(
    types: Seq<(Seq<char>, Seq<char>)>,
    target: Seq<char>,
    location: Seq<char>,
    message: Seq<char>,
)
    ensures
        answers(types, target, location).contains(message) <==> exists|i: int|
            {
                &&& 0 <= i < types.len()
                &&& target == "ssdp:all"@ || target == (#[trigger] types[i]).0
                &&& message == search_response(types[i].0, types[i].1, location)
            },
        answers(types, target, location).len() <= types.len(),
    decreases types.len(),
{
    let all = answers(types, target, location);
    if types.len() > 0 {
        let fewer = types.drop_last();
        let earlier = answers(fewer, target, location);
        law_answers_are_for_the_types_searched(fewer, target, location, message);
        let (nt, usn) = types.last();
        if all.contains(message) {
            if earlier.contains(message) {
                let i = choose|i: int|
                    {
                        &&& 0 <= i < fewer.len()
                        &&& target == "ssdp:all"@ || target == (#[trigger] fewer[i]).0
                        &&& message == search_response(fewer[i].0, fewer[i].1, location)
                    };
                assert(types[i] == fewer[i]);
            } else {
                let j = choose|j: int| 0 <= j < all.len() && all[j] == message;
                if j < earlier.len() {
                    assert(earlier[j] == message);
                }
                assert(types[types.len() - 1] == (nt, usn));
            }
        }
        if exists|i: int|
            {
                &&& 0 <= i < types.len()
                &&& target == "ssdp:all"@ || target == (#[trigger] types[i]).0
                &&& message == search_response(types[i].0, types[i].1, location)
            } {
            let i = choose|i: int|
                {
                    &&& 0 <= i < types.len()
                    &&& target == "ssdp:all"@ || target == (#[trigger] types[i]).0
                    &&& message == search_response(types[i].0, types[i].1, location)
                };
            if i < fewer.len() {
                assert(fewer[i] == types[i]);
                let j = choose|j: int| 0 <= j < earlier.len() && earlier[j] == message;
                assert(all[j] == message);
            } else {
                assert(all[all.len() - 1] == message);
            }
        }
    }
}

/// Every answer carries the place, the type and the name that it is for.
pub proof fn law_answers_carry_what_they_are_for(
    nt: Seq<char>,
    usn: Seq<char>,
    location: Seq<char>,
)
    ensures
        holds(
            search_response(nt, usn, location),
            "\r\nEXT:\r\nLOCATION: "@ + location + "\r\nSERVER: "@,
        ),
        holds(search_response(nt, usn, location), "\r\nST: "@ + nt + "\r\nUSN: "@ + usn + "\r\n\r\n"@),
{
    let end = "\r\n\r\n"@;
    let head = "HTTP/1.1 200 OK\r\nCACHE-CONTROL: max-age="@ + decimal(CACHE_MAX_AGE as nat);
    let part = "\r\nEXT:\r\nLOCATION: "@ + location + "\r\nSERVER: "@;
    let back = "\r\nST: "@ + nt + "\r\nUSN: "@ + usn + end;
    let message = search_response(nt, usn, location);
    lemma_join(head, "\r\nEXT:\r\nLOCATION: "@, location);
    lemma_join(head, "\r\nEXT:\r\nLOCATION: "@ + location, "\r\nSERVER: "@);
    let front = head + part + SERVER_ID@;
    lemma_join(front, "\r\nST: "@, nt);
    lemma_join(front, "\r\nST: "@ + nt, "\r\nUSN: "@);
    lemma_join(front, "\r\nST: "@ + nt + "\r\nUSN: "@, usn);
    lemma_join(front, "\r\nST: "@ + nt + "\r\nUSN: "@ + usn, end);
    assert(message == front + back);
    law_holds(front, back, Seq::empty());
    law_holds(head, part, SERVER_ID@);
    law_holds_within(Seq::empty(), front, back, part);
}

/// Every announcement carries the place, the type and the name that it is for, and says that the
/// server is there.
pub proof fn law_announcements_carry_what_they_are_for(
    nt: Seq<char>,
    usn: Seq<char>,
    location: Seq<char>,
)
    ensures
        holds(
            notification(nt, usn, location, true),
            "\r\nLOCATION: "@ + location + "\r\nNT: "@ + nt + "\r\nNTS: ssdp:alive\r\nSERVER: "@,
        ),
        holds(notification(nt, usn, location, true), "\r\nUSN: "@ + usn + "\r\n\r\n"@),
{
    let end = "\r\n\r\n"@;
    let head = "NOTIFY * HTTP/1.1\r\nHOST: "@ + SSDP_ADDRESS@ + "\r\nCACHE-CONTROL: max-age="@
        + decimal(CACHE_MAX_AGE as nat);
    let part = "\r\nLOCATION: "@ + location + "\r\nNT: "@ + nt + "\r\nNTS: ssdp:alive\r\nSERVER: "@;
    let back = "\r\nUSN: "@ + usn + end;
    let message = notification(nt, usn, location, true);
    let first = "\r\nLOCATION: "@;
    lemma_join(head, first, location);
    lemma_join(head, first + location, "\r\nNT: "@);
    lemma_join(head, first + location + "\r\nNT: "@, nt);
    lemma_join(head, first + location + "\r\nNT: "@ + nt, "\r\nNTS: ssdp:alive\r\nSERVER: "@);
    let front = head + part + SERVER_ID@;
    lemma_join(front, "\r\nUSN: "@, usn);
    lemma_join(front, "\r\nUSN: "@ + usn, end);
    assert(message == front + back);
    law_holds(front, back, Seq::empty());
    law_holds(head, part, SERVER_ID@);
    law_holds_within(Seq::empty(), front, back, part);
}

/// Every farewell carries the type and the name that it is for, and says that the server is gone.
pub proof fn law_farewells_carry_what_they_are_for(
    nt: Seq<char>,
    usn: Seq<char>,
    location: Seq<char>,
)
    ensures
        holds(
            notification(nt, usn, location, false),
            "\r\nNT: "@ + nt + "\r\nNTS: ssdp:byebye\r\nUSN: "@ + usn + "\r\n\r\n"@,
        ),
{
    let head = "NOTIFY * HTTP/1.1\r\nHOST: "@ + SSDP_ADDRESS@;
    let part = "\r\nNT: "@ + nt + "\r\nNTS: ssdp:byebye\r\nUSN: "@ + usn + "\r\n\r\n"@;
    let first = "\r\nNT: "@;
    lemma_join(head, first, nt);
    lemma_join(head, first + nt, "\r\nNTS: ssdp:byebye\r\nUSN: "@);
    lemma_join(head, first + nt + "\r\nNTS: ssdp:byebye\r\nUSN: "@, usn);
    lemma_join(head, first + nt + "\r\nNTS: ssdp:byebye\r\nUSN: "@ + usn, "\r\n\r\n"@);
    law_holds(head, part, Seq::empty());
}

/// Five types are announced, each under the identity of the server, followed by the type unless the
/// identity is the type.
pub proof fn law_announced_types(uuid: Seq<char>)
    ensures
        announced(uuid).len() == 5,
        forall|i: int|
            0 <= i < 5 ==> {
                let (nt, usn) = #[trigger] announced(uuid)[i];
                if i == 1 {
                    nt == "uuid:"@ + uuid && usn == nt
                } else {
                    usn == "uuid:"@ + uuid + "::"@ + nt
                }
            },
        announced(uuid)[0].0 == "upnp:rootdevice"@,
        announced(uuid)[2].0 == "urn:schemas-upnp-org:device:MediaServer:1"@,
        announced(uuid)[3].0 == "urn:schemas-upnp-org:service:ContentDirectory:1"@,
        announced(uuid)[4].0 == "urn:schemas-upnp-org:service:ConnectionManager:1"@,
{
}

/// Each announcement is for the type that stands at its place among those announced.
pub proof fn law_one_announcement_for_each_type(
    uuid: Seq<char>,
    location: Seq<char>,
    alive: bool,
    i: int,
)
    requires
        0 <= i < announced(uuid).len(),
    ensures
        notifications(uuid, location, alive).len() == announced(uuid).len(),
        notifications(uuid, location, alive)[i] == notification(
            announced(uuid)[i].0,
            announced(uuid)[i].1,
            location,
            alive,
        ),
{
}

/// The first announcement is due at once, and each later one when ten minutes have gone by.
pub proof fn law_announcements_ten_minutes_apart(last: nat, now: nat)
    ensures
        notify_due(None, now),
        now - last >= 600_000_000_000 ==> notify_due(Some(last), now),
        now - last < 600_000_000_000 ==> !notify_due(Some(last), now),
{
}

/// A client is sent to the url that the operator gave, as it is. Without one it is sent to the
/// local address, at the port of the server, and nowhere without either.
pub proof fn law_base_url(advertised: Seq<char>, ip: Seq<char>, local: Option<Seq<char>>, port: u16)
    ensures
        base_url(Some(advertised), local, port) == Some(advertised),
        described_at(Some(advertised), local, port) == Some(advertised + "/dlna/device.xml"@),
        base_url(None, Some(ip), port) is Some,
        "http://"@.is_prefix_of(base_url(None, Some(ip), port)->0),
        holds(base_url(None, Some(ip), port)->0, "/"@ + ip + ":"@),
        number(after_last(base_url(None, Some(ip), port)->0, ':'), 65535) == Some(port as nat),
        base_url(None, None, port) is None,
        described_at(None, None, port) is None,
{
    let n = decimal(port as nat);
    reveal_strlit("http://");
    reveal_strlit("http:/");
    reveal_strlit("/");
    reveal_strlit(":");
    let url = "http://"@ + ip + ":"@ + n;
    assert("http://"@ =~= url.subrange(0, 7));
    assert("http://"@ =~= "http:/"@ + "/"@);
    assert(url =~= "http:/"@ + ("/"@ + ip + ":"@) + n);
    law_holds("http:/"@, "/"@ + ip + ":"@, n);
    law_decimal_round_trip(port as nat, 65535);
    lemma_decimal_value(port as nat);
    assert(!n.contains(':')) by {
        assert forall|i: int| 0 <= i < n.len() implies n[i] != ':' by {
            assert(is_digit(n[i]));
        }
    }
    law_split_at_last("http://"@ + ip, ':', n);
    assert(url =~= ("http://"@ + ip).push(':') + n);
}

/// An announcement that was made is not due again before ten minutes, however many turns come in
/// between: a turn at which none is due changes nothing.
pub proof fn law_turn_notes_the_announcement(last: Option<nat>, now: nat, later: nat)
    ensures
        notify_due(last, now) ==> after_turn(last, now) == Some(now),
        !notify_due(last, now) ==> after_turn(last, now) == last,
        notify_due(last, now) && now <= later < now + 600_000_000_000 ==> !notify_due(
            after_turn(last, now),
            later,
        ),
        notify_due(last, now) && later >= now + 600_000_000_000 ==> notify_due(
            after_turn(last, now),
            later,
        ),
{
}

/// The first turn of a new announcer is due, whenever it comes.
pub proof fn law_first_turn_is_due(announcer: Announcer, now: nat)
    requires
        call_ensures(Announcer::new, (), announcer),
    ensures
        notify_due(announcer@, now),
        after_turn(announcer@, now) == Some(now),
{
}

} // verus!
