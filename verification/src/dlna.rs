//! DLNA MediaServer control, so a client like the PS4 media player can browse and play the stream:
//! the server's identity, device and service descriptions as xml over http, and a ContentDirectory
//! answering SOAP Browse with one live item pointing at the matroska stream. The discovery side is
//! in [`crate::ssdp`].
use crate::http::{find_header, header_named, headers_text, HeaderSeq};
use crate::numbers::{decimal, digit, hex_digits, to_decimal, to_hex_digits};
use crate::text::{
    after_last, chars_of, find, find_from, holds, law_find, law_holds, law_holds_within,
    law_split_at_last, law_strip, lemma_join, same, split_after_last, starts_with, string_of, strip_end, strip_start, stripped_end,
    stripped_start, trim, trimmed,
};
use std::collections::hash_map::DefaultHasher;
use std::hash::{Hash, Hasher};
use vstd::prelude::*;
use vstd::slice::slice_subrange;
use vstd::std_specs::hash::*;
use vstd::string::*;
use vstd::utf8::{decode_utf8, encode_utf8, valid_utf8};

verus! {

pub const CACHE_MAX_AGE: u32 = 1800;

pub const SERVER_ID: &'static str = "Linux UPnP/1.0 scream/0.1";

pub const STREAM_PATH: &'static str = "/stream.mkv";

/// mkv because that is what the shipped gst plugins can mux around x264. The strict dlna live
/// profile would be mpeg-ts, which needs tsmux from gst-plugins-bad.
pub const PROTOCOL_INFO: &'static str =
    "http-get:*:video/x-matroska:DLNA.ORG_OP=00;DLNA.ORG_CI=0;DLNA.ORG_FLAGS=01700000000000000000000000000000";

/// How the discovery service is to be run.
pub struct SsdpConfig {
    pub http_port: u16,
    pub advertise: Option<String>,
    pub relay: Option<String>,
}

// ---------------------------------------------------------------------------
// The advertised address

/// Base url a client should reach this server at, e.g. `http://192.168.1.10:7002`. It is given
/// when the server cannot tell its own reachable address (behind a NAT, in a container): it then
/// replaces the autodetected host in the ssdp LOCATION and in the DIDL `<res>` stream url. It is
/// set once.
pub struct AdvertiseUrl {
    url: Option<Option<String>>,
}

impl View for AdvertiseUrl {
    type V = Option<Option<Seq<char>>>;

    /// `None` until it is set, then the url if there is one.
    closed spec fn view(&self) -> Option<Option<Seq<char>>> {
        match self.url {
            Some(Some(url)) => Some(Some(url@)),
            Some(None) => Some(None),
            None => None,
        }
    }
}

impl AdvertiseUrl {
    /// Not set yet.
    pub fn new() -> (r: AdvertiseUrl)
        ensures
            r@ is None,
    {
        AdvertiseUrl { url: None }
    }
}

/// What setting the url makes of it: the first time counts, and slashes at the end are dropped.
pub open spec fn url_set(
    current: Option<Option<Seq<char>>>,
    url: Option<Seq<char>>,
) -> Option<Option<Seq<char>>> {
    match current {
        Some(_) => current,
        None => match url {
            Some(url) => Some(Some(strip_end(url, '/'))),
            None => Some(None),
        },
    }
}

/// The text of an optional string.
pub open spec fn text_of(s: Option<String>) -> Option<Seq<char>> {
    match s {
        Some(s) => Some(s@),
        None => None,
    }
}

/// The text of an optional string.
pub open spec fn str_of(s: Option<&str>) -> Option<Seq<char>> {
    match s {
        Some(s) => Some(s@),
        None => None,
    }
}

/// Sets the advertised url, without the slashes at its end. Once it is set it stays.
pub fn set_advertise_url(cell: &mut AdvertiseUrl, url: Option<String>)
    ensures
        final(cell)@ == url_set(old(cell)@, text_of(url)),
{
    if cell.url.is_none() {
        match url {
            Some(url) => {
                let stripped = stripped_end(url.as_str(), '/').to_owned();
                cell.url = Some(Some(stripped));
            },
            None => {
                cell.url = Some(None);
            },
        }
    }
}

/// The advertised url, if there is one.
pub fn advertise_url(cell: &AdvertiseUrl) -> (r: Option<&str>)
    ensures
        match cell@ {
            Some(Some(url)) => r is Some && r->0@ == url,
            _ => r is None,
        },
{
    match &cell.url {
        Some(Some(url)) => Some(url.as_str()),
        _ => None,
    }
}

/// The url that was set first stays, whatever is set later.
pub proof fn law_first_url_stays(
    current: Option<Option<Seq<char>>>,
    first: Option<Seq<char>>,
    second: Option<Seq<char>>,
)
    ensures
        url_set(url_set(current, first), second) == url_set(current, first),
{
}

// ---------------------------------------------------------------------------
// Identity

/// Whether `c` is an ASCII hexadecimal digit.
pub open spec fn is_hex(c: char) -> bool {
    let u = c as u32;
    ||| '0' as u32 <= u <= '9' as u32
    ||| 'a' as u32 <= u <= 'f' as u32
    ||| 'A' as u32 <= u <= 'F' as u32
}

/// The hexadecimal digits in a text, in order.
pub open spec fn hex_only(s: Seq<char>) -> Seq<char> {
    s.filter(|c: char| is_hex(c))
}

/// Groups of 8, 4, 4, 4 and 12 characters, with hyphens between them.
pub open spec fn grouped(h: Seq<char>) -> Seq<char> {
    h.subrange(0, 8) + "-"@ + h.subrange(8, 12) + "-"@ + h.subrange(12, 16) + "-"@ + h.subrange(
        16,
        20,
    ) + "-"@ + h.subrange(20, 32)
}

/// A uuid out of two numbers.
pub open spec fn uuid_from(a: u64, b: u64) -> Seq<char> {
    hex_digits(a as nat / 0x1_0000_0000, 8) + "-"@ + hex_digits(a as nat / 0x1_0000, 4) + "-"@
        + hex_digits(a as nat, 4) + "-"@ + hex_digits(b as nat / 0x1_0000_0000_0000, 4) + "-"@
        + hex_digits(b as nat, 12)
}

/// The state of a hasher after `str::hash` has fed a text to it, given the state before.
pub uninterp spec fn hashed(state: Seq<Seq<u8>>, text: Seq<char>) -> Seq<Seq<u8>>;

/// `str::hash` with a `DefaultHasher`: the state of the hasher afterwards is a function of its state
/// before and of the text. What exactly the hasher is fed is left unsaid.
#[verifier::external_body]
fn hash_text(hasher: &mut DefaultHasher, text: &str)
    ensures
        final(hasher)@ == hashed(old(hasher)@, text@),
{
    text.hash(hasher);
}

/// The first number of the uuid for a host.
pub open spec fn host_hash(host: Seq<char>) -> u64 {
    DefaultHasher::spec_finish(hashed(Seq::empty(), host))
}

/// The second number of the uuid for a host.
pub open spec fn salted_hash(host: Seq<char>) -> u64 {
    DefaultHasher::spec_finish(hashed(hashed(Seq::empty(), host), "scream"@))
}

/// The identity a client remembers the server by: out of the machine id where it has 32 digits, of
/// a hash of the host name otherwise. A host without a name counts as `scream`.
pub open spec fn uuid(machine_id: Option<Seq<char>>, hostname: Option<Seq<char>>) -> Seq<char> {
    let host = match hostname {
        Some(host) => host,
        None => "scream"@,
    };
    match machine_id {
        Some(id) => if hex_only(id).len() >= 32 {
            grouped(hex_only(id))
        } else {
            uuid_from(host_hash(host), salted_hash(host))
        },
        None => uuid_from(host_hash(host), salted_hash(host)),
    }
}

fn is_hex_char(c: char) -> (r: bool)
    ensures
        r == is_hex(c),
{
    let u: u32 = c as u32;
    (48 <= u && u <= 57) || (97 <= u && u <= 102) || (65 <= u && u <= 70)
}

/// The hexadecimal digits in a text.
fn hex_chars(s: &str) -> (r: Vec<char>)
    ensures
        r@ == hex_only(s@),
{
    let cs = chars_of(s);
    let ghost keep = |c: char| is_hex(c);
    let mut r: Vec<char> = Vec::new();
    let mut i: usize = 0;
    assert(cs@.take(0).filter(keep) =~= Seq::empty()) by {
        reveal(Seq::filter);
    }
    while i < cs.len()
        invariant
            i <= cs.len(),
            keep == (|c: char| is_hex(c)),
            r@ == cs@.take(i as int).filter(keep),
        decreases cs.len() - i,
    {
        proof {
            reveal(Seq::filter);
            assert(cs@.take(i + 1).drop_last() =~= cs@.take(i as int));
        }
        if is_hex_char(cs[i]) {
            r.push(cs[i]);
        }
        i += 1;
    }
    assert(cs@.take(cs.len() as int) =~= cs@);
    r
}

/// Appends a hyphen and some characters.
fn push_group(r: &mut String, cs: &[char])
    ensures
        final(r)@ == old(r)@ + "-"@ + cs@,
{
    r.append("-");
    r.append(string_of(cs).as_str());
}

/// The uuid out of two numbers.
pub fn uuid_of_hashes(a: u64, b: u64) -> (r: String)
    ensures
        r@ == uuid_from(a, b),
{
    let mut r = to_hex_digits(a / 0x1_0000_0000, 8);
    r.append("-");
    r.append(to_hex_digits(a / 0x1_0000, 4).as_str());
    r.append("-");
    r.append(to_hex_digits(a, 4).as_str());
    r.append("-");
    r.append(to_hex_digits(b / 0x1_0000_0000_0000, 4).as_str());
    r.append("-");
    r.append(to_hex_digits(b, 12).as_str());
    r
}

/// The identity a client remembers the server by, so it has to survive a restart: the machine id
/// when there is one, a hostname hash otherwise.
pub fn device_uuid(machine_id: Option<&str>, hostname: Option<&str>) -> (r: String)
    ensures
        r@ == uuid(str_of(machine_id), str_of(hostname)),
{
    if let Some(id) = machine_id {
        let h = hex_chars(id);
        if h.len() >= 32 {
            let cs = h.as_slice();
            let mut r = string_of(slice_subrange(cs, 0, 8));
            push_group(&mut r, slice_subrange(cs, 8, 12));
            push_group(&mut r, slice_subrange(cs, 12, 16));
            push_group(&mut r, slice_subrange(cs, 16, 20));
            push_group(&mut r, slice_subrange(cs, 20, 32));
            return r;
        }
    }
    let host = match hostname {
        Some(host) => host,
        None => "scream",
    };
    let mut hasher = DefaultHasher::new();
    hash_text(&mut hasher, host);
    let a = hasher.finish();
    hash_text(&mut hasher, "scream");
    let b = hasher.finish();
    uuid_of_hashes(a, b)
}

/// The hexadecimal digits of a number are as many as asked for, and are hexadecimal digits.
proof fn lemma_hex_digits(n: nat, width: nat)
    ensures
        hex_digits(n, width).len() == width,
        forall|i: int| 0 <= i < width ==> is_hex(#[trigger] hex_digits(n, width)[i]),
    decreases width,
{
    if width > 0 {
        lemma_hex_digits(n / 16, (width - 1) as nat);
        assert(is_hex(digit(n % 16)));
    }
}

/// Whether a text has the shape of a uuid: 8, 4, 4, 4 and 12 hexadecimal digits, with hyphens
/// between them.
pub open spec fn uuid_shaped(s: Seq<char>) -> bool {
    &&& s.len() == 36
    &&& forall|i: int|
        0 <= i < 36 ==> if i == 8 || i == 13 || i == 18 || i == 23 {
            #[trigger] s[i] == '-'
        } else {
            is_hex(s[i])
        }
}

/// Five groups joined by hyphens are shaped like a uuid.
proof fn lemma_groups(a: Seq<char>, b: Seq<char>, c: Seq<char>, d: Seq<char>, e: Seq<char>)
    requires
        a.len() == 8,
        b.len() == 4,
        c.len() == 4,
        d.len() == 4,
        e.len() == 12,
        forall|i: int| 0 <= i < 8 ==> is_hex(#[trigger] a[i]),
        forall|i: int| 0 <= i < 4 ==> is_hex(#[trigger] b[i]),
        forall|i: int| 0 <= i < 4 ==> is_hex(#[trigger] c[i]),
        forall|i: int| 0 <= i < 4 ==> is_hex(#[trigger] d[i]),
        forall|i: int| 0 <= i < 12 ==> is_hex(#[trigger] e[i]),
    ensures
        uuid_shaped(a + "-"@ + b + "-"@ + c + "-"@ + d + "-"@ + e),
{
    reveal_strlit("-");
}

/// Whatever the machine and the host are called, the identity is shaped like a uuid.
pub proof fn law_uuid_shape(machine_id: Option<Seq<char>>, hostname: Option<Seq<char>>)
    ensures
        uuid_shaped(uuid(machine_id, hostname)),
{
    let host = match hostname {
        Some(host) => host,
        None => "scream"@,
    };
    let a = host_hash(host) as nat;
    let b = salted_hash(host) as nat;
    lemma_hex_digits(a / 0x1_0000_0000, 8);
    lemma_hex_digits(a / 0x1_0000, 4);
    lemma_hex_digits(a, 4);
    lemma_hex_digits(b / 0x1_0000_0000_0000, 4);
    lemma_hex_digits(b, 12);
    lemma_groups(
        hex_digits(a / 0x1_0000_0000, 8),
        hex_digits(a / 0x1_0000, 4),
        hex_digits(a, 4),
        hex_digits(b / 0x1_0000_0000_0000, 4),
        hex_digits(b, 12),
    );
    if let Some(id) = machine_id {
        let h = hex_only(id);
        if h.len() >= 32 {
            let keep = |c: char| is_hex(c);
            assert forall|i: int| 0 <= i < h.len() implies is_hex(#[trigger] h[i]) by {
                id.lemma_filter_pred(keep, i);
                assert(keep(h[i]));
            }
            lemma_groups(
                h.subrange(0, 8),
                h.subrange(8, 12),
                h.subrange(12, 16),
                h.subrange(16, 20),
                h.subrange(20, 32),
            );
        }
    }
}

// ---------------------------------------------------------------------------
// Xml

/// How a character stands in xml text.
pub open spec fn escape(c: char) -> Seq<char> {
    if c == '&' {
        "&amp;"@
    } else if c == '<' {
        "&lt;"@
    } else if c == '>' {
        "&gt;"@
    } else if c == '"' {
        "&quot;"@
    } else {
        seq![c]
    }
}

/// A text with its markup characters as entities.
pub open spec fn escaped(s: Seq<char>) -> Seq<char>
    decreases s.len(),
{
    if s.len() == 0 {
        Seq::empty()
    } else {
        escape(s.first()) + escaped(s.drop_first())
    }
}

/// The text with its markup characters as entities.
pub fn xml_escape(text: &str) -> (r: String)
    ensures
        r@ == escaped(text@),
{
    let cs = chars_of(text);
    let mut r = String::new();
    let mut i: usize = 0;
    assert(cs@.skip(0) =~= cs@);
    assert(r@ + escaped(cs@) =~= escaped(cs@));
    while i < cs.len()
        invariant
            i <= cs.len(),
            r@ + escaped(cs@.skip(i as int)) == escaped(cs@),
        decreases cs.len() - i,
    {
        let ghost rest = cs@.skip(i as int);
        let ghost before = r@;
        let c = cs[i];
        if c == '&' {
            r.append("&amp;");
        } else if c == '<' {
            r.append("&lt;");
        } else if c == '>' {
            r.append("&gt;");
        } else if c == '"' {
            r.append("&quot;");
        } else {
            r.push(c);
        }
        i += 1;
        proof {
            assert(r@ =~= before + escape(c));
            assert(rest.drop_first() =~= cs@.skip(i as int));
            assert(r@ + escaped(rest.drop_first()) =~= before + escaped(rest));
        }
    }
    assert(r@ + escaped(cs@.skip(i as int)) =~= r@);
    r
}

/// What a reader of xml makes of a text: each of the entities is the character it stands for.
pub open spec fn unescaped(s: Seq<char>) -> Seq<char>
    decreases s.len(),
{
    if s.len() == 0 {
        s
    } else if s.len() >= 5 && s.take(5) == seq!['&', 'a', 'm', 'p', ';'] {
        seq!['&'] + unescaped(s.skip(5))
    } else if s.len() >= 4 && s.take(4) == seq!['&', 'l', 't', ';'] {
        seq!['<'] + unescaped(s.skip(4))
    } else if s.len() >= 4 && s.take(4) == seq!['&', 'g', 't', ';'] {
        seq!['>'] + unescaped(s.skip(4))
    } else if s.len() >= 6 && s.take(6) == seq!['&', 'q', 'u', 'o', 't', ';'] {
        seq!['"'] + unescaped(s.skip(6))
    } else {
        seq![s.first()] + unescaped(s.skip(1))
    }
}

proof fn lemma_entities()
    ensures
        "&amp;"@ == seq!['&', 'a', 'm', 'p', ';'],
        "&lt;"@ == seq!['&', 'l', 't', ';'],
        "&gt;"@ == seq!['&', 'g', 't', ';'],
        "&quot;"@ == seq!['&', 'q', 'u', 'o', 't', ';'],
{
    reveal_strlit("&amp;");
    reveal_strlit("&lt;");
    reveal_strlit("&gt;");
    reveal_strlit("&quot;");
    assert("&amp;"@ =~= seq!['&', 'a', 'm', 'p', ';']);
    assert("&lt;"@ =~= seq!['&', 'l', 't', ';']);
    assert("&gt;"@ =~= seq!['&', 'g', 't', ';']);
    assert("&quot;"@ =~= seq!['&', 'q', 'u', 'o', 't', ';']);
}

/// Reading an escaped text gives the text back.
pub proof fn law_escape_is_reversible(s: Seq<char>)
    ensures
        unescaped(escaped(s)) == s,
    decreases s.len(),
{
    if s.len() > 0 {
        let c = s.first();
        let rest = escaped(s.drop_first());
        let e = escaped(s);
        lemma_entities();
        law_escape_is_reversible(s.drop_first());
        assert(s =~= seq![c] + s.drop_first());
        let n = escape(c).len() as int;
        assert(e.take(n) =~= escape(c));
        assert(e.skip(n) =~= rest);
        if c == '<' || c == '>' || c == '"' {
            if e.len() >= 5 {
                assert(e.take(5)[1] == e[1]);
            }
            if e.len() >= 4 {
                assert(e.take(4)[1] == e[1]);
            }
        } else if c != '&' {
            assert(e[0] == c);
            if e.len() >= 5 {
                assert(e.take(5)[0] == c);
            }
            if e.len() >= 4 {
                assert(e.take(4)[0] == c);
            }
            if e.len() >= 6 {
                assert(e.take(6)[0] == c);
            }
        }
    }
}

/// An escaped text opens and closes no tag and ends no attribute.
pub proof fn law_escape_leaves_no_markup(s: Seq<char>)
    ensures
        !escaped(s).contains('<'),
        !escaped(s).contains('>'),
        !escaped(s).contains('"'),
    decreases s.len(),
{
    if s.len() > 0 {
        lemma_entities();
        law_escape_leaves_no_markup(s.drop_first());
        let head = escape(s.first());
        let rest = escaped(s.drop_first());
        assert forall|i: int| 0 <= i < escaped(s).len() implies {
            let c = #[trigger] escaped(s)[i];
            c != '<' && c != '>' && c != '"'
        } by {
            if i < head.len() {
                assert(escaped(s)[i] == head[i]);
            } else {
                assert(escaped(s)[i] == rest[i - head.len()]);
                assert(rest.contains(rest[i - head.len()]));
            }
        }
    }
}

// ---------------------------------------------------------------------------
// Descriptions

pub const DEVICE_HEAD: &'static str = r#"<?xml version="1.0" encoding="utf-8"?>
<root xmlns="urn:schemas-upnp-org:device-1-0">
<specVersion><major>1</major><minor>0</minor></specVersion>
<device>
<deviceType>urn:schemas-upnp-org:device:MediaServer:1</deviceType>
<friendlyName>"#;

pub const DEVICE_MODEL: &'static str = r#"</friendlyName>
<manufacturer>opsboost</manufacturer>
<modelName>scream</modelName>
<UDN>uuid:"#;

pub const DEVICE_SERVICES: &'static str = r#"</UDN>
<serviceList>
<service>
<serviceType>urn:schemas-upnp-org:service:ContentDirectory:1</serviceType>
<serviceId>urn:upnp-org:serviceId:ContentDirectory</serviceId>
<SCPDURL>/dlna/cds.xml</SCPDURL>
<controlURL>/dlna/cds/control</controlURL>
<eventSubURL>/dlna/cds/event</eventSubURL>
</service>
<service>
<serviceType>urn:schemas-upnp-org:service:ConnectionManager:1</serviceType>
<serviceId>urn:upnp-org:serviceId:ConnectionManager</serviceId>
<SCPDURL>/dlna/cms.xml</SCPDURL>
<controlURL>/dlna/cms/control</controlURL>
<eventSubURL>/dlna/cms/event</eventSubURL>
</service>
</serviceList>
</device>
</root>"#;

/// The service descriptions name the actions a client may call. Kept to what is actually answered,
/// a client that wants more gets a SOAP fault.
pub const CDS_SCPD: &'static str = r#"<?xml version="1.0" encoding="utf-8"?>
<scpd xmlns="urn:schemas-upnp-org:service-1-0">
<specVersion><major>1</major><minor>0</minor></specVersion>
<actionList>
<action><name>Browse</name></action>
<action><name>GetSystemUpdateID</name></action>
<action><name>GetSortCapabilities</name></action>
<action><name>GetSearchCapabilities</name></action>
</actionList>
<serviceStateTable/>
</scpd>"#;

pub const CMS_SCPD: &'static str = r#"<?xml version="1.0" encoding="utf-8"?>
<scpd xmlns="urn:schemas-upnp-org:service-1-0">
<specVersion><major>1</major><minor>0</minor></specVersion>
<actionList>
<action><name>GetProtocolInfo</name></action>
</actionList>
<serviceStateTable/>
</scpd>"#;

pub const SOAP_FAULT: &'static str = r#"<?xml version="1.0" encoding="utf-8"?>
<s:Envelope xmlns:s="http://schemas.xmlsoap.org/soap/envelope/" s:encodingStyle="http://schemas.xmlsoap.org/soap/encoding/">
<s:Body><s:Fault><faultcode>s:Client</faultcode><faultstring>UPnPError</faultstring>
<detail><UPnPError xmlns="urn:schemas-upnp-org:control-1-0"><errorCode>401</errorCode><errorDescription>Invalid Action</errorDescription></UPnPError></detail>
</s:Fault></s:Body></s:Envelope>"#;

pub const ENVELOPE_HEAD: &'static str = r#"<?xml version="1.0" encoding="utf-8"?>
<s:Envelope xmlns:s="http://schemas.xmlsoap.org/soap/envelope/" s:encodingStyle="http://schemas.xmlsoap.org/soap/encoding/">
<s:Body><u:"#;

pub const ENVELOPE_TAIL: &'static str = r#"Response></s:Body>
</s:Envelope>"#;

pub const DIDL_ROOT: &'static str = r#"<DIDL-Lite xmlns="urn:schemas-upnp-org:metadata-1-0/DIDL-Lite/" xmlns:dc="http://purl.org/dc/elements/1.1/" xmlns:upnp="urn:schemas-upnp-org:metadata-1-0/upnp/">
<container id="0" parentID="-1" restricted="1" childCount="1">
<dc:title>ISS Display</dc:title>
<upnp:class>object.container.storageFolder</upnp:class>
</container>
</DIDL-Lite>"#;

pub const ITEM_HEAD: &'static str = r#"<DIDL-Lite xmlns="urn:schemas-upnp-org:metadata-1-0/DIDL-Lite/" xmlns:dc="http://purl.org/dc/elements/1.1/" xmlns:upnp="urn:schemas-upnp-org:metadata-1-0/upnp/">
<item id="1" parentID="0" restricted="1">
<dc:title>"#;

pub const ITEM_RESOURCE: &'static str = r#"</dc:title>
<upnp:class>object.item.videoItem</upnp:class>
<res protocolInfo=""#;

pub const ITEM_TAIL: &'static str = r#"</res>
</item>
</DIDL-Lite>"#;

pub const CONTENT_DIRECTORY: &'static str = "urn:schemas-upnp-org:service:ContentDirectory:1";

pub const CONNECTION_MANAGER: &'static str = "urn:schemas-upnp-org:service:ConnectionManager:1";

/// The device description.
pub open spec fn description(name: Seq<char>, uuid: Seq<char>) -> Seq<char> {
    DEVICE_HEAD@ + escaped(name) + DEVICE_MODEL@ + uuid + DEVICE_SERVICES@
}

/// The device description of the server with this name and identity.
pub fn device_description(name: &str, uuid: &str) -> (r: String)
    ensures
        r@ == description(name@, uuid@),
{
    let mut r = DEVICE_HEAD.to_owned();
    r.append(xml_escape(name).as_str());
    r.append(DEVICE_MODEL);
    r.append(uuid);
    r.append(DEVICE_SERVICES);
    r
}

/// The answer to an action of a service, with the arguments that it gives back.
pub open spec fn envelope(
    action: Seq<char>,
    service: Seq<char>,
    arguments: Seq<char>,
) -> Seq<char> {
    ENVELOPE_HEAD@ + action + "Response xmlns:u=\""@ + service + "\">"@ + arguments + "</u:"@
        + action + ENVELOPE_TAIL@
}

/// The answer to an action of a service.
pub fn soap_envelope(action: &str, service: &str, arguments: &str) -> (r: String)
    ensures
        r@ == envelope(action@, service@, arguments@),
{
    let mut r = ENVELOPE_HEAD.to_owned();
    r.append(action);
    r.append("Response xmlns:u=\"");
    r.append(service);
    r.append("\">");
    r.append(arguments);
    r.append("</u:");
    r.append(action);
    r.append(ENVELOPE_TAIL);
    r
}

/// The one folder of the directory.
pub fn didl_root_container() -> (r: String)
    ensures
        r@ == DIDL_ROOT@,
{
    DIDL_ROOT.to_owned()
}

/// The one live item, which points at the matroska stream.
pub open spec fn stream_item(name: Seq<char>, base_url: Seq<char>) -> Seq<char> {
    ITEM_HEAD@ + escaped(name) + ITEM_RESOURCE@ + PROTOCOL_INFO@ + "\">"@ + base_url + STREAM_PATH@
        + ITEM_TAIL@
}

/// The one live item of the directory.
pub fn didl_stream_item(name: &str, base_url: &str) -> (r: String)
    ensures
        r@ == stream_item(name@, base_url@),
{
    let mut r = ITEM_HEAD.to_owned();
    r.append(xml_escape(name).as_str());
    r.append(ITEM_RESOURCE);
    r.append(PROTOCOL_INFO);
    r.append("\">");
    r.append(base_url);
    r.append(STREAM_PATH);
    r.append(ITEM_TAIL);
    r
}

// ---------------------------------------------------------------------------
// Control

/// What stands between the first opening tag of this name and the next closing one, without the
/// white space around it.
pub open spec fn element(body: Seq<char>, name: Seq<char>) -> Option<Seq<char>> {
    let open_tag = "<"@ + name + ">"@;
    let close_tag = "</"@ + name + ">"@;
    match find_from(body, open_tag, 0) {
        Some(at) => {
            let start = at + open_tag.len();
            match find_from(body, close_tag, start) {
                Some(end) => Some(trim(body.subrange(start, end))),
                None => None,
            }
        },
        None => None,
    }
}

/// The argument of this name in a SOAP body.
pub fn body_argument(body: &str, name: &str) -> (r: Option<String>)
    ensures
        match r {
            Some(v) => element(body@, name@) == Some(v@),
            None => element(body@, name@) is None,
        },
{
    let mut open_tag = "<".to_owned();
    open_tag.append(name);
    open_tag.append(">");
    let mut close_tag = "</".to_owned();
    close_tag.append(name);
    close_tag.append(">");
    let cs = chars_of(body);
    let opening = chars_of(open_tag.as_str());
    let closing = chars_of(close_tag.as_str());
    match find(cs.as_slice(), opening.as_slice(), 0) {
        Some(at) => {
            let start = at + opening.len();
            match find(cs.as_slice(), closing.as_slice(), start) {
                Some(end) => Some(trimmed(body.substring_char(start, end)).to_owned()),
                None => None,
            }
        },
        None => None,
    }
}

/// Whether the body asks for the metadata of the root.
pub open spec fn asks_for_root(body: Seq<char>) -> bool {
    element(body, "BrowseFlag"@) == Some("BrowseMetadata"@) && element(body, "ObjectID"@) == Some(
        "0"@,
    )
}

/// The answer to Browse: the root folder where its metadata is asked for, the stream otherwise.
pub open spec fn browsed(body: Seq<char>, name: Seq<char>, base_url: Seq<char>) -> Seq<char> {
    let didl = if asks_for_root(body) {
        DIDL_ROOT@
    } else {
        stream_item(name, base_url)
    };
    envelope(
        "Browse"@,
        CONTENT_DIRECTORY@,
        "<Result>"@ + escaped(didl)
            + "</Result><NumberReturned>1</NumberReturned><TotalMatches>1</TotalMatches><UpdateID>1</UpdateID>"@,
    )
}

/// Whether an optional argument is the given text.
fn is_text(argument: &Option<String>, text: &str) -> (r: bool)
    ensures
        r == (text_of(*argument) == Some(text@)),
{
    match argument {
        Some(argument) => same(argument.as_str(), text),
        None => false,
    }
}

/// The answer to Browse.
pub fn browse_response(body: &str, name: &str, base_url: &str) -> (r: String)
    ensures
        r@ == browsed(body@, name@, base_url@),
{
    let flag = body_argument(body, "BrowseFlag");
    let object = body_argument(body, "ObjectID");
    let didl = if is_text(&flag, "BrowseMetadata") && is_text(&object, "0") {
        didl_root_container()
    } else {
        didl_stream_item(name, base_url)
    };
    let mut arguments = "<Result>".to_owned();
    arguments.append(xml_escape(didl.as_str()).as_str());
    arguments.append(
        "</Result><NumberReturned>1</NumberReturned><TotalMatches>1</TotalMatches><UpdateID>1</UpdateID>",
    );
    soap_envelope("Browse", CONTENT_DIRECTORY, arguments.as_str())
}

/// The answer to an action, `None` for one that is not offered at this path.
pub open spec fn controlled(
    path: Seq<char>,
    action: Seq<char>,
    body: Seq<char>,
    name: Seq<char>,
    base_url: Seq<char>,
) -> Option<Seq<char>> {
    if path == "/dlna/cds/control"@ {
        if action == "Browse"@ {
            Some(browsed(body, name, base_url))
        } else if action == "GetSystemUpdateID"@ {
            Some(envelope("GetSystemUpdateID"@, CONTENT_DIRECTORY@, "<Id>1</Id>"@))
        } else if action == "GetSortCapabilities"@ {
            Some(envelope("GetSortCapabilities"@, CONTENT_DIRECTORY@, "<SortCaps></SortCaps>"@))
        } else if action == "GetSearchCapabilities"@ {
            Some(
                envelope("GetSearchCapabilities"@, CONTENT_DIRECTORY@, "<SearchCaps></SearchCaps>"@),
            )
        } else {
            None
        }
    } else if path == "/dlna/cms/control"@ && action == "GetProtocolInfo"@ {
        Some(
            envelope(
                "GetProtocolInfo"@,
                CONNECTION_MANAGER@,
                "<Source>"@ + escaped(PROTOCOL_INFO@) + "</Source><Sink></Sink>"@,
            ),
        )
    } else {
        None
    }
}

/// The answer to an action of one of the two services.
pub fn control_response(path: &str, action: &str, body: &str, name: &str, base_url: &str) -> (r:
    Option<String>)
    ensures
        match r {
            Some(xml) => controlled(path@, action@, body@, name@, base_url@) == Some(xml@),
            None => controlled(path@, action@, body@, name@, base_url@) is None,
        },
{
    if same(path, "/dlna/cds/control") {
        return if same(action, "Browse") {
            Some(browse_response(body, name, base_url))
        } else if same(action, "GetSystemUpdateID") {
            Some(soap_envelope("GetSystemUpdateID", CONTENT_DIRECTORY, "<Id>1</Id>"))
        } else if same(action, "GetSortCapabilities") {
            Some(soap_envelope("GetSortCapabilities", CONTENT_DIRECTORY, "<SortCaps></SortCaps>"))
        } else if same(action, "GetSearchCapabilities") {
            Some(
                soap_envelope(
                    "GetSearchCapabilities",
                    CONTENT_DIRECTORY,
                    "<SearchCaps></SearchCaps>",
                ),
            )
        } else {
            None
        };
    }
    if same(path, "/dlna/cms/control") && same(action, "GetProtocolInfo") {
        let mut arguments = "<Source>".to_owned();
        arguments.append(xml_escape(PROTOCOL_INFO).as_str());
        arguments.append("</Source><Sink></Sink>");
        return Some(
            soap_envelope("GetProtocolInfo", CONNECTION_MANAGER, arguments.as_str()),
        );
    }
    None
}

/// The action that the headers name: `soapaction` holds `"service#Action"`.
pub open spec fn action_named(headers: HeaderSeq) -> Option<Seq<char>> {
    match header_named(headers, "soapaction"@) {
        Some(value) => Some(after_last(strip_end(strip_start(value, '"'), '"'), '#')),
        None => None,
    }
}

/// The action name arrives in the SOAPACTION header as "service#Action".
pub fn soap_action(headers: &[(String, String)]) -> (r: Option<String>)
    ensures
        match r {
            Some(action) => action_named(headers_text(headers@)) == Some(action@),
            None => action_named(headers_text(headers@)) is None,
        },
{
    match find_header(headers, "soapaction") {
        Some(value) => {
            let bare = stripped_end(stripped_start(value, '"'), '"');
            Some(split_after_last(bare, '#').to_owned())
        },
        None => None,
    }
}

/// Which of the actions each service answers: those that its description names, and no other.
pub proof fn law_control_answers_what_is_described(
    path: Seq<char>,
    action: Seq<char>,
    body: Seq<char>,
    name: Seq<char>,
    base_url: Seq<char>,
)
    ensures
        controlled(path, action, body, name, base_url) is Some <==> {
            ||| path == "/dlna/cds/control"@ && (action == "Browse"@ || action
                == "GetSystemUpdateID"@ || action == "GetSortCapabilities"@ || action
                == "GetSearchCapabilities"@)
            ||| path == "/dlna/cms/control"@ && action == "GetProtocolInfo"@
        },
{
    reveal_strlit("/dlna/cds/control");
    reveal_strlit("/dlna/cms/control");
    assert("/dlna/cds/control"@[6] != "/dlna/cms/control"@[6] || "/dlna/cds/control"@[7]
        != "/dlna/cms/control"@[7]);
}

// ---------------------------------------------------------------------------
// Requests

/// What `String::from_utf8_lossy` makes of bytes that are not all text.
pub uninterp spec fn lossy(bytes: Seq<u8>) -> Seq<char>;

/// `String::from_utf8_lossy` is a function of the bytes, and decodes those that are valid UTF-8.
/// Where it puts replacement characters for others is left unsaid.
#[verifier::external_body]
fn decode_lossy(bytes: &[u8]) -> (r: String)
    ensures
        r@ == lossy(bytes@),
        valid_utf8(bytes@) ==> r@ == decode_utf8(bytes@),
{
    String::from_utf8_lossy(bytes).into_owned()
}

/// The text of a body: what its bytes encode, with replacements where they encode nothing.
pub open spec fn body_text(bytes: Seq<u8>) -> Seq<char> {
    if valid_utf8(bytes) {
        decode_utf8(bytes)
    } else {
        lossy(bytes)
    }
}

/// A response with a body, whose length is that of its bytes.
pub open spec fn response(status: Seq<char>, content_type: Seq<char>, body: Seq<char>) -> Seq<
    char,
> {
    "HTTP/1.1 "@ + status + "\r\nContent-Type: "@ + content_type + "\r\nServer: "@ + SERVER_ID@
        + "\r\nConnection: close\r\nContent-Length: "@ + decimal(encode_utf8(body).len())
        + "\r\n\r\n"@ + body
}

/// A response with a body.
pub fn write_response(status: &str, content_type: &str, body: &str) -> (r: String)
    ensures
        r@ == response(status@, content_type@, body@),
{
    let mut r = "HTTP/1.1 ".to_owned();
    r.append(status);
    r.append("\r\nContent-Type: ");
    r.append(content_type);
    r.append("\r\nServer: ");
    r.append(SERVER_ID);
    r.append("\r\nConnection: close\r\nContent-Length: ");
    let length = body.as_bytes().len();
    r.append(to_decimal(length as u64).as_str());
    r.append("\r\n\r\n");
    r.append(body);
    r
}

/// The base url to write into responses: the advertised one, else the address that the connection
/// came in on.
pub fn response_base_url(advertised: Option<&str>, local_addr: &str) -> (r: String)
    ensures
        r@ == match advertised {
            Some(url) => url@,
            None => "http://"@ + local_addr@,
        },
{
    match advertised {
        Some(url) => url.to_owned(),
        None => {
            let mut r = "http://".to_owned();
            r.append(local_addr);
            r
        },
    }
}

/// What a control request is answered, its body given as text.
pub open spec fn control_reply(
    path: Seq<char>,
    headers: HeaderSeq,
    body: Seq<char>,
    name: Seq<char>,
    base_url: Seq<char>,
) -> Seq<char> {
    let xml = match action_named(headers) {
        Some(action) => controlled(path, action, body, name, base_url),
        None => None,
    };
    match xml {
        Some(xml) => response("200 OK"@, "text/xml; charset=utf-8"@, xml),
        None => response(
            "500 Internal Server Error"@,
            "text/xml; charset=utf-8"@,
            SOAP_FAULT@,
        ),
    }
}

/// Answers a control request, its body given as text. An action that is not offered is answered
/// with a SOAP fault.
pub fn answer_control(
    path: &str,
    headers: &[(String, String)],
    body: &str,
    name: &str,
    base_url: &str,
) -> (r: String)
    ensures
        r@ == control_reply(path@, headers_text(headers@), body@, name@, base_url@),
{
    let xml = match soap_action(headers) {
        Some(action) => control_response(path, action.as_str(), body, name, base_url),
        None => None,
    };
    match xml {
        Some(xml) => write_response("200 OK", "text/xml; charset=utf-8", xml.as_str()),
        None => write_response(
            "500 Internal Server Error",
            "text/xml; charset=utf-8",
            SOAP_FAULT,
        ),
    }
}

/// A control request for an action that the service does not offer, or that names none, is answered
/// with a SOAP fault.
pub proof fn law_refused_action_is_a_fault(
    path: Seq<char>,
    headers: HeaderSeq,
    body: Seq<char>,
    name: Seq<char>,
    base_url: Seq<char>,
)
    requires
        action_named(headers) matches Some(action) ==> controlled(
            path,
            action,
            body,
            name,
            base_url,
        ) is None,
    ensures
        control_reply(path, headers, body, name, base_url) == response(
            "500 Internal Server Error"@,
            "text/xml; charset=utf-8"@,
            SOAP_FAULT@,
        ),
{
}

/// What a request is answered, `None` where its path is not under /dlna/. Eventing is accepted and
/// never delivers: the directory has one item that never changes, so there is nothing to event
/// about.
pub open spec fn reply(
    method: Seq<char>,
    path: Seq<char>,
    headers: HeaderSeq,
    body: Seq<u8>,
    name: Seq<char>,
    uuid: Seq<char>,
    base_url: Seq<char>,
) -> Option<Seq<char>> {
    if !"/dlna/"@.is_prefix_of(path) {
        None
    } else if method == "GET"@ && path == "/dlna/device.xml"@ {
        Some(response("200 OK"@, "text/xml; charset=utf-8"@, description(name, uuid)))
    } else if method == "GET"@ && path == "/dlna/cds.xml"@ {
        Some(response("200 OK"@, "text/xml; charset=utf-8"@, CDS_SCPD@))
    } else if method == "GET"@ && path == "/dlna/cms.xml"@ {
        Some(response("200 OK"@, "text/xml; charset=utf-8"@, CMS_SCPD@))
    } else if method == "POST"@ && (path == "/dlna/cds/control"@ || path
        == "/dlna/cms/control"@) {
        Some(control_reply(path, headers, body_text(body), name, base_url))
    } else if method == "SUBSCRIBE"@ {
        Some(
            "HTTP/1.1 200 OK\r\nSID: uuid:"@ + uuid + "\r\nTIMEOUT: Second-"@ + decimal(
                CACHE_MAX_AGE as nat,
            ) + "\r\nContent-Length: 0\r\n\r\n"@,
        )
    } else if method == "UNSUBSCRIBE"@ {
        Some("HTTP/1.1 200 OK\r\nContent-Length: 0\r\n\r\n"@)
    } else {
        Some("HTTP/1.1 404 Not Found\r\nContent-Length: 0\r\n\r\n"@)
    }
}

/// Answers a /dlna request on the shared http socket. `None` for a path that is not ours, so that
/// the routing can move on.
pub fn handle_request(
    method: &str,
    path: &str,
    headers: &[(String, String)],
    body: &[u8],
    name: &str,
    uuid: &str,
    base_url: &str,
) -> (r: Option<String>)
    ensures
        match r {
            Some(text) => reply(
                method@,
                path@,
                headers_text(headers@),
                body@,
                name@,
                uuid@,
                base_url@,
            ) == Some(text@),
            None => !"/dlna/"@.is_prefix_of(path@),
        },
{
    if !starts_with(path, "/dlna/") {
        return None;
    }
    let xml = "text/xml; charset=utf-8";
    if same(method, "GET") && same(path, "/dlna/device.xml") {
        return Some(write_response("200 OK", xml, device_description(name, uuid).as_str()));
    }
    if same(method, "GET") && same(path, "/dlna/cds.xml") {
        return Some(write_response("200 OK", xml, CDS_SCPD));
    }
    if same(method, "GET") && same(path, "/dlna/cms.xml") {
        return Some(write_response("200 OK", xml, CMS_SCPD));
    }
    if same(method, "POST") && (same(path, "/dlna/cds/control") || same(
        path,
        "/dlna/cms/control",
    )) {
        let text = decode_lossy(body);
        return Some(answer_control(path, headers, text.as_str(), name, base_url));
    }
    if same(method, "SUBSCRIBE") {
        let mut r = "HTTP/1.1 200 OK\r\nSID: uuid:".to_owned();
        r.append(uuid);
        r.append("\r\nTIMEOUT: Second-");
        r.append(to_decimal(CACHE_MAX_AGE as u64).as_str());
        r.append("\r\nContent-Length: 0\r\n\r\n");
        return Some(r);
    }
    if same(method, "UNSUBSCRIBE") {
        return Some("HTTP/1.1 200 OK\r\nContent-Length: 0\r\n\r\n".to_owned());
    }
    Some("HTTP/1.1 404 Not Found\r\nContent-Length: 0\r\n\r\n".to_owned())
}

// ---------------------------------------------------------------------------
// Laws

/// The advertised url is kept without the slashes at its end, and as it is without any there.
pub proof fn law_url_without_slashes(url: Seq<char>, slashes: Seq<char>)
    requires
        url.len() > 0 && url.last() != '/' && url.first() != '/',
        forall|i: int| 0 <= i < slashes.len() ==> #[trigger] slashes[i] == '/',
    ensures
        url_set(None, Some(url + slashes)) == Some(Some(url)),
        url_set(None, None) == Some(None::<Seq<char>>),
{
    law_strip('/', Seq::empty(), url, slashes);
}

/// The hexadecimal digits are the 22 characters that ASCII has for them.
pub proof fn law_hex_characters(c: char)
    ensures
        is_hex(c) <==> {
            ||| 48 <= c as u32 <= 57
            ||| 65 <= c as u32 <= 70
            ||| 97 <= c as u32 <= 102
        },
{
}

/// The hexadecimal digits of a text are those of its parts, one after the other.
pub proof fn law_hex_only(a: Seq<char>, b: Seq<char>, c: char)
    ensures
        hex_only(a + b) == hex_only(a) + hex_only(b),
        hex_only(Seq::empty()) == Seq::<char>::empty(),
        hex_only(seq![c]) == if is_hex(c) {
            seq![c]
        } else {
            Seq::empty()
        },
{
    let keep = |c: char| is_hex(c);
    Seq::filter_distributes_over_add(a, b, keep);
    reveal_with_fuel(Seq::filter, 2);
    reveal(Seq::filter);
    assert(seq![c].drop_last() =~= Seq::empty());
    assert(hex_only(seq![c]) =~= if is_hex(c) {
        seq![c]
    } else {
        Seq::empty()
    });
}

/// A machine id of 32 digits or more gives the identity: its first 32 digits, in order. The host
/// does not matter then.
pub proof fn law_uuid_of_the_machine(id: Seq<char>, hostname: Option<Seq<char>>)
    requires
        hex_only(id).len() >= 32,
    ensures
        ({
            let h = hex_only(id);
            let r = uuid(Some(id), hostname);
            &&& r.subrange(0, 8) == h.subrange(0, 8)
            &&& r.subrange(9, 13) == h.subrange(8, 12)
            &&& r.subrange(14, 18) == h.subrange(12, 16)
            &&& r.subrange(19, 23) == h.subrange(16, 20)
            &&& r.subrange(24, 36) == h.subrange(20, 32)
        }),
{
    reveal_strlit("-");
    let h = hex_only(id);
    let r = uuid(Some(id), hostname);
    lemma_group_places(
        h.subrange(0, 8),
        h.subrange(8, 12),
        h.subrange(12, 16),
        h.subrange(16, 20),
        h.subrange(20, 32),
    );
}

proof fn lemma_group_places(a: Seq<char>, b: Seq<char>, c: Seq<char>, d: Seq<char>, e: Seq<char>)
    requires
        a.len() == 8,
        b.len() == 4,
        c.len() == 4,
        d.len() == 4,
        e.len() == 12,
    ensures
        ({
            let r = a + "-"@ + b + "-"@ + c + "-"@ + d + "-"@ + e;
            &&& r.subrange(0, 8) == a
            &&& r.subrange(9, 13) == b
            &&& r.subrange(14, 18) == c
            &&& r.subrange(19, 23) == d
            &&& r.subrange(24, 36) == e
        }),
{
    reveal_strlit("-");
    let r = a + "-"@ + b + "-"@ + c + "-"@ + d + "-"@ + e;
    assert(r.subrange(0, 8) =~= a);
    assert(r.subrange(9, 13) =~= b);
    assert(r.subrange(14, 18) =~= c);
    assert(r.subrange(19, 23) =~= d);
    assert(r.subrange(24, 36) =~= e);
}

/// Without a machine id, or with one of fewer digits, the identity is that of the host alone, and a
/// host without a name counts as one named `scream`.
pub proof fn law_uuid_of_the_host(id: Seq<char>, hostname: Option<Seq<char>>)
    requires
        hex_only(id).len() < 32,
    ensures
        uuid(Some(id), hostname) == uuid(None, hostname),
        uuid(None, None) == uuid(None, Some("scream"@)),
{
}

proof fn lemma_hex_digits_split(n: nat, high: nat, low: nat, scale: nat)
    requires
        scale == vstd::arithmetic::power::pow(16, low),
    ensures
        hex_digits(n, high + low) == hex_digits(n / scale, high) + hex_digits(n, low),
    decreases low,
{
    reveal(vstd::arithmetic::power::pow);
    if low == 0 {
        assert(hex_digits(n, high + low) =~= hex_digits(n / scale, high) + hex_digits(n, low));
    } else {
        let less = (low - 1) as nat;
        let part = vstd::arithmetic::power::pow(16, less);
        vstd::arithmetic::power::lemma_pow_positive(16, less);
        lemma_hex_digits_split(n / 16, high, less, part as nat);
        vstd::arithmetic::div_mod::lemma_div_denominator(n as int, 16, part);
        assert(n / scale == (n / 16) / part as nat);
        assert(hex_digits(n, high + low) =~= hex_digits(n / scale, high) + hex_digits(n, low));
    }
}

/// The uuid out of two numbers shows the sixteen digits of the one and then those of the other.
pub proof fn law_uuid_of_two_numbers(a: u64, b: u64)
    ensures
        ({
            let r = uuid_from(a, b);
            &&& r.subrange(0, 8) + r.subrange(9, 13) + r.subrange(14, 18) == hex_digits(
                a as nat,
                16,
            )
            &&& r.subrange(19, 23) + r.subrange(24, 36) == hex_digits(b as nat, 16)
        }),
{
    let m = a as nat;
    let n = b as nat;
    reveal_with_fuel(vstd::arithmetic::power::pow, 17);
    lemma_hex_digits(m / 0x1_0000_0000, 8);
    lemma_hex_digits(m / 0x1_0000, 4);
    lemma_hex_digits(m, 4);
    lemma_hex_digits(n / 0x1_0000_0000_0000, 4);
    lemma_hex_digits(n, 12);
    lemma_group_places(
        hex_digits(m / 0x1_0000_0000, 8),
        hex_digits(m / 0x1_0000, 4),
        hex_digits(m, 4),
        hex_digits(n / 0x1_0000_0000_0000, 4),
        hex_digits(n, 12),
    );
    lemma_hex_digits_split(m, 12, 4, 0x1_0000);
    lemma_hex_digits_split(m / 0x1_0000, 8, 4, 0x1_0000);
    lemma_hex_digits_split(n, 4, 12, 0x1_0000_0000_0000);
    assert((m / 0x1_0000) / 0x1_0000 == m / 0x1_0000_0000);
}

/// Escaping goes character by character: the four markup characters become their entities, every
/// other stays.
pub proof fn law_escape(a: Seq<char>, b: Seq<char>, c: char)
    ensures
        escaped(a + b) == escaped(a) + escaped(b),
        escaped(Seq::empty()) == Seq::<char>::empty(),
        c != '&' && c != '<' && c != '>' && c != '"' ==> escaped(seq![c]) == seq![c],
        escaped(seq!['&']) == seq!['&', 'a', 'm', 'p', ';'],
        escaped(seq!['<']) == seq!['&', 'l', 't', ';'],
        escaped(seq!['>']) == seq!['&', 'g', 't', ';'],
        escaped(seq!['"']) == seq!['&', 'q', 'u', 'o', 't', ';'],
    decreases a.len(),
{
    lemma_entities();
    lemma_escape_one(c);
    lemma_escape_one('&');
    lemma_escape_one('<');
    lemma_escape_one('>');
    lemma_escape_one('"');
    if a.len() == 0 {
        assert(a + b =~= b);
        assert(escaped(a) + escaped(b) =~= escaped(b));
    } else {
        law_escape(a.drop_first(), b, c);
        assert((a + b).drop_first() =~= a.drop_first() + b);
        lemma_join(escape(a.first()), escaped(a.drop_first()), escaped(b));
    }
}

proof fn lemma_escape_one(c: char)
    ensures
        escaped(seq![c]) == escape(c),
{
    assert(seq![c].drop_first() =~= Seq::empty());
    reveal_with_fuel(escaped, 2);
    assert(escape(c) + escaped(seq![c].drop_first()) =~= escape(c));
}

/// What a text holds, the escaped text holds escaped.
proof fn lemma_escaped_holds(s: Seq<char>, part: Seq<char>)
    requires
        holds(s, part),
    ensures
        holds(escaped(s), escaped(part)),
{
    let i = choose|i: int|
        0 <= i && i + part.len() <= s.len() && #[trigger] s.subrange(i, i + part.len()) == part;
    let left = s.take(i);
    let right = s.skip(i + part.len());
    assert(s =~= left + part + right);
    law_escape(left + part, right, 'x');
    law_escape(left, part, 'x');
    law_holds(escaped(left), escaped(part), escaped(right));
}

/// The device description carries the name, escaped, and the identity, with the model between them.
pub proof fn law_description_carries_name_and_identity(name: Seq<char>, uuid: Seq<char>)
    ensures
        holds(description(name, uuid), escaped(name) + DEVICE_MODEL@ + uuid),
        description(name, uuid).len() == description(Seq::empty(), Seq::empty()).len() + escaped(
            name,
        ).len() + uuid.len(),
{
    let n = escaped(name);
    lemma_join(DEVICE_HEAD@, n, DEVICE_MODEL@);
    lemma_join(DEVICE_HEAD@, n + DEVICE_MODEL@, uuid);
    law_holds(DEVICE_HEAD@, n + DEVICE_MODEL@ + uuid, DEVICE_SERVICES@);
}

/// The item of the stream carries the name, escaped, and points at the stream below the base url.
pub proof fn law_item_points_at_the_stream(name: Seq<char>, base_url: Seq<char>)
    ensures
        holds(stream_item(name, base_url), escaped(name)),
        holds(stream_item(name, base_url), "\">"@ + base_url + "/stream.mkv"@),
        holds(stream_item(name, base_url), base_url + "/stream.mkv"@),
{
    let front = ITEM_HEAD@ + escaped(name) + ITEM_RESOURCE@ + PROTOCOL_INFO@;
    let part = "\">"@ + base_url + STREAM_PATH@;
    lemma_join(front, "\">"@, base_url);
    lemma_join(front, "\">"@ + base_url, STREAM_PATH@);
    law_holds(front, part, ITEM_TAIL@);
    let item = stream_item(name, base_url);
    assert(item == front + part + ITEM_TAIL@);
    lemma_join("\">"@, base_url, STREAM_PATH@);
    law_holds("\">"@, base_url + STREAM_PATH@, Seq::empty());
    law_holds_within(front, part, ITEM_TAIL@, base_url + STREAM_PATH@);
    let n = escaped(name);
    law_holds(ITEM_HEAD@, n, Seq::empty());
    law_holds_within(Seq::empty(), ITEM_HEAD@ + n, ITEM_RESOURCE@, n);
    law_holds_within(Seq::empty(), ITEM_HEAD@ + n + ITEM_RESOURCE@, PROTOCOL_INFO@, n);
    law_holds_within(Seq::empty(), front, part, n);
    law_holds_within(Seq::empty(), front + part, ITEM_TAIL@, n);
}

/// The answer to an action names the action and the service and carries the arguments.
pub proof fn law_envelope(action: Seq<char>, service: Seq<char>, arguments: Seq<char>)
    ensures
        holds(
            envelope(action, service, arguments),
            action + "Response xmlns:u=\""@ + service + "\">"@ + arguments + "</u:"@ + action,
        ),
        holds(envelope(action, service, arguments), arguments),
{
    let second = "Response xmlns:u=\""@;
    let fourth = "\">"@;
    let sixth = "</u:"@;
    let head = ENVELOPE_HEAD@;
    lemma_join(head, action, second);
    lemma_join(head, action + second, service);
    lemma_join(head, action + second + service, fourth);
    lemma_join(head, action + second + service + fourth, arguments);
    lemma_join(head, action + second + service + fourth + arguments, sixth);
    lemma_join(head, action + second + service + fourth + arguments + sixth, action);
    let part = action + second + service + fourth + arguments + sixth + action;
    law_holds(head, part, ENVELOPE_TAIL@);
    assert(envelope(action, service, arguments) == head + part + ENVELOPE_TAIL@);
    let front = action + second + service + fourth;
    law_holds(front, arguments, sixth);
    law_holds_within(Seq::empty(), front + arguments + sixth, action, arguments);
    law_holds_within(head, part, ENVELOPE_TAIL@, arguments);
}

/// An opening tag of this name starts at index `i`.
pub open spec fn opens_at(body: Seq<char>, name: Seq<char>, i: int) -> bool {
    0 <= i && i + name.len() + 2 <= body.len() && body.subrange(i, i + name.len() + 2) == seq!['<']
        + name + seq!['>']
}

/// A closing tag of this name starts at index `i`.
pub open spec fn closes_at(body: Seq<char>, name: Seq<char>, i: int) -> bool {
    0 <= i && i + name.len() + 3 <= body.len() && body.subrange(i, i + name.len() + 3) == seq![
        '<',
        '/',
    ] + name + seq!['>']
}

proof fn lemma_tags(name: Seq<char>)
    ensures
        "<"@ + name + ">"@ == seq!['<'] + name + seq!['>'],
        "</"@ + name + ">"@ == seq!['<', '/'] + name + seq!['>'],
        ("<"@ + name + ">"@).len() == name.len() + 2,
        ("</"@ + name + ">"@).len() == name.len() + 3,
{
    reveal_strlit("<");
    reveal_strlit("</");
    reveal_strlit(">");
    assert("<"@ =~= seq!['<']);
    assert("</"@ =~= seq!['<', '/']);
    assert(">"@ =~= seq!['>']);
}

/// An argument is what stands behind the first opening tag of its name, up to the first closing tag
/// from there on, without the white space around it. It is missing only if there is no opening tag,
/// or no closing tag behind the first one.
pub proof fn law_argument_between_its_tags(body: Seq<char>, name: Seq<char>)
    ensures
        match element(body, name) {
            Some(v) => exists|i: int, j: int|
                {
                    &&& #[trigger] opens_at(body, name, i)
                    &&& forall|k: int| 0 <= k < i ==> !#[trigger] opens_at(body, name, k)
                    &&& i + name.len() + 2 <= j
                    &&& #[trigger] closes_at(body, name, j)
                    &&& forall|k: int|
                        i + name.len() + 2 <= k < j ==> !#[trigger] closes_at(body, name, k)
                    &&& v == trim(body.subrange(i + name.len() + 2, j))
                },
            None => {
                ||| forall|i: int| !#[trigger] opens_at(body, name, i)
                ||| exists|i: int|
                    {
                        &&& #[trigger] opens_at(body, name, i)
                        &&& forall|k: int| 0 <= k < i ==> !#[trigger] opens_at(body, name, k)
                        &&& forall|k: int|
                            i + name.len() + 2 <= k ==> !#[trigger] closes_at(body, name, k)
                    }
            },
        },
{
    let open_tag = "<"@ + name + ">"@;
    let close_tag = "</"@ + name + ">"@;
    lemma_tags(name);
    law_find(body, open_tag, 0);
    match find_from(body, open_tag, 0) {
        Some(i) => {
            let start = i + open_tag.len();
            assert(opens_at(body, name, i));
            assert forall|k: int| 0 <= k < i implies !#[trigger] opens_at(body, name, k) by {
                assert(body.subrange(k, k + open_tag.len()) != open_tag);
            }
            law_find(body, close_tag, start);
            match find_from(body, close_tag, start) {
                Some(j) => {
                    assert(closes_at(body, name, j));
                    assert forall|k: int| start <= k < j implies !#[trigger] closes_at(
                        body,
                        name,
                        k,
                    ) by {
                        assert(body.subrange(k, k + close_tag.len()) != close_tag);
                    }
                },
                None => {
                    assert forall|k: int| start <= k implies !#[trigger] closes_at(
                        body,
                        name,
                        k,
                    ) by {
                        if k + close_tag.len() <= body.len() {
                            assert(body.subrange(k, k + close_tag.len()) != close_tag);
                        }
                    }
                },
            }
        },
        None => {
            assert forall|k: int| !#[trigger] opens_at(body, name, k) by {
                if 0 <= k && k + open_tag.len() <= body.len() {
                    assert(body.subrange(k, k + open_tag.len()) != open_tag);
                }
            }
        },
    }
}

/// An argument that is written into a body is read out of it.
pub proof fn law_argument_round_trip(
    front: Seq<char>,
    name: Seq<char>,
    value: Seq<char>,
    rest: Seq<char>,
)
    requires
        !value.contains('<'),
        ({
            let body = front + (seq!['<'] + name + seq!['>']) + value + (seq!['<', '/'] + name
                + seq!['>']) + rest;
            forall|k: int| 0 <= k < front.len() ==> !#[trigger] opens_at(body, name, k)
        }),
    ensures
        ({
            let body = front + (seq!['<'] + name + seq!['>']) + value + (seq!['<', '/'] + name
                + seq!['>']) + rest;
            element(body, name) == Some(trim(value))
        }),
{
    let open_tag = seq!['<'] + name + seq!['>'];
    let close_tag = seq!['<', '/'] + name + seq!['>'];
    let body = front + open_tag + value + close_tag + rest;
    let f = front.len() as int;
    let start = f + open_tag.len();
    let end = start + value.len();
    assert(body.subrange(f, f + name.len() + 2) =~= open_tag);
    assert(opens_at(body, name, f));
    assert(body.subrange(end, end + name.len() + 3) =~= close_tag);
    assert(closes_at(body, name, end));
    assert(body.subrange(start, end) =~= value);
    assert forall|k: int| start <= k < end implies !#[trigger] closes_at(body, name, k) by {
        if closes_at(body, name, k) {
            assert(body.subrange(k, k + name.len() + 3)[0] == body[k]);
            assert(body[k] == value[k - start]);
            assert(value.contains(value[k - start]));
        }
    }
    law_argument_between_its_tags(body, name);
    if element(body, name) is Some {
        let v = element(body, name)->0;
        let (i, j) = choose|i: int, j: int|
            {
                &&& #[trigger] opens_at(body, name, i)
                &&& forall|k: int| 0 <= k < i ==> !#[trigger] opens_at(body, name, k)
                &&& i + name.len() + 2 <= j
                &&& #[trigger] closes_at(body, name, j)
                &&& forall|k: int|
                    i + name.len() + 2 <= k < j ==> !#[trigger] closes_at(body, name, k)
                &&& v == trim(body.subrange(i + name.len() + 2, j))
            };
        assert(i == f);
        assert(j == end);
    }
}

/// A body with the two arguments of Browse that matter, the object first.
pub open spec fn browse_body(object: Seq<char>, flag: Seq<char>) -> Seq<char> {
    "<ObjectID>"@ + object + "</ObjectID><BrowseFlag>"@ + flag + "</BrowseFlag>"@
}

/// A body with the two arguments of Browse that matter, the flag first.
pub open spec fn browse_body_flag_first(object: Seq<char>, flag: Seq<char>) -> Seq<char> {
    "<BrowseFlag>"@ + flag + "</BrowseFlag><ObjectID>"@ + object + "</ObjectID>"@
}

proof fn lemma_two_arguments(
    first: Seq<char>,
    a: Seq<char>,
    second: Seq<char>,
    b: Seq<char>,
    body: Seq<char>,
)
    requires
        !a.contains('<'),
        !b.contains('<'),
        first.len() > 0,
        second.len() > 0,
        first[0] != second[0],
        second[0] != '/',
        second[0] != '<',
        !first.contains('<'),
        body == (seq!['<'] + first + seq!['>']) + a + (seq!['<', '/'] + first + seq!['>']) + (seq![
            '<',
        ] + second + seq!['>']) + b + (seq!['<', '/'] + second + seq!['>']),
    ensures
        element(body, first) == Some(trim(a)),
        element(body, second) == Some(trim(b)),
{
    let open_first = seq!['<'] + first + seq!['>'];
    let close_first = seq!['<', '/'] + first + seq!['>'];
    let open_second = seq!['<'] + second + seq!['>'];
    let close_second = seq!['<', '/'] + second + seq!['>'];
    let rest = open_second + b + close_second;
    assert(body =~= Seq::empty() + open_first + a + close_first + rest);
    law_argument_round_trip(Seq::empty(), first, a, rest);
    let front = open_first + a + close_first;
    assert(body =~= front + open_second + b + close_second + Seq::<char>::empty());
    assert forall|k: int| 0 <= k < front.len() implies !#[trigger] opens_at(body, second, k) by {
        if opens_at(body, second, k) {
            let tag = body.subrange(k, k + second.len() + 2);
            assert(tag[0] == body[k]);
            assert(tag[1] == body[k + 1]);
            assert(tag[1] == second[0]);
            assert(body[k] == '<');
            if k == 0 {
                assert(body[1] == first[0]);
            } else if k < open_first.len() {
                if k == open_first.len() - 1 {
                    assert(body[k] == '>');
                } else {
                    assert(body[k] == first[k - 1]);
                    assert(first.contains(first[k - 1]));
                }
            } else if k < open_first.len() + a.len() {
                assert(body[k] == a[k - open_first.len()]);
                assert(a.contains(a[k - open_first.len()]));
            } else {
                let j = k - open_first.len() - a.len();
                assert(body[k] == close_first[j]);
                if j == 0 {
                    assert(body[k + 1] == close_first[1]);
                } else if j == 1 {
                    assert(body[k] == '/');
                } else if j == close_first.len() - 1 {
                    assert(body[k] == '>');
                } else {
                    assert(body[k] == first[j - 2]);
                    assert(first.contains(first[j - 2]));
                }
            }
        }
    }
    law_argument_round_trip(front, second, b, Seq::empty());
}

proof fn lemma_browse_names()
    ensures
        "ObjectID"@ == seq!['O', 'b', 'j', 'e', 'c', 't', 'I', 'D'],
        "BrowseFlag"@ == seq!['B', 'r', 'o', 'w', 's', 'e', 'F', 'l', 'a', 'g'],
        "<ObjectID>"@ == seq!['<'] + "ObjectID"@ + seq!['>'],
        "</ObjectID>"@ == seq!['<', '/'] + "ObjectID"@ + seq!['>'],
        "<BrowseFlag>"@ == seq!['<'] + "BrowseFlag"@ + seq!['>'],
        "</BrowseFlag>"@ == seq!['<', '/'] + "BrowseFlag"@ + seq!['>'],
        "</ObjectID><BrowseFlag>"@ == "</ObjectID>"@ + "<BrowseFlag>"@,
        "</BrowseFlag><ObjectID>"@ == "</BrowseFlag>"@ + "<ObjectID>"@,
{
    reveal_strlit("ObjectID");
    reveal_strlit("BrowseFlag");
    reveal_strlit("<ObjectID>");
    reveal_strlit("</ObjectID>");
    reveal_strlit("<BrowseFlag>");
    reveal_strlit("</BrowseFlag>");
    reveal_strlit("</ObjectID><BrowseFlag>");
    reveal_strlit("</BrowseFlag><ObjectID>");
    assert("ObjectID"@ =~= seq!['O', 'b', 'j', 'e', 'c', 't', 'I', 'D']);
    assert("BrowseFlag"@ =~= seq!['B', 'r', 'o', 'w', 's', 'e', 'F', 'l', 'a', 'g']);
    assert("<ObjectID>"@ =~= seq!['<'] + "ObjectID"@ + seq!['>']);
    assert("</ObjectID>"@ =~= seq!['<', '/'] + "ObjectID"@ + seq!['>']);
    assert("<BrowseFlag>"@ =~= seq!['<'] + "BrowseFlag"@ + seq!['>']);
    assert("</BrowseFlag>"@ =~= seq!['<', '/'] + "BrowseFlag"@ + seq!['>']);
    assert("</ObjectID><BrowseFlag>"@ =~= "</ObjectID>"@ + "<BrowseFlag>"@);
    assert("</BrowseFlag><ObjectID>"@ =~= "</BrowseFlag>"@ + "<ObjectID>"@);
}

proof fn lemma_browse_arguments(object: Seq<char>, flag: Seq<char>)
    requires
        !object.contains('<'),
        !flag.contains('<'),
    ensures
        element(browse_body(object, flag), "ObjectID"@) == Some(trim(object)),
        element(browse_body(object, flag), "BrowseFlag"@) == Some(trim(flag)),
        element(browse_body_flag_first(object, flag), "ObjectID"@) == Some(trim(object)),
        element(browse_body_flag_first(object, flag), "BrowseFlag"@) == Some(trim(flag)),
{
    lemma_browse_names();
    let o = "ObjectID"@;
    let f = "BrowseFlag"@;
    lemma_join("<ObjectID>"@ + object, "</ObjectID>"@, "<BrowseFlag>"@);
    lemma_join("<BrowseFlag>"@ + flag, "</BrowseFlag>"@, "<ObjectID>"@);
    lemma_two_arguments(o, object, f, flag, browse_body(object, flag));
    lemma_two_arguments(f, flag, o, object, browse_body_flag_first(object, flag));
}

proof fn lemma_browsed_lists(body: Seq<char>, name: Seq<char>, base_url: Seq<char>, didl: Seq<char>)
    requires
        browsed(body, name, base_url) == envelope(
            "Browse"@,
            CONTENT_DIRECTORY@,
            "<Result>"@ + escaped(didl)
                + "</Result><NumberReturned>1</NumberReturned><TotalMatches>1</TotalMatches><UpdateID>1</UpdateID>"@,
        ),
    ensures
        holds(browsed(body, name, base_url), "<Result>"@ + escaped(didl) + "</Result>"@),
{
    let tail =
        "</Result><NumberReturned>1</NumberReturned><TotalMatches>1</TotalMatches><UpdateID>1</UpdateID>"@;
    let e = escaped(didl);
    let arguments = "<Result>"@ + e + tail;
    law_envelope("Browse"@, CONTENT_DIRECTORY@, arguments);
    let counts = tail.skip(9);
    assert(tail =~= "</Result>"@ + counts) by {
        reveal_strlit(
            "</Result><NumberReturned>1</NumberReturned><TotalMatches>1</TotalMatches><UpdateID>1</UpdateID>",
        );
        reveal_strlit("</Result>");
    }
    lemma_join("<Result>"@ + e, "</Result>"@, counts);
    let part = "<Result>"@ + e + "</Result>"@;
    law_holds(Seq::empty(), part, counts);
    lemma_holds_transitive(browsed(body, name, base_url), arguments, part);
}

proof fn lemma_holds_transitive(s: Seq<char>, middle: Seq<char>, part: Seq<char>)
    requires
        holds(s, middle),
        holds(middle, part),
    ensures
        holds(s, part),
{
    let i = choose|i: int|
        0 <= i && i + middle.len() <= s.len() && #[trigger] s.subrange(i, i + middle.len())
            == middle;
    let left = s.take(i);
    let right = s.skip(i + middle.len());
    assert(s =~= left + middle + right);
    law_holds_within(left, middle, right, part);
}

/// Browse is answered with the root folder exactly if the object asked for is `0` and its metadata
/// is asked for, and with the item of the stream otherwise, whatever the one argument or the other.
/// The order of the two does not matter.
pub proof fn law_browse(
    object: Seq<char>,
    flag: Seq<char>,
    name: Seq<char>,
    base_url: Seq<char>,
    body: Seq<char>,
)
    requires
        !object.contains('<'),
        !flag.contains('<'),
        body == browse_body(object, flag) || body == browse_body_flag_first(object, flag),
    ensures
        ({
            let answer = browsed(body, name, base_url);
            let item = "<Result>"@ + escaped(stream_item(name, base_url)) + "</Result>"@;
            let root = "<Result>"@ + escaped(DIDL_ROOT@) + "</Result>"@;
            if trim(object) == seq!['0'] && trim(flag) == "BrowseMetadata"@ {
                holds(answer, root)
            } else {
                &&& holds(answer, item)
                &&& holds(answer, escaped(base_url + "/stream.mkv"@))
            }
        }),
{
    lemma_browse_arguments(object, flag);
    reveal_strlit("0");
    assert("0"@ =~= seq!['0']);
    let answer = browsed(body, name, base_url);
    if trim(object) == seq!['0'] && trim(flag) == "BrowseMetadata"@ {
        lemma_browsed_lists(body, name, base_url, DIDL_ROOT@);
    } else {
        let item = stream_item(name, base_url);
        let part = base_url + "/stream.mkv"@;
        assert(!asks_for_root(body));
        lemma_browsed_lists(body, name, base_url, item);
        law_item_points_at_the_stream(name, base_url);
        lemma_escaped_holds(item, part);
        law_holds("<Result>"@, escaped(item), "</Result>"@);
        lemma_holds_transitive(
            answer,
            "<Result>"@ + escaped(item) + "</Result>"@,
            escaped(item),
        );
        lemma_holds_transitive(answer, escaped(item), escaped(part));
    }
}

/// Whatever the body, the answer to Browse depends on nothing of it but the two arguments, and is
/// the item of the stream where one of them is missing.
pub proof fn law_browse_reads_two_arguments(
    a: Seq<char>,
    b: Seq<char>,
    name: Seq<char>,
    base_url: Seq<char>,
)
    ensures
        element(a, "ObjectID"@) == element(b, "ObjectID"@) && element(a, "BrowseFlag"@) == element(
            b,
            "BrowseFlag"@,
        ) ==> browsed(a, name, base_url) == browsed(b, name, base_url),
        element(a, "ObjectID"@) is None || element(a, "BrowseFlag"@) is None ==> holds(
            browsed(a, name, base_url),
            "<Result>"@ + escaped(stream_item(name, base_url)) + "</Result>"@,
        ),
{
    if element(a, "ObjectID"@) is None || element(a, "BrowseFlag"@) is None {
        lemma_browsed_lists(a, name, base_url, stream_item(name, base_url));
    }
}

/// The directory service answers its three fixed actions with what it has, and the connection
/// service names the one protocol.
pub proof fn law_fixed_actions(body: Seq<char>, name: Seq<char>, base_url: Seq<char>)
    ensures
        ({
            let cds = "/dlna/cds/control"@;
            let cms = "/dlna/cms/control"@;
            &&& controlled(cds, "Browse"@, body, name, base_url) == Some(
                browsed(body, name, base_url),
            )
            &&& controlled(cds, "GetSystemUpdateID"@, body, name, base_url) is Some
            &&& holds(
                controlled(cds, "GetSystemUpdateID"@, body, name, base_url)->0,
                "<Id>1</Id>"@,
            )
            &&& controlled(cds, "GetSortCapabilities"@, body, name, base_url) is Some
            &&& holds(
                controlled(cds, "GetSortCapabilities"@, body, name, base_url)->0,
                "<SortCaps></SortCaps>"@,
            )
            &&& controlled(cds, "GetSearchCapabilities"@, body, name, base_url) is Some
            &&& holds(
                controlled(cds, "GetSearchCapabilities"@, body, name, base_url)->0,
                "<SearchCaps></SearchCaps>"@,
            )
            &&& controlled(cms, "GetProtocolInfo"@, body, name, base_url) is Some
            &&& holds(
                controlled(cms, "GetProtocolInfo"@, body, name, base_url)->0,
                "<Source>"@ + escaped(PROTOCOL_INFO@) + "</Source><Sink></Sink>"@,
            )
        }),
{
    lemma_action_names();
    law_envelope("GetSystemUpdateID"@, CONTENT_DIRECTORY@, "<Id>1</Id>"@);
    law_envelope("GetSortCapabilities"@, CONTENT_DIRECTORY@, "<SortCaps></SortCaps>"@);
    law_envelope("GetSearchCapabilities"@, CONTENT_DIRECTORY@, "<SearchCaps></SearchCaps>"@);
    law_envelope(
        "GetProtocolInfo"@,
        CONNECTION_MANAGER@,
        "<Source>"@ + escaped(PROTOCOL_INFO@) + "</Source><Sink></Sink>"@,
    );
    law_control_answers_what_is_described(
        "/dlna/cms/control"@,
        "GetProtocolInfo"@,
        body,
        name,
        base_url,
    );
}

proof fn lemma_action_names()
    ensures
        "Browse"@ != "GetSystemUpdateID"@,
        "Browse"@ != "GetSortCapabilities"@,
        "Browse"@ != "GetSearchCapabilities"@,
        "GetSystemUpdateID"@ != "GetSortCapabilities"@,
        "GetSystemUpdateID"@ != "GetSearchCapabilities"@,
        "GetSortCapabilities"@ != "GetSearchCapabilities"@,
        "/dlna/cds/control"@ != "/dlna/cms/control"@,
{
    reveal_strlit("Browse");
    reveal_strlit("GetSystemUpdateID");
    reveal_strlit("GetSortCapabilities");
    reveal_strlit("GetSearchCapabilities");
    reveal_strlit("/dlna/cds/control");
    reveal_strlit("/dlna/cms/control");
    assert("Browse"@.len() == 6);
    assert("GetSystemUpdateID"@.len() == 17);
    assert("GetSortCapabilities"@.len() == 19);
    assert("GetSearchCapabilities"@.len() == 21);
    assert("/dlna/cds/control"@[7] == 'd');
    assert("/dlna/cms/control"@[7] == 'm');
}

/// The action is what stands behind the last `#` of the header's value, whose quotation marks do
/// not count.
pub proof fn law_action_behind_the_service(
    headers: HeaderSeq,
    service: Seq<char>,
    action: Seq<char>,
    left: Seq<char>,
    right: Seq<char>,
)
    requires
        !action.contains('#'),
        action.len() > 0 && action.last() != '"',
        service.len() > 0 && service.first() != '"',
        forall|i: int| 0 <= i < left.len() ==> #[trigger] left[i] == '"',
        forall|i: int| 0 <= i < right.len() ==> #[trigger] right[i] == '"',
        header_named(headers, "soapaction"@) == Some(left + (service.push('#') + action) + right),
    ensures
        action_named(headers) == Some(action),
{
    let bare = service.push('#') + action;
    lemma_strip_start(left, bare + right);
    lemma_join(left, bare, right);
    law_strip('"', Seq::empty(), bare, right);
    law_split_at_last(service, '#', action);
}

proof fn lemma_strip_start(left: Seq<char>, text: Seq<char>)
    requires
        forall|i: int| 0 <= i < left.len() ==> #[trigger] left[i] == '"',
        text.len() > 0 && text.first() != '"',
    ensures
        strip_start(left + text, '"') == text,
    decreases left.len(),
{
    if left.len() > 0 {
        assert((left + text).drop_first() =~= left.drop_first() + text);
        assert((left + text).first() == left[0]);
        assert forall|i: int| 0 <= i < left.drop_first().len() implies #[trigger] left.drop_first()[i]
            == '"' by {
            assert(left.drop_first()[i] == left[i + 1]);
        }
        lemma_strip_start(left.drop_first(), text);
    } else {
        assert(left + text =~= text);
    }
}

/// A response starts with its status, says of what type its body is and of how many bytes, and ends
/// with the body.
pub proof fn law_response(status: Seq<char>, content_type: Seq<char>, body: Seq<char>)
    ensures
        ({
            let r = response(status, content_type, body);
            &&& ("HTTP/1.1 "@ + status + "\r\nContent-Type: "@ + content_type
                + "\r\nServer: "@).is_prefix_of(r)
            &&& ("\r\nConnection: close\r\nContent-Length: "@ + decimal(encode_utf8(body).len())
                + "\r\n\r\n"@ + body).is_suffix_of(r)
        }),
{
    let r = response(status, content_type, body);
    let front = "HTTP/1.1 "@ + status + "\r\nContent-Type: "@ + content_type + "\r\nServer: "@;
    let n = decimal(encode_utf8(body).len());
    let close = "\r\nConnection: close\r\nContent-Length: "@;
    let back = close + n + "\r\n\r\n"@ + body;
    let head = front + SERVER_ID@;
    lemma_join(head, close, n);
    lemma_join(head, close + n, "\r\n\r\n"@);
    lemma_join(head, close + n + "\r\n\r\n"@, body);
    assert(r == head + back);
    assert(back =~= r.subrange(r.len() - back.len(), r.len() as int));
    lemma_join(front, SERVER_ID@, back);
    assert(front =~= r.subrange(0, front.len() as int));
}

proof fn lemma_reply_names()
    ensures
        "GET"@ != "POST"@,
        "GET"@ != "SUBSCRIBE"@,
        "GET"@ != "UNSUBSCRIBE"@,
        "POST"@ != "SUBSCRIBE"@,
        "POST"@ != "UNSUBSCRIBE"@,
        "SUBSCRIBE"@ != "UNSUBSCRIBE"@,
        "/dlna/device.xml"@ != "/dlna/cds.xml"@,
        "/dlna/device.xml"@ != "/dlna/cms.xml"@,
        "/dlna/cds.xml"@ != "/dlna/cms.xml"@,
        "/dlna/"@.is_prefix_of("/dlna/device.xml"@),
        "/dlna/"@.is_prefix_of("/dlna/cds.xml"@),
        "/dlna/"@.is_prefix_of("/dlna/cms.xml"@),
        "/dlna/"@.is_prefix_of("/dlna/cds/control"@),
        "/dlna/"@.is_prefix_of("/dlna/cms/control"@),
{
    reveal_strlit("GET");
    reveal_strlit("POST");
    reveal_strlit("SUBSCRIBE");
    reveal_strlit("UNSUBSCRIBE");
    reveal_strlit("/dlna/device.xml");
    reveal_strlit("/dlna/cds.xml");
    reveal_strlit("/dlna/cms.xml");
    reveal_strlit("/dlna/cds/control");
    reveal_strlit("/dlna/cms/control");
    reveal_strlit("/dlna/");
    assert("GET"@.len() == 3);
    assert("POST"@.len() == 4);
    assert("SUBSCRIBE"@.len() == 9);
    assert("UNSUBSCRIBE"@.len() == 11);
    assert("/dlna/cds.xml"@[7] == 'd');
    assert("/dlna/cms.xml"@[7] == 'm');
    assert("/dlna/device.xml"@.len() == 16);
    assert("/dlna/cds.xml"@.len() == 13);
    assert("/dlna/cms.xml"@.len() == 13);
    assert("/dlna/"@ =~= "/dlna/device.xml"@.subrange(0, 6));
    assert("/dlna/"@ =~= "/dlna/cds.xml"@.subrange(0, 6));
    assert("/dlna/"@ =~= "/dlna/cms.xml"@.subrange(0, 6));
    assert("/dlna/"@ =~= "/dlna/cds/control"@.subrange(0, 6));
    assert("/dlna/"@ =~= "/dlna/cms/control"@.subrange(0, 6));
}

/// Every request below /dlna/ is answered, and no other. The descriptions are given to GET, the two
/// services answer POST, a subscription is accepted with the identity of the server and its end is
/// accepted, and everything else is not found.
pub proof fn law_requests(
    method: Seq<char>,
    path: Seq<char>,
    headers: HeaderSeq,
    body: Seq<u8>,
    name: Seq<char>,
    id: Seq<char>,
    base_url: Seq<char>,
)
    ensures
        ({
            let r = reply(method, path, headers, body, name, id, base_url);
            let described = path == "/dlna/device.xml"@ || path == "/dlna/cds.xml"@ || path
                == "/dlna/cms.xml"@;
            let control = path == "/dlna/cds/control"@ || path == "/dlna/cms/control"@;
            &&& r is Some <==> path.len() >= 6 && path.take(6) == seq![
                '/',
                'd',
                'l',
                'n',
                'a',
                '/',
            ]
            &&& method == "GET"@ && path == "/dlna/device.xml"@ ==> r is Some && description(
                name,
                id,
            ).is_suffix_of(r->0)
            &&& method == "GET"@ && path == "/dlna/cds.xml"@ ==> r is Some && CDS_SCPD@.is_suffix_of(
                r->0,
            )
            &&& method == "GET"@ && path == "/dlna/cms.xml"@ ==> r is Some && CMS_SCPD@.is_suffix_of(
                r->0,
            )
            &&& method == "POST"@ && control ==> r == Some(
                control_reply(path, headers, body_text(body), name, base_url),
            )
            &&& r is Some && method == "SUBSCRIBE"@ ==> ("HTTP/1.1 200 OK\r\nSID: uuid:"@ + id
                + "\r\nTIMEOUT: Second-"@).is_prefix_of(r->0)
            &&& r is Some && method == "UNSUBSCRIBE"@ ==> r->0
                == "HTTP/1.1 200 OK\r\nContent-Length: 0\r\n\r\n"@
            &&& r is Some && !(method == "GET"@ && described) && !(method == "POST"@ && control)
                && method != "SUBSCRIBE"@ && method != "UNSUBSCRIBE"@ ==> r->0
                == "HTTP/1.1 404 Not Found\r\nContent-Length: 0\r\n\r\n"@
        }),
{
    lemma_reply_names();
    let dlna = seq!['/', 'd', 'l', 'n', 'a', '/'];
    assert("/dlna/"@ == dlna) by {
        reveal_strlit("/dlna/");
        assert("/dlna/"@ =~= dlna);
    }
    if path.len() >= 6 {
        assert(path.take(6) =~= path.subrange(0, 6));
    }
    lemma_response_ends(description(name, id));
    lemma_response_ends(CDS_SCPD@);
    lemma_response_ends(CMS_SCPD@);
    let accepted = "HTTP/1.1 200 OK\r\nSID: uuid:"@ + id + "\r\nTIMEOUT: Second-"@;
    let whole = accepted + decimal(CACHE_MAX_AGE as nat) + "\r\nContent-Length: 0\r\n\r\n"@;
    assert(accepted =~= whole.subrange(0, accepted.len() as int));
}

proof fn lemma_response_ends(body: Seq<char>)
    ensures
        body.is_suffix_of(response("200 OK"@, "text/xml; charset=utf-8"@, body)),
{
    let r = response("200 OK"@, "text/xml; charset=utf-8"@, body);
    assert(body =~= r.subrange(r.len() - body.len(), r.len() as int));
}

/// A control request that names an action which is offered is answered with success and ends with
/// the answer.
pub proof fn law_offered_action_is_answered(
    path: Seq<char>,
    headers: HeaderSeq,
    action: Seq<char>,
    body: Seq<char>,
    name: Seq<char>,
    base_url: Seq<char>,
)
    requires
        action_named(headers) == Some(action),
        controlled(path, action, body, name, base_url) is Some,
    ensures
        ({
            let r = control_reply(path, headers, body, name, base_url);
            &&& "HTTP/1.1 200 OK\r\n"@.is_prefix_of(r)
            &&& controlled(path, action, body, name, base_url)->0.is_suffix_of(r)
        }),
{
    let xml = controlled(path, action, body, name, base_url)->0;
    lemma_response_ends(xml);
    let r = control_reply(path, headers, body, name, base_url);
    let front = "HTTP/1.1 "@ + "200 OK"@ + "\r\nContent-Type: "@;
    reveal_strlit("HTTP/1.1 200 OK\r\n");
    reveal_strlit("HTTP/1.1 ");
    reveal_strlit("200 OK");
    reveal_strlit("\r\nContent-Type: ");
    assert("HTTP/1.1 200 OK\r\n"@ =~= front.subrange(0, 17));
    law_response("200 OK"@, "text/xml; charset=utf-8"@, xml);
    let long = front + "text/xml; charset=utf-8"@ + "\r\nServer: "@;
    assert(long.subrange(0, 17) =~= front.subrange(0, 17));
    assert(r.subrange(0, long.len() as int).subrange(0, 17) =~= r.subrange(0, 17));
}

/// A body that is text is taken as that text.
pub proof fn law_body_is_decoded(text: Seq<char>)
    ensures
        body_text(encode_utf8(text)) == text,
{
    vstd::utf8::encode_utf8_valid_utf8(text);
    vstd::utf8::encode_utf8_decode_utf8(text);
}

/// Responses point at the advertised url, as it was set, and without one at the address that the
/// connection came in on.
pub proof fn law_response_base_url(cell: &AdvertiseUrl, advertised: Option<&str>, local: &str, r: String)
    requires
        call_ensures(advertise_url, (cell,), advertised),
        call_ensures(response_base_url, (advertised, local), r),
    ensures
        cell@ matches Some(Some(url)) ==> r@ == url,
        cell@ is None || cell@ == Some(None::<Seq<char>>) ==> r@ == "http://"@ + local@,
{
}

/// The identity of a host shows the digits of the hash of its name, and then those of the hash that
/// goes on with the name of the server.
pub proof fn law_uuid_digits_of_the_host(host: Seq<char>)
    ensures
        ({
            let r = uuid(None, Some(host));
            let named = hashed(Seq::empty(), host);
            &&& r.subrange(0, 8) + r.subrange(9, 13) + r.subrange(14, 18) == hex_digits(
                DefaultHasher::spec_finish(named) as nat,
                16,
            )
            &&& r.subrange(19, 23) + r.subrange(24, 36) == hex_digits(
                DefaultHasher::spec_finish(hashed(named, "scream"@)) as nat,
                16,
            )
        }),
{
    law_uuid_of_two_numbers(host_hash(host), salted_hash(host));
}

/// An optional string has a text exactly if it is there.
pub proof fn law_optional_text(s: String, t: &str)
    ensures
        text_of(Some(s)) == Some(s@),
        text_of(None) is None,
        str_of(Some(t)) == Some(t@),
        str_of(None) is None,
{
}

} // verus!
