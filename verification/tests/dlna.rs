use scream::dlna::{
    advertise_url, answer_control, body_argument, browse_response, control_response,
    device_description, device_uuid, didl_stream_item, handle_request, response_base_url,
    set_advertise_url, soap_action, soap_envelope, uuid_of_hashes, write_response, xml_escape,
    AdvertiseUrl, CDS_SCPD, CMS_SCPD, SOAP_FAULT,
};
use std::collections::hash_map::DefaultHasher;
use std::hash::{Hash, Hasher};

fn headers(list: &[(&str, &str)]) -> Vec<(String, String)> {
    list.iter().map(|(n, v)| (n.to_string(), v.to_string())).collect()
}

#[test]
fn xml_escape_covers_the_five_entities() {
    assert_eq!(xml_escape(r#"a & b < c > "d""#), "a &amp; b &lt; c &gt; &quot;d&quot;");
}

#[test]
fn escaping_leaves_other_characters() {
    assert_eq!(xml_escape("it's é 日本"), "it's é 日本");
    assert_eq!(xml_escape("&amp;"), "&amp;amp;");
    assert_eq!(xml_escape(""), "");
}

#[test]
fn escaping_is_reversible_and_leaves_no_markup() {
    for text in ["", "&&<>\"", "&lt;", "a<b>&quot;\"c", "日<本"] {
        let escaped = xml_escape(text);
        assert!(!escaped.contains(['<', '>', '"']));
        let back = escaped
            .replace("&lt;", "<")
            .replace("&gt;", ">")
            .replace("&quot;", "\"")
            .replace("&amp;", "&");
        assert_eq!(back, text);
    }
}

#[test]
fn device_uuid_is_stable_and_shaped_like_a_uuid() {
    for (id, host) in [
        (Some("0123456789abcdef0123456789ABCDEF\n"), Some("box")),
        (Some("short"), Some("box")),
        (None, Some("box")),
        (None, None),
    ] {
        let uuid = device_uuid(id, host);
        let groups: Vec<&str> = uuid.split('-').collect();
        assert_eq!(groups.iter().map(|g| g.len()).collect::<Vec<_>>(), vec![8, 4, 4, 4, 12]);
        assert_eq!(uuid, device_uuid(id, host));
    }
}

#[test]
fn device_uuid_is_grouped_from_the_machine_id() {
    assert_eq!(
        device_uuid(Some("  0123456789abcdef0123456789abcdef\n"), None),
        "01234567-89ab-cdef-0123-456789abcdef"
    );
    // What is not a digit is left out, and so is what follows the first 32
    assert_eq!(
        device_uuid(Some("{01234567-89AB-cdef-0123-456789abcdef}ff"), None),
        "01234567-89AB-cdef-0123-456789abcdef"
    );
}

fn hashed_uuid(host: &str) -> String {
    let mut hasher = DefaultHasher::new();
    host.hash(&mut hasher);
    let a = hasher.finish();
    "scream".hash(&mut hasher);
    let b = hasher.finish();
    format!(
        "{:08x}-{:04x}-{:04x}-{:04x}-{:012x}",
        (a >> 32) as u32,
        (a >> 16) as u16,
        a as u16,
        (b >> 48) as u16,
        b & 0xffff_ffff_ffff
    )
}

#[test]
fn device_uuid_hashes_the_host_name_without_a_machine_id() {
    assert_eq!(device_uuid(None, Some("box")), hashed_uuid("box"));
    assert_eq!(device_uuid(None, Some("wohnzimmer-küche")), hashed_uuid("wohnzimmer-küche"));
    assert_eq!(device_uuid(None, None), hashed_uuid("scream"));
    assert_eq!(device_uuid(Some("0123456789abcdef0123456789abcde"), Some("x")), hashed_uuid("x"));
}

#[test]
fn hashes_make_a_uuid() {
    assert_eq!(
        uuid_of_hashes(0x0123_4567_89ab_cdef, 0xfedc_ba98_7654_3210),
        "01234567-89ab-cdef-fedc-ba9876543210"
    );
    assert_eq!(uuid_of_hashes(0, 1), "00000000-0000-0000-0000-000000000001");
}

#[test]
fn the_first_advertised_url_stays() {
    let mut cell = AdvertiseUrl::new();
    assert_eq!(advertise_url(&cell), None);
    set_advertise_url(&mut cell, Some("http://192.168.1.10:7002//".to_string()));
    assert_eq!(advertise_url(&cell), Some("http://192.168.1.10:7002"));
    set_advertise_url(&mut cell, Some("http://other".to_string()));
    assert_eq!(advertise_url(&cell), Some("http://192.168.1.10:7002"));

    let mut none = AdvertiseUrl::new();
    set_advertise_url(&mut none, None);
    set_advertise_url(&mut none, Some("http://late".to_string()));
    assert_eq!(advertise_url(&none), None);
}

#[test]
fn the_advertised_url_replaces_the_local_address() {
    assert_eq!(response_base_url(Some("http://a"), "10.0.0.1:7002"), "http://a");
    assert_eq!(response_base_url(None, "10.0.0.1:7002"), "http://10.0.0.1:7002");
}

#[test]
fn body_argument_extracts_a_named_element() {
    let body = "<Browse><ObjectID>0</ObjectID><BrowseFlag>BrowseMetadata</BrowseFlag></Browse>";
    assert_eq!(body_argument(body, "ObjectID").as_deref(), Some("0"));
    assert_eq!(body_argument(body, "BrowseFlag").as_deref(), Some("BrowseMetadata"));
    assert_eq!(body_argument(body, "Nope"), None);
}

#[test]
fn body_argument_trims_and_needs_both_tags() {
    assert_eq!(body_argument("<A> \t x y \n</A>", "A").as_deref(), Some("x y"));
    assert_eq!(body_argument("</A><A>x", "A"), None);
    assert_eq!(body_argument("<A>x</A><A>y</A>", "A").as_deref(), Some("x"));
    assert_eq!(body_argument("<A></A>", "A").as_deref(), Some(""));
}

#[test]
fn soap_action_takes_the_name_after_the_hash() {
    let headers = vec![
        ("host".to_string(), "x".to_string()),
        ("soapaction".to_string(),
         "\"urn:schemas-upnp-org:service:ContentDirectory:1#Browse\"".to_string()),
    ];
    assert_eq!(soap_action(&headers).as_deref(), Some("Browse"));
}

#[test]
fn soap_action_without_a_hash_is_the_whole_value() {
    assert_eq!(soap_action(&headers(&[("soapaction", "Browse")])).as_deref(), Some("Browse"));
    assert_eq!(soap_action(&headers(&[("soapaction", "\"a#b#c\"")])).as_deref(), Some("c"));
    assert_eq!(soap_action(&headers(&[("soapaction", "a#")])).as_deref(), Some(""));
    assert_eq!(soap_action(&headers(&[("SOAPACTION", "a#b")])), None);
    assert_eq!(soap_action(&[]), None);
}

#[test]
fn browse_metadata_of_the_root_returns_the_container() {
    let body = "<ObjectID>0</ObjectID><BrowseFlag>BrowseMetadata</BrowseFlag>";
    let xml = browse_response(body, "ISS Display", "http://10.0.0.1:7002");
    assert!(xml.contains("BrowseResponse"));
    assert!(xml.contains("storageFolder"));
}

#[test]
fn browse_children_returns_the_stream_item_pointing_at_the_mkv() {
    let body = "<ObjectID>0</ObjectID><BrowseFlag>BrowseDirectChildren</BrowseFlag>";
    let xml = browse_response(body, "ISS Display", "http://10.0.0.1:7002");
    assert!(xml.contains("videoItem"));
    assert!(xml.contains("http://10.0.0.1:7002/stream.mkv"));
}

#[test]
fn the_stream_item_is_escaped_twice_in_a_browse() {
    assert!(didl_stream_item("a<b", "http://x").contains("<dc:title>a&lt;b</dc:title>"));
    let xml = browse_response("", "a<b", "http://x");
    assert!(xml.contains("&lt;dc:title&gt;a&amp;lt;b&lt;/dc:title&gt;"));
    assert!(xml.contains("<NumberReturned>1</NumberReturned><TotalMatches>1</TotalMatches><UpdateID>1</UpdateID>"));
}

#[test]
fn an_envelope_names_its_action_twice() {
    assert_eq!(
        soap_envelope("A", "urn:s", "<X/>"),
        "<?xml version=\"1.0\" encoding=\"utf-8\"?>\n<s:Envelope xmlns:s=\"http://schemas.xmlsoap.org/soap/envelope/\" s:encodingStyle=\"http://schemas.xmlsoap.org/soap/encoding/\">\n<s:Body><u:AResponse xmlns:u=\"urn:s\"><X/></u:AResponse></s:Body>\n</s:Envelope>"
    );
}

#[test]
fn control_answers_the_described_actions_and_no_others() {
    for action in ["Browse", "GetSystemUpdateID", "GetSortCapabilities", "GetSearchCapabilities"] {
        assert!(CDS_SCPD.contains(&format!("<name>{action}</name>")));
        let xml = control_response("/dlna/cds/control", action, "", "n", "http://x").unwrap();
        assert!(xml.contains(&format!("<u:{action}Response ")));
        assert!(control_response("/dlna/cms/control", action, "", "n", "http://x").is_none());
    }
    assert!(CMS_SCPD.contains("<name>GetProtocolInfo</name>"));
    let info = control_response("/dlna/cms/control", "GetProtocolInfo", "", "n", "b").unwrap();
    assert!(info.contains("<Source>http-get:*:video/x-matroska:DLNA.ORG_OP=00;DLNA.ORG_CI=0;DLNA.ORG_FLAGS=01700000000000000000000000000000</Source><Sink></Sink>"));
    assert!(control_response("/dlna/cds/control", "GetProtocolInfo", "", "n", "b").is_none());
    assert!(control_response("/dlna/cds/control", "CreateObject", "", "n", "b").is_none());
    assert!(control_response("/dlna/other", "Browse", "", "n", "b").is_none());
}

#[test]
fn a_response_counts_bytes() {
    assert_eq!(
        write_response("200 OK", "text/xml", "é"),
        "HTTP/1.1 200 OK\r\nContent-Type: text/xml\r\nServer: Linux UPnP/1.0 scream/0.1\r\nConnection: close\r\nContent-Length: 2\r\n\r\né"
    );
}

#[test]
fn a_refused_action_is_answered_with_a_fault() {
    let refused = answer_control("/dlna/cds/control", &headers(&[("soapaction", "x#Nope")]), "", "n", "b");
    assert!(refused.starts_with("HTTP/1.1 500 Internal Server Error\r\n"));
    assert!(refused.ends_with(SOAP_FAULT));
    let missing = answer_control("/dlna/cds/control", &[], "", "n", "b");
    assert_eq!(missing, refused);
}

fn ask(method: &str, path: &str, soap: &str, body: &[u8]) -> Option<String> {
    handle_request(method, path, &headers(&[("soapaction", soap)]), body, "TV & Co", "u-1", "http://b")
}

#[test]
fn requests_under_dlna_are_answered() {
    assert!(ask("GET", "/stream.mkv", "", b"").is_none());
    assert!(ask("GET", "/dlna", "", b"").is_none());
    let device = ask("GET", "/dlna/device.xml", "", b"").unwrap();
    assert!(device.ends_with(&device_description("TV & Co", "u-1")));
    assert!(device.contains("<friendlyName>TV &amp; Co</friendlyName>"));
    assert!(device.contains("<UDN>uuid:u-1</UDN>"));
    assert!(ask("GET", "/dlna/cds.xml", "", b"").unwrap().ends_with(CDS_SCPD));
    assert!(ask("GET", "/dlna/cms.xml", "", b"").unwrap().ends_with(CMS_SCPD));
    assert_eq!(
        ask("SUBSCRIBE", "/dlna/cds/event", "", b"").unwrap(),
        "HTTP/1.1 200 OK\r\nSID: uuid:u-1\r\nTIMEOUT: Second-1800\r\nContent-Length: 0\r\n\r\n"
    );
    assert_eq!(
        ask("UNSUBSCRIBE", "/dlna/x", "", b"").unwrap(),
        "HTTP/1.1 200 OK\r\nContent-Length: 0\r\n\r\n"
    );
    assert_eq!(
        ask("POST", "/dlna/device.xml", "", b"").unwrap(),
        "HTTP/1.1 404 Not Found\r\nContent-Length: 0\r\n\r\n"
    );
}

#[test]
fn a_body_that_is_no_text_is_read_with_replacements() {
    // The broken byte stands inside the flag, so the flag is not the one for the root
    let broken = b"<ObjectID>0</ObjectID><BrowseFlag>Browse\xffMetadata</BrowseFlag>";
    let xml = ask("POST", "/dlna/cds/control", "x#Browse", broken).unwrap();
    assert!(xml.contains("videoItem"));
    // Beside the elements it changes nothing
    let beside = b"\xff<ObjectID>0</ObjectID><BrowseFlag>BrowseMetadata</BrowseFlag>";
    let xml = ask("POST", "/dlna/cds/control", "x#Browse", beside).unwrap();
    assert!(xml.contains("storageFolder"));
}
