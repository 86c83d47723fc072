use scream::ssdp::{
    answer_search, client_base_url, header_value, location, notification_types, notify,
    search_target, Announcer,
};
use scream::time::Duration;

#[test]
fn header_value_matches_case_insensitively() {
    let msg = "M-SEARCH * HTTP/1.1\r\nST: ssdp:all\r\nMX: 3\r\n";
    assert_eq!(header_value(msg, "st"), Some("ssdp:all"));
    assert_eq!(header_value(msg, "missing"), None);
}

#[test]
fn header_value_keeps_colons_and_takes_the_first() {
    let msg = "X\n st : a:b \nST: second";
    assert_eq!(header_value(msg, "ST"), Some("a:b"));
    assert_eq!(header_value("", "st"), None);
}

#[test]
fn notification_types_all_carry_the_uuid() {
    let types = notification_types("abc");
    assert_eq!(types.len(), 5);
    assert!(types.iter().all(|(_, usn)| usn.contains("abc")));
}

#[test]
fn the_location_points_at_the_description() {
    assert_eq!(client_base_url(None, Some("10.0.0.2"), 7002).as_deref(), Some("http://10.0.0.2:7002"));
    assert_eq!(
        location(None, Some("10.0.0.2"), 7002).as_deref(),
        Some("http://10.0.0.2:7002/dlna/device.xml")
    );
    assert_eq!(
        location(Some("http://tv"), Some("10.0.0.2"), 7002).as_deref(),
        Some("http://tv/dlna/device.xml")
    );
    assert_eq!(location(None, None, 7002), None);
}

#[test]
fn an_announcement_names_every_type() {
    let alive = notify(Some("http://x/d.xml"), "abc", true);
    assert_eq!(alive.len(), 5);
    assert_eq!(
        alive[0],
        "NOTIFY * HTTP/1.1\r\nHOST: 239.255.255.250:1900\r\nCACHE-CONTROL: max-age=1800\r\nLOCATION: http://x/d.xml\r\nNT: upnp:rootdevice\r\nNTS: ssdp:alive\r\nSERVER: Linux UPnP/1.0 scream/0.1\r\nUSN: uuid:abc::upnp:rootdevice\r\n\r\n"
    );
    let byebye = notify(Some("http://x/d.xml"), "abc", false);
    assert_eq!(
        byebye[1],
        "NOTIFY * HTTP/1.1\r\nHOST: 239.255.255.250:1900\r\nNT: uuid:abc\r\nNTS: ssdp:byebye\r\nUSN: uuid:abc\r\n\r\n"
    );
    assert!(notify(None, "abc", true).is_empty());
}

#[test]
fn a_search_for_all_is_answered_with_all() {
    let all = answer_search(Some("http://x/d.xml"), "abc", "ssdp:all");
    assert_eq!(all.len(), 5);
    assert!(all[2].contains("ST: urn:schemas-upnp-org:device:MediaServer:1\r\n"));
    assert!(answer_search(None, "abc", "ssdp:all").is_empty());
}

#[test]
fn a_search_for_one_type_is_answered_with_that() {
    let one = answer_search(Some("http://x/d.xml"), "abc", "upnp:rootdevice");
    assert_eq!(
        one,
        vec!["HTTP/1.1 200 OK\r\nCACHE-CONTROL: max-age=1800\r\nEXT:\r\nLOCATION: http://x/d.xml\r\nSERVER: Linux UPnP/1.0 scream/0.1\r\nST: upnp:rootdevice\r\nUSN: uuid:abc::upnp:rootdevice\r\n\r\n".to_string()]
    );
    assert!(answer_search(Some("http://x"), "abc", "urn:other").is_empty());
}

#[test]
fn only_searches_have_a_target() {
    assert_eq!(search_target(b"M-SEARCH * HTTP/1.1\r\nST: ssdp:all\r\n\r\n"), Some("ssdp:all"));
    assert_eq!(search_target(b"NOTIFY * HTTP/1.1\r\nST: ssdp:all\r\n\r\n"), None);
    assert_eq!(search_target(b"M-SEARCH * HTTP/1.1\r\n\r\n"), None);
    assert_eq!(search_target(b"M-SEARCH\r\nST: \xff\r\n"), None);
}

#[test]
fn announcements_go_out_every_ten_minutes() {
    let mut announcer = Announcer::new();
    assert!(announcer.turn(Duration::from_secs(5)));
    assert!(!announcer.turn(Duration::from_secs(604)));
    assert!(announcer.turn(Duration::from_secs(605)));
    assert!(!announcer.turn(Duration::from_secs(606)));
}
