//! The http side: which path serves what, the heads of the responses, the framing of what never
//! ends, and when a connection is kept.
use crate::dlna;
use crate::hls;
use crate::hls_state::Playlist;
use crate::http::{HeaderSeq, Request};
use crate::metrics::Counters;
use crate::numbers::{decimal, hex, to_decimal, to_hex};
use crate::ssdp;
use crate::text::{before, chars_of, holds, law_holds, law_split_at_first, lemma_join, same, starts_with};
use std::sync::atomic::AtomicI64;
use vstd::prelude::*;
use vstd::string::*;
use vstd::utf8::{encode_utf8, is_ascii_chars, is_ascii_chars_encode_utf8};

verus! {

// ---------------------------------------------------------------------------
// Routing

/// What a stream that never ends is muxed into.
#[derive(Debug, Clone, Copy, PartialEq, Eq, Structural)]
pub enum Container {
    /// vp8 and opus, what a browser plays over a plain chunked response.
    Webm,
    /// h264, what a dlna player takes that plays neither vp8 nor rtsp.
    Matroska,
    /// h264 and aac, the dlna live profile.
    MpegTs,
}

/// What a request asks for.
#[derive(Debug, Clone, Copy, PartialEq, Eq, Structural)]
pub enum Route {
    /// The dlna endpoints answer descriptions and SOAP, not video: they must not spin up capture
    /// or an encoder.
    Dlna,
    /// Anything but GET.
    NotAllowed,
    /// Answered without capture or an encoder, so a scrape never wakes the pipeline.
    Metrics,
    /// The live playlist.
    Playlist,
    /// The segment with this number.
    Segment(u64),
    /// One frame, for a save button or anything expecting a still.
    Snapshot,
    /// A stream that never ends.
    Stream(Container),
    /// Frames as stills, one after the other.
    Mjpeg,
    /// Nothing that is served.
    NotFound,
}

/// What a method and a path ask for.
pub open spec fn routed(method: Seq<char>, path: Seq<char>) -> Route {
    if "/dlna/"@.is_prefix_of(path) {
        Route::Dlna
    } else if method != "GET"@ {
        Route::NotAllowed
    } else if path == "/metrics"@ {
        Route::Metrics
    } else if path == hls::PLAYLIST_PATH@ {
        Route::Playlist
    } else if let Some(seq) = hls::seq_named(path) {
        Route::Segment(seq as u64)
    } else if path == "/snapshot"@ || path == "/screenshot"@ {
        Route::Snapshot
    } else if path == "/"@ || path == "/webm"@ {
        Route::Stream(Container::Webm)
    } else if path == "/stream.mkv"@ {
        Route::Stream(Container::Matroska)
    } else if path == "/stream.ts"@ {
        Route::Stream(Container::MpegTs)
    } else if path == "/mjpeg"@ {
        Route::Mjpeg
    } else {
        Route::NotFound
    }
}

/// What a request asks for. A query in its target changes nothing.
pub fn route(request: &Request) -> (r: Route)
    ensures
        r == routed(request@.method, before(request@.target, '?')),
{
    let method = request.method.as_str();
    let path = request.path();
    if starts_with(path, "/dlna/") {
        return Route::Dlna;
    }
    if !same(method, "GET") {
        return Route::NotAllowed;
    }
    if same(path, "/metrics") {
        return Route::Metrics;
    }
    if same(path, hls::PLAYLIST_PATH) {
        return Route::Playlist;
    }
    if let Some(seq) = hls::segment_seq(path) {
        return Route::Segment(seq);
    }
    if same(path, "/snapshot") || same(path, "/screenshot") {
        Route::Snapshot
    } else if same(path, "/") || same(path, "/webm") {
        Route::Stream(Container::Webm)
    } else if same(path, "/stream.mkv") {
        Route::Stream(Container::Matroska)
    } else if same(path, "/stream.ts") {
        Route::Stream(Container::MpegTs)
    } else if same(path, "/mjpeg") {
        Route::Mjpeg
    } else {
        Route::NotFound
    }
}

/// Every segment is served under its own path.
pub proof fn law_segments_are_routed(seq: u64)
    ensures
        routed("GET"@, hls::path_of(seq as nat)) == Route::Segment(seq),
{
    let path = hls::path_of(seq as nat);
    hls::law_segment_paths_round_trip(seq);
    hls::law_playlist_is_no_segment();
    reveal_strlit("/dlna/");
    reveal_strlit("/hls/");
    reveal_strlit("/metrics");
    assert(path[1] == 'h') by {
        assert(path[1] == "/hls/"@[1]);
    }
    assert(path.len() > 5);
    if "/dlna/"@.is_prefix_of(path) {
        assert("/dlna/"@[1] == path.subrange(0, 6)[1]);
    }
    assert("/metrics"@[1] == 'm');
}

/// The playlist is served under its path.
pub proof fn law_playlist_is_routed()
    ensures
        routed("GET"@, hls::PLAYLIST_PATH@) == Route::Playlist,
{
    reveal_strlit("/hls/stream.m3u8");
    reveal_strlit("/dlna/");
    reveal_strlit("/metrics");
    let path = hls::PLAYLIST_PATH@;
    assert(path[1] == 'h');
    if "/dlna/"@.is_prefix_of(path) {
        assert("/dlna/"@[1] == path.subrange(0, 6)[1]);
    }
    assert("/metrics"@[1] == 'm');
}

/// The stream that the dlna directory points at is served, as the matroska that it says it is.
pub proof fn law_described_stream_is_routed()
    ensures
        routed("GET"@, dlna::STREAM_PATH@) == Route::Stream(Container::Matroska),
{
    reveal_strlit("/stream.mkv");
    reveal_strlit("/dlna/");
    reveal_strlit("/metrics");
    reveal_strlit("/hls/stream.m3u8");
    reveal_strlit("/hls/");
    reveal_strlit("/snapshot");
    reveal_strlit("/screenshot");
    reveal_strlit("/");
    reveal_strlit("/webm");
    let path = dlna::STREAM_PATH@;
    assert(path.len() == 11);
    assert(path[1] == 's' && path[2] == 't');
    if "/dlna/"@.is_prefix_of(path) {
        assert("/dlna/"@[1] == path.subrange(0, 6)[1]);
    }
    if "/hls/"@.is_prefix_of(path) {
        assert("/hls/"@[1] == path.subrange(0, 5)[1]);
    }
    assert("/screenshot"@[2] == 'c');
}

/// The description that the announcements point at is served: its path goes to the dlna endpoints,
/// which answer it.
pub proof fn law_announced_description_is_served(
    headers: HeaderSeq,
    body: Seq<u8>,
    name: Seq<char>,
    uuid: Seq<char>,
    base_url: Seq<char>,
)
    ensures
        ssdp::described_at(Some(base_url), None, 0) == Some(base_url + "/dlna/device.xml"@),
        routed("GET"@, "/dlna/device.xml"@) == Route::Dlna,
        dlna::reply("GET"@, "/dlna/device.xml"@, headers, body, name, uuid, base_url) == Some(
            dlna::response(
                "200 OK"@,
                "text/xml; charset=utf-8"@,
                dlna::description(name, uuid),
            ),
        ),
{
    reveal_strlit("/dlna/");
    reveal_strlit("/dlna/device.xml");
    assert("/dlna/"@ =~= "/dlna/device.xml"@.subrange(0, 6));
}

/// Only GET reaches anything outside of the dlna endpoints.
pub proof fn law_other_methods_are_refused(method: Seq<char>, path: Seq<char>)
    requires
        method != "GET"@,
    ensures
        routed(method, path) == Route::Dlna || routed(method, path) == Route::NotAllowed,
{
}

/// What becomes of a connection after a response. A finite response leaves it open for the next
/// request, so that a scrape every few seconds reuses one socket instead of leaving a TIME_WAIT
/// behind each time. Streaming responses take it down.
#[derive(Debug, Clone, Copy, PartialEq, Eq, Structural)]
pub enum HttpNext {
    KeepAlive,
    Close,
}

/// What becomes of the connection after a request was answered. `still` says whether a snapshot
/// request was sent one.
pub fn next_after(route: Route, still: bool) -> (r: HttpNext)
    ensures
        r == match route {
            Route::Metrics | Route::Playlist | Route::Segment(_) => HttpNext::KeepAlive,
            Route::Snapshot => if still {
                HttpNext::KeepAlive
            } else {
                HttpNext::Close
            },
            _ => HttpNext::Close,
        },
{
    match route {
        Route::Metrics | Route::Playlist | Route::Segment(_) => HttpNext::KeepAlive,
        Route::Snapshot => if still {
            HttpNext::KeepAlive
        } else {
            HttpNext::Close
        },
        _ => HttpNext::Close,
    }
}

/// The counter that a client of a route is counted on for as long as it is served, `None` where the
/// exposition shows none. It ties a stream to its label there.
pub fn client_counter(counters: &Counters, route: Route) -> (r: Option<&AtomicI64>)
    ensures
        r == match route {
            Route::Snapshot => Some(&counters.snapshot),
            Route::Stream(Container::Webm) => Some(&counters.webm),
            Route::Stream(Container::Matroska) => Some(&counters.mkv),
            Route::Mjpeg => Some(&counters.mjpeg),
            _ => None,
        },
{
    match route {
        Route::Snapshot => Some(&counters.snapshot),
        Route::Stream(Container::Webm) => Some(&counters.webm),
        Route::Stream(Container::Matroska) => Some(&counters.mkv),
        Route::Mjpeg => Some(&counters.mjpeg),
        _ => None,
    }
}

// ---------------------------------------------------------------------------
// Responses

pub const METHOD_NOT_ALLOWED: &'static str =
    "HTTP/1.1 405 Method Not Allowed\r\nContent-Length: 0\r\nConnection: close\r\n\r\n";

pub const BAD_REQUEST: &'static str =
    "HTTP/1.1 400 Bad Request\r\nContent-Length: 0\r\nConnection: close\r\n\r\n";

pub const NOT_FOUND: &'static str =
    "HTTP/1.1 404 Not Found\r\nContent-Length: 0\r\nConnection: close\r\n\r\n";

pub const NO_ENCODER: &'static str =
    "HTTP/1.1 500 Internal Server Error\r\nContent-Length: 0\r\n\r\n";

pub const NO_FRAME: &'static str =
    "HTTP/1.1 503 Service Unavailable\r\nContent-Length: 0\r\nConnection: close\r\n\r\n";

pub const NO_PLAYLIST: &'static str =
    "HTTP/1.1 503 Service Unavailable\r\nRetry-After: 2\r\nContent-Length: 0\r\nConnection: keep-alive\r\n\r\n";

pub const NO_SEGMENT: &'static str =
    "HTTP/1.1 404 Not Found\r\nContent-Length: 0\r\nConnection: keep-alive\r\n\r\n";

pub const MJPEG_HEAD: &'static str =
    "HTTP/1.1 200 OK\r\nContent-Type: multipart/x-mixed-replace; boundary=screamframe\r\nAccess-Control-Allow-Origin: *\r\nCache-Control: no-store\r\nConnection: close\r\n\r\n";

/// What ends a chunked response.
pub const LAST_CHUNK: &'static str = "0\r\n\r\n";

/// The response to a scrape, whose length is that of its bytes. It has a length and no
/// `Connection: close`, so a client that scrapes on a timer keeps the one socket.
pub open spec fn metrics_text(body: Seq<char>) -> Seq<char> {
    "HTTP/1.1 200 OK\r\nContent-Type: text/plain; version=0.0.4\r\nContent-Length: "@ + decimal(
        encode_utf8(body).len(),
    ) + "\r\nConnection: keep-alive\r\n\r\n"@ + body
}

/// The response to a scrape.
pub fn metrics_response(body: &str) -> (r: String)
    ensures
        r@ == metrics_text(body@),
{
    let mut r =
        "HTTP/1.1 200 OK\r\nContent-Type: text/plain; version=0.0.4\r\nContent-Length: ".to_owned();
    let length = body.as_bytes().len();
    r.append(to_decimal(length as u64).as_str());
    r.append("\r\nConnection: keep-alive\r\n\r\n");
    r.append(body);
    r
}

/// The head of a response that a page of any origin may read, and that nobody keeps.
pub open spec fn open_head(content_type: Seq<char>, length: nat) -> Seq<char> {
    "HTTP/1.1 200 OK\r\nContent-Type: "@ + content_type
        + "\r\nAccess-Control-Allow-Origin: *\r\nCache-Control: no-store\r\nContent-Length: "@
        + decimal(length) + "\r\nConnection: keep-alive\r\n\r\n"@
}

/// The head of a response that a page of any origin may read, and that nobody keeps.
fn write_open_head(content_type: &str, length: usize) -> (r: String)
    ensures
        r@ == open_head(content_type@, length as nat),
{
    let mut r = "HTTP/1.1 200 OK\r\nContent-Type: ".to_owned();
    r.append(content_type);
    r.append("\r\nAccess-Control-Allow-Origin: *\r\nCache-Control: no-store\r\nContent-Length: ");
    r.append(to_decimal(length as u64).as_str());
    r.append("\r\nConnection: keep-alive\r\n\r\n");
    r
}

/// A head and the bytes that follow it.
fn with_body(head: &str, body: &[u8]) -> (r: Vec<u8>)
    ensures
        r@ == encode_utf8(head@) + body@,
{
    let mut r: Vec<u8> = Vec::new();
    r.extend_from_slice(head.as_bytes());
    assert(r@ =~= encode_utf8(head@));
    r.extend_from_slice(body);
    assert(r@ =~= encode_utf8(head@) + body@);
    r
}

/// What is answered where nothing is served, `None` where something is.
pub fn refusal(route: Route) -> (r: Option<&'static str>)
    ensures
        match route {
            Route::NotAllowed => r is Some && (r->0)@ == METHOD_NOT_ALLOWED@,
            Route::NotFound => r is Some && (r->0)@ == NOT_FOUND@,
            _ => r is None,
        },
{
    match route {
        Route::NotAllowed => Some(METHOD_NOT_ALLOWED),
        Route::NotFound => Some(NOT_FOUND),
        _ => None,
    }
}

/// What is answered where no request could be read. Nothing where the client closed the connection
/// between requests or the read timed out: there is nothing to reply to.
pub fn rejection(received: usize, timed_out: bool) -> (r: Option<&'static str>)
    ensures
        if received == 0 || timed_out {
            r is None
        } else {
            r is Some && (r->0)@ == BAD_REQUEST@
        },
{
    if received == 0 || timed_out {
        None
    } else {
        Some(BAD_REQUEST)
    }
}

/// The response with one still.
pub fn snapshot_response(jpeg: &[u8]) -> (r: Vec<u8>)
    ensures
        r@ == encode_utf8(open_head("image/jpeg"@, jpeg@.len())) + jpeg@,
{
    with_body(write_open_head("image/jpeg", jpeg.len()).as_str(), jpeg)
}

/// The response to a request for a segment: the segment, or that there is none.
pub fn segment_response(segment: Option<Vec<u8>>) -> (r: Vec<u8>)
    ensures
        r@ == match segment {
            Some(data) => encode_utf8(open_head("video/mp2t"@, data@.len())) + data@,
            None => encode_utf8(NO_SEGMENT@),
        },
{
    match segment {
        Some(data) => with_body(
            write_open_head("video/mp2t", data.len()).as_str(),
            data.as_slice(),
        ),
        None => {
            let r = with_body(NO_SEGMENT, &[]);
            assert(r@ =~= encode_utf8(NO_SEGMENT@));
            r
        },
    }
}

/// The response with the playlist, whose length is that of its bytes.
pub open spec fn playlist_reply(body: Seq<char>) -> Seq<char> {
    open_head("application/vnd.apple.mpegurl"@, encode_utf8(body).len()) + body
}

/// The response to a request for the playlist, `None` as long as it has to wait.
pub fn playlist_response(playlist: Playlist) -> (r: Option<String>)
    ensures
        match playlist {
            Playlist::Wait => r is None,
            Playlist::Unavailable => r is Some && r->0@ == NO_PLAYLIST@,
            Playlist::Ready(body) => r is Some && r->0@ == playlist_reply(body@),
        },
{
    match playlist {
        Playlist::Wait => None,
        Playlist::Unavailable => Some(NO_PLAYLIST.to_owned()),
        Playlist::Ready(body) => {
            let length = body.as_str().as_bytes().len();
            let mut r = write_open_head("application/vnd.apple.mpegurl", length);
            r.append(body.as_str());
            Some(r)
        },
    }
}

/// One still among many.
pub fn mjpeg_part(jpeg: &[u8]) -> (r: Vec<u8>)
    ensures
        r@ == encode_utf8(
            "--screamframe\r\nContent-Type: image/jpeg\r\nContent-Length: "@ + decimal(jpeg@.len())
                + "\r\n\r\n"@,
        ) + jpeg@ + line_end(),
{
    let mut head = "--screamframe\r\nContent-Type: image/jpeg\r\nContent-Length: ".to_owned();
    head.append(to_decimal(jpeg.len() as u64).as_str());
    head.append("\r\n\r\n");
    let mut r = with_body(head.as_str(), jpeg);
    let ghost part = r@;
    r.push(13);
    r.push(10);
    assert(r@ =~= part + line_end());
    r
}

/// The media type of a stream.
pub open spec fn media_type(container: Container) -> Seq<char> {
    match container {
        Container::Webm => "video/webm"@,
        Container::Matroska => "video/x-matroska"@,
        Container::MpegTs => "video/mp2t"@,
    }
}

/// The head of a stream: chunked, so that the response never ends and the client keeps playing
/// what arrives. Content-Length would be a lie here.
pub fn stream_head(container: Container) -> (r: String)
    ensures
        r@ == "HTTP/1.1 200 OK\r\nContent-Type: "@ + media_type(container)
            + "\r\nAccess-Control-Allow-Origin: *\r\nCache-Control: no-store\r\nTransfer-Encoding: chunked\r\nConnection: close\r\n\r\n"@,
{
    let content_type = match container {
        Container::Webm => "video/webm",
        Container::Matroska => "video/x-matroska",
        Container::MpegTs => "video/mp2t",
    };
    let mut r = "HTTP/1.1 200 OK\r\nContent-Type: ".to_owned();
    r.append(content_type);
    r.append(
        "\r\nAccess-Control-Allow-Origin: *\r\nCache-Control: no-store\r\nTransfer-Encoding: chunked\r\nConnection: close\r\n\r\n",
    );
    r
}

// ---------------------------------------------------------------------------
// Chunks

/// The bytes of ASCII text.
pub open spec fn ascii(text: Seq<char>) -> Seq<u8> {
    text.map_values(|c: char| c as u8)
}

/// A line end.
pub open spec fn line_end() -> Seq<u8> {
    seq![13u8, 10u8]
}

/// One chunk of a chunked response: the length in hexadecimal, and the data. Nothing at all for no
/// data, since an empty chunk would end the response.
pub open spec fn chunk_of(data: Seq<u8>) -> Seq<u8> {
    if data.len() == 0 {
        Seq::empty()
    } else {
        ascii(hex(data.len())) + line_end() + data + line_end()
    }
}

/// One chunk of a chunked response. Everything that was muxed in one turn goes into one chunk: one
/// write for each packet of 188 bytes would be a storm of system calls.
pub fn chunk(data: &[u8]) -> (r: Vec<u8>)
    ensures
        r@ == chunk_of(data@),
{
    let mut r: Vec<u8> = Vec::new();
    if data.len() == 0 {
        assert(r@ =~= chunk_of(data@));
        return r;
    }
    let size = chars_of(to_hex(data.len() as u64).as_str());
    let ghost head = ascii(hex(data@.len()));
    let mut i: usize = 0;
    while i < size.len()
        invariant
            i <= size.len(),
            size@ == hex(data@.len()),
            head == ascii(hex(data@.len())),
            r@ == head.take(i as int),
        decreases size.len() - i,
    {
        r.push(size[i] as u8);
        assert(r@ =~= head.take(i + 1));
        i += 1;
    }
    assert(r@ =~= head);
    r.push(13);
    r.push(10);
    assert(r@ =~= head + line_end());
    r.extend_from_slice(data);
    assert(r@ =~= head + line_end() + data@);
    r.push(13);
    r.push(10);
    assert(r@ =~= head + line_end() + data@ + line_end());
    r
}

/// The value of a hexadecimal digit.
pub open spec fn nibble(b: u8) -> nat {
    if 48 <= b <= 57 {
        (b - 48) as nat
    } else if 97 <= b <= 102 {
        (b - 87) as nat
    } else {
        0
    }
}

/// The value of a number in hexadecimal.
pub open spec fn hex_value(digits: Seq<u8>) -> nat
    decreases digits.len(),
{
    if digits.len() == 0 {
        0
    } else {
        hex_value(digits.drop_last()) * 16 + nibble(digits.last())
    }
}

/// How many bytes stand before the first carriage return.
pub open spec fn to_line_end(bytes: Seq<u8>) -> int
    decreases bytes.len(),
{
    if bytes.len() == 0 || bytes[0] == 13 {
        0
    } else {
        1 + to_line_end(bytes.drop_first())
    }
}

/// What a client makes of a chunked response: the data of its chunks, up to the empty one. `None`
/// where it breaks off before that.
pub open spec fn dechunked(bytes: Seq<u8>) -> Option<Seq<u8>>
    decreases bytes.len(),
{
    let digits = to_line_end(bytes);
    let size = hex_value(bytes.take(digits));
    let start = digits + 2;
    if digits < 0 || start + size + 2 > bytes.len() {
        None
    } else if size == 0 {
        Some(Seq::empty())
    } else {
        match dechunked(bytes.skip(start + size + 2)) {
            Some(rest) => Some(bytes.subrange(start, start + size) + rest),
            None => None,
        }
    }
}

/// The chunks for what the turns of a stream muxed.
pub open spec fn chunks(turns: Seq<Seq<u8>>) -> Seq<u8>
    decreases turns.len(),
{
    if turns.len() == 0 {
        Seq::empty()
    } else {
        chunk_of(turns[0]) + chunks(turns.drop_first())
    }
}

/// What the turns of a stream muxed, one after the other.
pub open spec fn muxed(turns: Seq<Seq<u8>>) -> Seq<u8>
    decreases turns.len(),
{
    if turns.len() == 0 {
        Seq::empty()
    } else {
        turns[0] + muxed(turns.drop_first())
    }
}

proof fn lemma_hex_bytes(n: nat)
    ensures
        ascii(hex(n)).len() > 0,
        hex_value(ascii(hex(n))) == n,
        forall|i: int| 0 <= i < ascii(hex(n)).len() ==> #[trigger] ascii(hex(n))[i] != 13,
    decreases n,
{
    let bytes = ascii(hex(n));
    if n < 16 {
        assert(bytes.drop_last() =~= Seq::empty());
        assert(hex_value(bytes.drop_last()) == 0);
        assert(nibble(bytes.last()) == n);
    } else {
        lemma_hex_bytes(n / 16);
        assert(bytes.drop_last() =~= ascii(hex(n / 16)));
        assert(nibble(bytes.last()) == n % 16);
        assert forall|i: int| 0 <= i < bytes.len() implies #[trigger] bytes[i] != 13 by {
            if i < bytes.len() - 1 {
                assert(bytes[i] == ascii(hex(n / 16))[i]);
            }
        }
    }
}

proof fn lemma_to_line_end(head: Seq<u8>, rest: Seq<u8>)
    requires
        forall|i: int| 0 <= i < head.len() ==> #[trigger] head[i] != 13,
        rest.len() > 0,
        rest[0] == 13,
    ensures
        to_line_end(head + rest) == head.len(),
    decreases head.len(),
{
    let all = head + rest;
    if head.len() > 0 {
        assert(all[0] == head[0]);
        assert(all.drop_first() =~= head.drop_first() + rest);
        assert forall|i: int| 0 <= i < head.drop_first().len() implies #[trigger] head.drop_first()[i]
            != 13 by {
            assert(head.drop_first()[i] == head[i + 1]);
        }
        lemma_to_line_end(head.drop_first(), rest);
    } else {
        assert(all[0] == rest[0]);
    }
}

/// A client gets back exactly what the stream muxed, whatever the turns were, and the response ends
/// where the stream does.
pub proof fn law_chunks_carry_the_stream(turns: Seq<Seq<u8>>)
    ensures
        dechunked(chunks(turns) + ascii(LAST_CHUNK@)) == Some(muxed(turns)),
    decreases turns.len(),
{
    let end = ascii(LAST_CHUNK@);
    let bytes = chunks(turns) + end;
    reveal_strlit("0\r\n\r\n");
    if turns.len() == 0 {
        assert(bytes =~= end);
        assert(end =~= seq![48u8, 13u8, 10u8, 13u8, 10u8]);
        assert(end =~= seq![48u8] + seq![13u8, 10u8, 13u8, 10u8]);
        lemma_to_line_end(seq![48u8], seq![13u8, 10u8, 13u8, 10u8]);
        let size = end.take(1);
        assert(size.drop_last() =~= Seq::empty());
        assert(hex_value(size.drop_last()) == 0);
        assert(nibble(size.last()) == 0);
    } else {
        let data = turns[0];
        let tail = chunks(turns.drop_first()) + end;
        law_chunks_carry_the_stream(turns.drop_first());
        if data.len() == 0 {
            assert(bytes =~= tail);
            assert(muxed(turns) =~= muxed(turns.drop_first()));
        } else {
            let head = ascii(hex(data.len()));
            let rest = line_end() + data + line_end() + tail;
            lemma_hex_bytes(data.len());
            assert(bytes =~= head + rest);
            lemma_to_line_end(head, rest);
            assert(bytes.take(head.len() as int) =~= head);
            let start = head.len() as int + 2;
            assert(bytes.subrange(start, start + data.len()) =~= data);
            assert(bytes.skip(start + data.len() + 2) =~= tail);
        }
    }
}

// ---------------------------------------------------------------------------
// Turns

/// The turns in a row without a frame after which a stream is given up.
pub const IDLE_TURNS: u32 = 200;

/// What became of the current frame in a turn.
#[derive(Debug, Clone, Copy, PartialEq, Eq, Structural)]
pub enum Fed {
    /// There is no frame yet.
    NoFrame,
    /// The encoder took it.
    Taken,
    /// The encoder did not take it.
    Rejected,
}

/// The count of turns in a row without a frame, after one more turn.
pub open spec fn counted(idle: nat, fed: Fed) -> nat {
    match fed {
        Fed::NoFrame => idle + 1,
        _ => 0,
    }
}

/// Whether a stream is given up in a turn, with so many turns in a row without a frame before it.
pub open spec fn gives_up(idle: nat, fed: Fed) -> bool {
    match fed {
        Fed::NoFrame => counted(idle, fed) > IDLE_TURNS,
        Fed::Taken => false,
        Fed::Rejected => true,
    }
}

/// The video half of one feeder turn: counts the turns in a row that had no frame. `Some(reason)`
/// when the stream cannot go on.
pub fn feed_turn(fed: Fed, idle: &mut u32) -> (r: Option<&'static str>)
    requires
        *old(idle) < u32::MAX,
    ensures
        *final(idle) == counted(*old(idle) as nat, fed),
        *final(idle) == match fed {
            Fed::NoFrame => *old(idle) + 1,
            _ => 0,
        },
        r is Some <==> gives_up(*old(idle) as nat, fed),
        match fed {
            Fed::NoFrame => if *old(idle) + 1 > IDLE_TURNS {
                r is Some && (r->0)@ == "no frames to stream, closing"@
            } else {
                r is None
            },
            Fed::Taken => r is None,
            Fed::Rejected => r is Some && (r->0)@ == "appsrc rejected a buffer, closing"@,
        },
{
    match fed {
        Fed::NoFrame => {
            *idle = *idle + 1;
            if *idle > IDLE_TURNS {
                Some("no frames to stream, closing")
            } else {
                None
            }
        },
        Fed::Taken => {
            *idle = 0;
            None
        },
        Fed::Rejected => {
            *idle = 0;
            Some("appsrc rejected a buffer, closing")
        },
    }
}

/// How many turns in a row had no frame, after these turns.
pub open spec fn idle_turns(turns: Seq<Fed>) -> nat
    decreases turns.len(),
{
    if turns.len() == 0 || turns.last() != Fed::NoFrame {
        0
    } else {
        idle_turns(turns.drop_last()) + 1
    }
}

/// Whether the last `n` turns had no frame.
pub open spec fn silent(turns: Seq<Fed>, n: nat) -> bool {
    &&& n <= turns.len()
    &&& forall|i: int| turns.len() - n <= i < turns.len() ==> #[trigger] turns[i] == Fed::NoFrame
}

/// A stream waits for its first frame, or for the next one, for exactly so many turns: the count
/// is above a limit once more turns than that have had no frame, and not before.
pub proof fn law_stream_waits_so_many_turns(turns: Seq<Fed>, limit: nat)
    ensures
        idle_turns(turns) > limit <==> silent(turns, limit + 1),
    decreases turns.len(),
{
    if turns.len() > 0 && turns.last() == Fed::NoFrame {
        let before = turns.drop_last();
        if limit > 0 {
            law_stream_waits_so_many_turns(before, (limit - 1) as nat);
            if silent(before, limit) {
                assert forall|i: int|
                    turns.len() - (limit + 1) <= i < turns.len() implies #[trigger] turns[i]
                    == Fed::NoFrame by {
                    if i < before.len() {
                        assert(before[i] == turns[i]);
                    }
                }
            }
            if silent(turns, limit + 1) {
                assert forall|i: int| before.len() - limit <= i < before.len() implies #[trigger]
                before[i] == Fed::NoFrame by {
                    assert(before[i] == turns[i]);
                }
            }
        }
    } else if turns.len() > 0 {
        assert(turns[turns.len() - 1] != Fed::NoFrame);
    }
}

/// The audio half of one feeder turn.
pub fn feed_audio(taken: bool) -> (r: Option<&'static str>)
    ensures
        if taken {
            r is None
        } else {
            r is Some && (r->0)@ == "audio appsrc rejected a buffer, closing"@
        },
{
    if taken {
        None
    } else {
        Some("audio appsrc rejected a buffer, closing")
    }
}

/// The still that a snapshot request is sent, or what it does without one.
#[derive(Debug, Clone, Copy, PartialEq, Eq, Structural)]
pub enum Still {
    /// There is one.
    Send,
    /// Try again in a tenth of a second.
    Retry,
    /// There will be none.
    GiveUp,
}

/// How often a snapshot request asks for a still.
pub const SNAPSHOT_TRIES: u32 = 40;

/// What a snapshot request does after so many tries before this one.
pub fn snapshot_turn(tries: u32, encoded: bool) -> (r: Still)
    ensures
        r == if encoded && tries < SNAPSHOT_TRIES {
            Still::Send
        } else if tries + 1 < SNAPSHOT_TRIES {
            Still::Retry
        } else {
            Still::GiveUp
        },
{
    if encoded && tries < SNAPSHOT_TRIES {
        Still::Send
    } else if tries < SNAPSHOT_TRIES - 1 {
        Still::Retry
    } else {
        Still::GiveUp
    }
}

// ---------------------------------------------------------------------------
// Laws

/// A stream is given up exactly when the encoder refuses a frame, or when the turn is the 201st in
/// a row without one. The count is that of such turns.
pub proof fn law_stream_is_given_up(turns: Seq<Fed>, fed: Fed)
    ensures
        idle_turns(turns.push(fed)) == counted(idle_turns(turns), fed),
        gives_up(idle_turns(turns), fed) <==> fed == Fed::Rejected || silent(
            turns.push(fed),
            201,
        ),
{
    let all = turns.push(fed);
    assert(all.drop_last() =~= turns);
    law_stream_waits_so_many_turns(all, 200);
    if fed == Fed::Rejected || fed == Fed::Taken {
        assert(all[all.len() - 1] == fed);
    }
}

/// A snapshot request asks forty times at most: it is sent the still as soon as there is one, and
/// gives up only after the last.
pub proof fn law_snapshot_is_tried_forty_times(tries: u32, encoded: bool, r: Still)
    requires
        call_ensures(snapshot_turn, (tries, encoded), r),
    ensures
        r == Still::Send <==> encoded && tries <= 39,
        r == Still::Retry <==> !encoded && tries <= 38,
        r == Still::GiveUp <==> tries >= 40 || (!encoded && tries == 39),
{
}

/// The connection is kept exactly after the responses that come to an end and say so: the scrape,
/// the playlist, a segment, and a still that was sent.
pub proof fn law_connection_is_kept(route: Route, still: bool, r: HttpNext)
    requires
        call_ensures(next_after, (route, still), r),
    ensures
        r == HttpNext::KeepAlive <==> route == Route::Metrics || route == Route::Playlist || route
            is Segment || (route == Route::Snapshot && still),
        holds(METHOD_NOT_ALLOWED@, "\r\nConnection: close\r\n\r\n"@),
        holds(NOT_FOUND@, "\r\nConnection: close\r\n\r\n"@),
        holds(NO_FRAME@, "\r\nConnection: close\r\n\r\n"@),
        holds(NO_PLAYLIST@, "\r\nConnection: keep-alive\r\n\r\n"@),
        holds(NO_SEGMENT@, "\r\nConnection: keep-alive\r\n\r\n"@),
        forall|body: Seq<char>|
            holds(#[trigger] metrics_text(body), "\r\nConnection: keep-alive\r\n\r\n"@),
        forall|content_type: Seq<char>, length: nat|
            holds(
                #[trigger] open_head(content_type, length),
                "\r\nConnection: keep-alive\r\n\r\n"@,
            ),
{
    lemma_closing_heads();
    lemma_keeping_heads();
    let kept = "\r\nConnection: keep-alive\r\n\r\n"@;
    assert forall|body: Seq<char>| holds(#[trigger] metrics_text(body), kept) by {
        law_metrics_response(body);
        let n = decimal(encode_utf8(body).len());
        let head =
            "HTTP/1.1 200 OK\r\nContent-Type: text/plain; version=0.0.4\r\nContent-Length: "@ + n;
        law_holds(head, kept, body);
    }
    assert forall|content_type: Seq<char>, length: nat|
        holds(#[trigger] open_head(content_type, length), kept) by {
        let head = "HTTP/1.1 200 OK\r\nContent-Type: "@ + content_type
            + "\r\nAccess-Control-Allow-Origin: *\r\nCache-Control: no-store\r\nContent-Length: "@
            + decimal(length);
        law_holds(head, kept, Seq::empty());
    }
}

proof fn lemma_closing_heads()
    ensures
        holds(METHOD_NOT_ALLOWED@, "\r\nConnection: close\r\n\r\n"@),
        holds(NOT_FOUND@, "\r\nConnection: close\r\n\r\n"@),
        holds(NO_FRAME@, "\r\nConnection: close\r\n\r\n"@),
{
    let close = "\r\nConnection: close\r\n\r\n"@;
    reveal_strlit("\r\nConnection: close\r\n\r\n");
    assert(close.len() == 23);
    assert(holds(METHOD_NOT_ALLOWED@, close)) by {
        reveal_strlit(
            "HTTP/1.1 405 Method Not Allowed\r\nContent-Length: 0\r\nConnection: close\r\n\r\n",
        );
        let n = METHOD_NOT_ALLOWED@.len() - 23;
        assert(METHOD_NOT_ALLOWED@.subrange(n, n + 23) =~= close);
    }
    assert(holds(NOT_FOUND@, close)) by {
        reveal_strlit("HTTP/1.1 404 Not Found\r\nContent-Length: 0\r\nConnection: close\r\n\r\n");
        let n = NOT_FOUND@.len() - 23;
        assert(NOT_FOUND@.subrange(n, n + 23) =~= close);
    }
    assert(holds(NO_FRAME@, close)) by {
        reveal_strlit(
            "HTTP/1.1 503 Service Unavailable\r\nContent-Length: 0\r\nConnection: close\r\n\r\n",
        );
        let n = NO_FRAME@.len() - 23;
        assert(NO_FRAME@.subrange(n, n + 23) =~= close);
    }
}

proof fn lemma_keeping_heads()
    ensures
        holds(NO_PLAYLIST@, "\r\nConnection: keep-alive\r\n\r\n"@),
        holds(NO_SEGMENT@, "\r\nConnection: keep-alive\r\n\r\n"@),
{
    let kept = "\r\nConnection: keep-alive\r\n\r\n"@;
    reveal_strlit("\r\nConnection: keep-alive\r\n\r\n");
    assert(kept.len() == 28);
    assert(holds(NO_PLAYLIST@, kept)) by {
        reveal_strlit(
            "HTTP/1.1 503 Service Unavailable\r\nRetry-After: 2\r\nContent-Length: 0\r\nConnection: keep-alive\r\n\r\n",
        );
        let n = NO_PLAYLIST@.len() - 28;
        assert(NO_PLAYLIST@.subrange(n, n + 28) =~= kept);
    }
    assert(holds(NO_SEGMENT@, kept)) by {
        reveal_strlit(
            "HTTP/1.1 404 Not Found\r\nContent-Length: 0\r\nConnection: keep-alive\r\n\r\n",
        );
        let n = NO_SEGMENT@.len() - 28;
        assert(NO_SEGMENT@.subrange(n, n + 28) =~= kept);
    }
}

/// Each stream that the exposition shows is counted on its own counter, and nothing else is counted.
pub proof fn law_counters(counters: &Counters, route: Route, r: Option<&AtomicI64>)
    requires
        call_ensures(client_counter, (counters, route), r),
    ensures
        r is Some <==> route == Route::Snapshot || route == Route::Mjpeg || route == Route::Stream(
            Container::Webm,
        ) || route == Route::Stream(Container::Matroska),
        route == Route::Snapshot ==> r->0 == &counters.snapshot,
        route == Route::Mjpeg ==> r->0 == &counters.mjpeg,
        route == Route::Stream(Container::Webm) ==> r->0 == &counters.webm,
        route == Route::Stream(Container::Matroska) ==> r->0 == &counters.mkv,
{
}

/// A request that could not be read is answered exactly if something of it came and in time, and a
/// request that was read is refused exactly if nothing is served for it.
pub proof fn law_refusals(
    received: usize,
    timed_out: bool,
    rejected: Option<&'static str>,
    route: Route,
    refused: Option<&'static str>,
)
    requires
        call_ensures(rejection, (received, timed_out), rejected),
        call_ensures(refusal, (route,), refused),
    ensures
        rejected is Some <==> received >= 1 && !timed_out,
        rejected is Some ==> (rejected->0)@ == BAD_REQUEST@,
        refused is Some <==> route == Route::NotAllowed || route == Route::NotFound,
        route == Route::NotAllowed ==> (refused->0)@ == METHOD_NOT_ALLOWED@,
        route == Route::NotFound ==> (refused->0)@ == NOT_FOUND@,
{
}

/// The response to a scrape says how many bytes its body has, and ends with it.
pub proof fn law_metrics_response(body: Seq<char>)
    ensures
        body.is_suffix_of(metrics_text(body)),
        holds(
            metrics_text(body),
            "\r\nContent-Length: "@ + decimal(encode_utf8(body).len())
                + "\r\nConnection: keep-alive\r\n\r\n"@,
        ),
{
    let text = metrics_text(body);
    assert(body =~= text.subrange(text.len() - body.len(), text.len() as int));
    let n = decimal(encode_utf8(body).len());
    let start = "HTTP/1.1 200 OK\r\nContent-Type: text/plain; version=0.0.4\r\nContent-Length: "@;
    let front = "HTTP/1.1 200 OK\r\nContent-Type: text/plain; version=0.0.4"@;
    let length = "\r\nContent-Length: "@;
    let kept = "\r\nConnection: keep-alive\r\n\r\n"@;
    assert(start == front + length) by {
        reveal_strlit(
            "HTTP/1.1 200 OK\r\nContent-Type: text/plain; version=0.0.4\r\nContent-Length: ",
        );
        reveal_strlit("HTTP/1.1 200 OK\r\nContent-Type: text/plain; version=0.0.4");
        reveal_strlit("\r\nContent-Length: ");
        assert(start =~= front + length);
    }
    lemma_join(front, length, n);
    lemma_join(front, length + n, kept);
    law_holds(front, length + n + kept, body);
}

/// A head says what follows it and how many bytes of it.
pub proof fn law_open_head(content_type: Seq<char>, length: nat)
    ensures
        ("HTTP/1.1 200 OK\r\nContent-Type: "@ + content_type
            + "\r\nAccess-Control-Allow-Origin: *\r\n"@).is_prefix_of(
            open_head(content_type, length),
        ),
        ("\r\nContent-Length: "@ + decimal(length)
            + "\r\nConnection: keep-alive\r\n\r\n"@).is_suffix_of(open_head(content_type, length)),
{
    let n = decimal(length);
    let ok = "HTTP/1.1 200 OK\r\nContent-Type: "@;
    let middle =
        "\r\nAccess-Control-Allow-Origin: *\r\nCache-Control: no-store\r\nContent-Length: "@;
    let cors = "\r\nAccess-Control-Allow-Origin: *\r\n"@;
    let store = "Cache-Control: no-store"@;
    let size = "\r\nContent-Length: "@;
    let kept = "\r\nConnection: keep-alive\r\n\r\n"@;
    assert(middle == cors + (store + size)) by {
        reveal_strlit(
            "\r\nAccess-Control-Allow-Origin: *\r\nCache-Control: no-store\r\nContent-Length: ",
        );
        reveal_strlit("\r\nAccess-Control-Allow-Origin: *\r\n");
        reveal_strlit("Cache-Control: no-store");
        reveal_strlit("\r\nContent-Length: ");
        assert(middle =~= cors + (store + size));
    }
    let head = open_head(content_type, length);
    let front = ok + content_type + cors;
    let back = size + n + kept;
    lemma_join(ok + content_type, cors, store + size);
    lemma_join(front, store, size);
    lemma_join(front + store, size, n);
    lemma_join(front + store, size + n, kept);
    assert(head == front + store + back);
    assert(front =~= head.subrange(0, front.len() as int));
    assert(back =~= head.subrange(head.len() - back.len(), head.len() as int));
}

/// A still and a segment follow a head that says their type and their length; a segment that is
/// gone is not found.
pub proof fn law_still_and_segment(
    jpeg: &[u8],
    still: Vec<u8>,
    part: Vec<u8>,
    segment: Option<Vec<u8>>,
    sent: Vec<u8>,
)
    requires
        call_ensures(snapshot_response, (jpeg,), still),
        call_ensures(mjpeg_part, (jpeg,), part),
        call_ensures(segment_response, (segment,), sent),
    ensures
        still@ == encode_utf8(open_head("image/jpeg"@, jpeg@.len())) + jpeg@,
        (jpeg@ + seq![13u8, 10u8]).is_suffix_of(part@),
        segment is None ==> sent@ == encode_utf8(NO_SEGMENT@),
        segment matches Some(data) ==> data@.is_suffix_of(sent@) && encode_utf8(
            open_head("video/mp2t"@, data@.len()),
        ).is_prefix_of(sent@),
{
    let tail = jpeg@ + seq![13u8, 10u8];
    let p = part@;
    assert(tail =~= p.subrange(p.len() - tail.len(), p.len() as int));
    if let Some(data) = segment {
        let head = encode_utf8(open_head("video/mp2t"@, data@.len()));
        let s = sent@;
        assert(data@ =~= s.subrange(s.len() - data@.len(), s.len() as int));
        assert(head =~= s.subrange(0, head.len() as int));
    }
}

/// A playlist that is ready is sent with its length in bytes; one that will not come is refused, and
/// one that may come is waited for.
pub proof fn law_playlist_response(playlist: Playlist, r: Option<String>)
    requires
        call_ensures(playlist_response, (playlist,), r),
    ensures
        r is None <==> playlist is Wait,
        playlist is Unavailable ==> (r->0)@ == NO_PLAYLIST@,
        playlist matches Playlist::Ready(body) ==> body@.is_suffix_of((r->0)@) && open_head(
            "application/vnd.apple.mpegurl"@,
            encode_utf8(body@).len(),
        ).is_prefix_of((r->0)@),
{
    if let Playlist::Ready(body) = playlist {
        let head = open_head("application/vnd.apple.mpegurl"@, encode_utf8(body@).len());
        let s = (r->0)@;
        assert(body@ =~= s.subrange(s.len() - body@.len(), s.len() as int));
        assert(head =~= s.subrange(0, head.len() as int));
    }
}

proof fn lemma_no_segment_path(path: Seq<char>)
    requires
        path.len() < 5 || path[1] != 'h',
    ensures
        hls::seq_named(path) is None,
{
    reveal_strlit("/hls/");
    if "/hls/"@.is_prefix_of(path) {
        assert("/hls/"@[1] == path.subrange(0, 5)[1]);
    }
}

/// The paths, and their second characters, which tell most of them apart.
proof fn lemma_paths()
    ensures
        "/metrics"@.len() == 8 && "/metrics"@[1] == 'm',
        "/hls/stream.m3u8"@.len() == 16 && "/hls/stream.m3u8"@[1] == 'h',
        "/snapshot"@.len() == 9 && "/snapshot"@[1] == 's',
        "/screenshot"@.len() == 11 && "/screenshot"@[1] == 's' && "/screenshot"@[2] == 'c',
        "/"@.len() == 1,
        "/webm"@.len() == 5 && "/webm"@[1] == 'w',
        "/stream.mkv"@.len() == 11 && "/stream.mkv"@[1] == 's' && "/stream.mkv"@[2] == 't',
        "/stream.ts"@.len() == 10 && "/stream.ts"@[1] == 's',
        "/mjpeg"@.len() == 6 && "/mjpeg"@[1] == 'm',
{
    reveal_strlit("/metrics");
    reveal_strlit("/hls/stream.m3u8");
    reveal_strlit("/snapshot");
    reveal_strlit("/screenshot");
    reveal_strlit("/");
    reveal_strlit("/webm");
    reveal_strlit("/stream.mkv");
    reveal_strlit("/stream.ts");
    reveal_strlit("/mjpeg");
}

/// Each path is served what it names, and by GET alone; the dlna endpoints take every method. A
/// path that names nothing is not found.
pub proof fn law_routes(method: Seq<char>, path: Seq<char>)
    ensures
        ({
            let r = routed(method, path);
            let dlna = path.len() >= 6 && path.take(6) == seq!['/', 'd', 'l', 'n', 'a', '/'];
            let get = !dlna && method == "GET"@;
            &&& r == Route::Dlna <==> dlna
            &&& r == Route::NotAllowed <==> !dlna && method != "GET"@
            &&& r == Route::Metrics <==> get && path == "/metrics"@
            &&& r == Route::Playlist <==> get && path == "/hls/stream.m3u8"@
            &&& r is Segment <==> get && hls::seq_named(path) is Some
            &&& r is Segment ==> r->Segment_0 == hls::seq_named(path)->0
            &&& r == Route::Snapshot <==> get && (path == "/snapshot"@ || path == "/screenshot"@)
            &&& r == Route::Stream(Container::Webm) <==> get && (path == "/"@ || path == "/webm"@)
            &&& r == Route::Stream(Container::Matroska) <==> get && path == "/stream.mkv"@
            &&& r == Route::Stream(Container::MpegTs) <==> get && path == "/stream.ts"@
            &&& r == Route::Mjpeg <==> get && path == "/mjpeg"@
        }),
{
    let prefix = seq!['/', 'd', 'l', 'n', 'a', '/'];
    assert("/dlna/"@ == prefix) by {
        reveal_strlit("/dlna/");
        assert("/dlna/"@ =~= prefix);
    }
    if path.len() >= 6 {
        assert(path.take(6) =~= path.subrange(0, 6));
        assert(path.take(6)[1] == path[1]);
    }
    lemma_paths();
    hls::law_playlist_is_no_segment();
    if path.len() < 5 || path[1] != 'h' {
        lemma_no_segment_path(path);
    }
    if hls::seq_named(path) is Some {
        lemma_named_fits(path);
    }
}

proof fn lemma_named_fits(path: Seq<char>)
    requires
        hls::seq_named(path) is Some,
    ensures
        hls::seq_named(path)->0 <= u64::MAX,
{
}

/// A query in the target changes nothing.
pub proof fn law_query_does_not_matter(path: Seq<char>, query: Seq<char>)
    requires
        !path.contains('?'),
    ensures
        before(path.push('?') + query, '?') == path,
        before(path, '?') == path,
{
    law_split_at_first(path, '?', query);
}

/// The bytes of ASCII text are those that it is encoded with.
pub proof fn law_ascii(text: Seq<char>)
    requires
        is_ascii_chars(text),
    ensures
        ascii(text) == encode_utf8(text),
{
    is_ascii_chars_encode_utf8(text);
    assert(ascii(text) =~= encode_utf8(text));
}

/// The head of a stream names its media type, and says that it comes in chunks and ends with the
/// connection.
pub proof fn law_stream_head(container: Container, r: String)
    requires
        call_ensures(stream_head, (container,), r),
    ensures
        ("HTTP/1.1 200 OK\r\nContent-Type: "@ + (if container == Container::Webm {
            "video/webm"@
        } else if container == Container::Matroska {
            "video/x-matroska"@
        } else {
            "video/mp2t"@
        }) + "\r\nAccess-Control-Allow-Origin: *\r\n"@).is_prefix_of(r@),
        "\r\nTransfer-Encoding: chunked\r\nConnection: close\r\n\r\n"@.is_suffix_of(r@),
{
    let ok = "HTTP/1.1 200 OK\r\nContent-Type: "@;
    let kind = media_type(container);
    let tail =
        "\r\nAccess-Control-Allow-Origin: *\r\nCache-Control: no-store\r\nTransfer-Encoding: chunked\r\nConnection: close\r\n\r\n"@;
    let cors = "\r\nAccess-Control-Allow-Origin: *\r\n"@;
    let store = "Cache-Control: no-store"@;
    let end = "\r\nTransfer-Encoding: chunked\r\nConnection: close\r\n\r\n"@;
    assert(tail == cors + (store + end)) by {
        reveal_strlit(
            "\r\nAccess-Control-Allow-Origin: *\r\nCache-Control: no-store\r\nTransfer-Encoding: chunked\r\nConnection: close\r\n\r\n",
        );
        reveal_strlit("\r\nAccess-Control-Allow-Origin: *\r\n");
        reveal_strlit("Cache-Control: no-store");
        reveal_strlit("\r\nTransfer-Encoding: chunked\r\nConnection: close\r\n\r\n");
        assert(tail =~= cors + (store + end));
    }
    let front = ok + kind + cors;
    lemma_join(ok + kind, cors, store + end);
    lemma_join(front, store, end);
    assert(r@ == front + store + end);
    assert(front =~= r@.subrange(0, front.len() as int));
    assert(end =~= r@.subrange(r@.len() - end.len(), r@.len() as int));
}

/// The audio half of a turn ends a stream exactly if a buffer was not taken.
pub proof fn law_audio_that_is_not_taken_ends_the_stream(taken: bool, r: Option<&'static str>)
    requires
        call_ensures(feed_audio, (taken,), r),
    ensures
        r is None <==> taken,
{
}

} // verus!
