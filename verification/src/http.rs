//! The tiny HTTP request reader shared by the stream server and the DLNA endpoints. Only what is
//! needed to route a request: a start line, folded header names, and a length-bounded body.
use crate::numbers::{decimal, law_decimal_round_trip, number, parse_u64};
use crate::text::{
    after, after_word, before, decode, law_no_word, law_split_at_first, law_trim_end_behind,
    law_trim_twice, law_word, lemma_join, lemma_trim_end, lowercase, next_word, same, split_before,
    split_once, to_lowercase, trim, trim_end, trimmed, trimmed_end, white, word,
};
use vstd::prelude::*;
use vstd::slice::{slice_subrange, slice_to_vec};
use vstd::string::*;
use vstd::utf8::{decode_utf8, valid_utf8};

verus! {

/// The longest body that is read.
pub const MAX_BODY: usize = 65536;

/// One HTTP request.
pub struct Request {
    pub method: String,
    pub target: String,
    /// Header names are lowercased, values keep their case.
    pub headers: Vec<(String, String)>,
    pub body: Vec<u8>,
}

/// A list of headers as text.
pub type HeaderSeq = Seq<(Seq<char>, Seq<char>)>;

/// What a request says.
pub struct RequestText {
    pub method: Seq<char>,
    pub target: Seq<char>,
    pub headers: HeaderSeq,
    pub body: Seq<u8>,
}

/// The text of a list of headers.
pub open spec fn headers_text(headers: Seq<(String, String)>) -> HeaderSeq {
    headers.map_values(|h: (String, String)| (h.0@, h.1@))
}

impl View for Request {
    type V = RequestText;

    open spec fn view(&self) -> RequestText {
        RequestText {
            method: self.method@,
            target: self.target@,
            headers: headers_text(self.headers@),
            body: self.body@,
        }
    }
}

/// The value of the first header with the given name.
pub open spec fn header_named(headers: HeaderSeq, name: Seq<char>) -> Option<Seq<char>>
    decreases headers.len(),
{
    if headers.len() == 0 {
        None
    } else if headers.first().0 == name {
        Some(headers.first().1)
    } else {
        header_named(headers.drop_first(), name)
    }
}

/// The value of the first header in the list with the given name.
pub fn find_header<'a>(headers: &'a [(String, String)], name: &str) -> (r: Option<&'a str>)
    ensures
        match r {
            Some(v) => header_named(headers_text(headers@), name@) == Some(v@),
            None => header_named(headers_text(headers@), name@) is None,
        },
{
    let ghost hs = headers_text(headers@);
    let mut i: usize = 0;
    assert(hs.skip(0) =~= hs);
    while i < headers.len()
        invariant
            i <= headers.len(),
            hs == headers_text(headers@),
            header_named(hs.skip(i as int), name@) == header_named(hs, name@),
        decreases headers.len() - i,
    {
        assert(hs.skip(i as int).first() == hs[i as int]);
        assert(hs.skip(i as int).drop_first() =~= hs.skip(i + 1));
        if same(headers[i].0.as_str(), name) {
            return Some(headers[i].1.as_str());
        }
        i += 1;
    }
    None
}

/// The length of the body that the headers announce: the number in the first `content-length`,
/// nothing where it is no number, and never more than `MAX_BODY`.
pub open spec fn body_length(headers: HeaderSeq) -> nat {
    match header_named(headers, "content-length"@) {
        Some(v) => match number(v, usize::MAX as nat) {
            Some(n) => if n <= MAX_BODY {
                n
            } else {
                MAX_BODY as nat
            },
            None => 0,
        },
        None => 0,
    }
}

fn announced_length(headers: &[(String, String)]) -> (n: usize)
    ensures
        n == body_length(headers_text(headers@)),
{
    match find_header(headers, "content-length") {
        Some(v) => match parse_u64(v) {
            Some(n) => {
                if n > usize::MAX as u64 {
                    0
                } else if n as usize <= MAX_BODY {
                    n as usize
                } else {
                    MAX_BODY
                }
            },
            None => 0,
        },
        None => 0,
    }
}

// ---------------------------------------------------------------------------
// Reading a request line by line

/// How far the reading of a request has come.
pub enum Progress {
    /// Nothing has been read.
    Start,
    /// The start line and some headers have been read.
    Headers { method: Seq<char>, target: Seq<char>, headers: HeaderSeq },
    /// The headers are complete, the body follows.
    Body { method: Seq<char>, target: Seq<char>, headers: HeaderSeq },
    /// What was read is no request.
    Rejected,
}

/// The method and the target that a start line names: its first two words.
pub open spec fn start_line(line: Seq<char>) -> Option<(Seq<char>, Seq<char>)> {
    let target = word(after_word(line));
    if word(line).len() > 0 && target.len() > 0 {
        Some((word(line), target))
    } else {
        None
    }
}

/// The header that a line holds: name and value, without white space around them, the name in
/// lower case. A line without a colon holds none.
pub open spec fn header_line(line: Seq<char>) -> HeaderSeq {
    if line.contains(':') {
        seq![(lowercase(trim(before(line, ':'))), trim(after(line, ':')))]
    } else {
        Seq::empty()
    }
}

/// What one more line makes of the reading. A line that is empty but for white space ends the
/// headers.
pub open spec fn read_line(progress: Progress, line: Seq<u8>) -> Progress {
    if !valid_utf8(line) {
        Progress::Rejected
    } else {
        match progress {
            Progress::Start => match start_line(decode_utf8(line)) {
                Some((method, target)) => Progress::Headers {
                    method,
                    target,
                    headers: Seq::empty(),
                },
                None => Progress::Rejected,
            },
            Progress::Headers { method, target, headers } => {
                let text = trim_end(decode_utf8(line));
                if text.len() == 0 {
                    Progress::Body { method, target, headers }
                } else {
                    Progress::Headers { method, target, headers: headers + header_line(text) }
                }
            },
            other => other,
        }
    }
}

enum Phase {
    Start,
    Headers,
    Body,
    Rejected,
}

/// What a [`RequestReader`] waits for.
#[derive(Debug, Clone, Copy, PartialEq, Eq, Structural)]
pub enum Want {
    /// The next line, with its line feed, or nothing at the end of the input.
    Line,
    /// The body, of this many bytes.
    Body(usize),
    /// Nothing: what was read is no request.
    Nothing,
}

/// Reads a request from lines as they arrive.
pub struct RequestReader {
    phase: Phase,
    method: String,
    target: String,
    headers: Vec<(String, String)>,
}

impl View for RequestReader {
    type V = Progress;

    closed spec fn view(&self) -> Progress {
        let method = self.method@;
        let target = self.target@;
        let headers = headers_text(self.headers@);
        match self.phase {
            Phase::Start => Progress::Start,
            Phase::Headers => Progress::Headers { method, target, headers },
            Phase::Body => Progress::Body { method, target, headers },
            Phase::Rejected => Progress::Rejected,
        }
    }
}

/// Copies of the first two words of a start line.
fn split_start_line(line: &str) -> (r: Option<(String, String)>)
    ensures
        match r {
            Some(parts) => start_line(line@) == Some((parts.0@, parts.1@)),
            None => start_line(line@) is None,
        },
{
    match next_word(line) {
        Some((method, rest)) => match next_word(rest) {
            Some((target, _)) => Some((method.to_owned(), target.to_owned())),
            None => None,
        },
        None => None,
    }
}

/// Copies of the name and the value in a header line.
fn split_header(line: &str) -> (r: Option<(String, String)>)
    ensures
        match r {
            Some(parts) => header_line(line@) == seq![(parts.0@, parts.1@)],
            None => header_line(line@) == Seq::<(Seq<char>, Seq<char>)>::empty(),
        },
{
    match split_once(line, ':') {
        Some((name, value)) => {
            let folded = to_lowercase(trimmed(name));
            Some((folded, trimmed(value).to_owned()))
        },
        None => None,
    }
}

impl RequestReader {
    /// A reader that has read nothing.
    pub fn new() -> (r: RequestReader)
        ensures
            r@ == Progress::Start,
    {
        RequestReader {
            phase: Phase::Start,
            method: String::new(),
            target: String::new(),
            headers: Vec::new(),
        }
    }

    /// What the reader waits for.
    pub fn want(&self) -> (w: Want)
        ensures
            match self@ {
                Progress::Start => w == Want::Line,
                Progress::Headers { .. } => w == Want::Line,
                Progress::Body { headers, .. } => w == Want::Body(body_length(headers) as usize),
                Progress::Rejected => w == Want::Nothing,
            },
    {
        match self.phase {
            Phase::Start => Want::Line,
            Phase::Headers => Want::Line,
            Phase::Body => Want::Body(announced_length(self.headers.as_slice())),
            Phase::Rejected => Want::Nothing,
        }
    }

    /// Takes the next line, with its line feed where it has one.
    pub fn line(&mut self, line: &[u8])
        ensures
            final(self)@ == read_line(old(self)@, line@),
    {
        let text = match decode(line) {
            Some(text) => text,
            None => {
                self.phase = Phase::Rejected;
                return ;
            },
        };
        match self.phase {
            Phase::Start => match split_start_line(text) {
                Some((method, target)) => {
                    self.method = method;
                    self.target = target;
                    self.headers = Vec::new();
                    self.phase = Phase::Headers;
                    assert(headers_text(self.headers@) =~= Seq::empty());
                },
                None => {
                    self.phase = Phase::Rejected;
                },
            },
            Phase::Headers => {
                let header = trimmed_end(text);
                if header.is_empty() {
                    self.phase = Phase::Body;
                } else {
                    match split_header(header) {
                        Some(pair) => {
                            self.headers.push(pair);
                            assert(headers_text(self.headers@) =~= headers_text(old(self).headers@)
                                + header_line(header@));
                        },
                        None => {
                            assert(headers_text(self.headers@) =~= headers_text(old(self).headers@)
                                + header_line(header@));
                        },
                    }
                }
            },
            Phase::Body => {},
            Phase::Rejected => {},
        }
    }

    /// The request that the lines and the body make. `None` where the headers are not complete or
    /// the body is not of the length that they announce.
    pub fn finish(self, body: Vec<u8>) -> (r: Option<Request>)
        ensures
            match self@ {
                Progress::Body { method, target, headers } => if body@.len() == body_length(
                    headers,
                ) {
                    r is Some && r->0@ == (RequestText { method, target, headers, body: body@ })
                } else {
                    r is None
                },
                _ => r is None,
            },
    {
        match self.phase {
            Phase::Body => {
                if body.len() != announced_length(self.headers.as_slice()) {
                    return None;
                }
                Some(
                    Request {
                        method: self.method,
                        target: self.target,
                        headers: self.headers,
                        body,
                    },
                )
            },
            _ => None,
        }
    }
}

// ---------------------------------------------------------------------------
// A whole request

/// The length of the first line of the input, its line feed included.
pub open spec fn line_length(input: Seq<u8>) -> int
    decreases input.len(),
{
    if input.len() == 0 {
        0
    } else if input.first() == 10 {
        1
    } else {
        1 + line_length(input.drop_first())
    }
}

/// A line is part of the input, and not empty where the input is not.
pub proof fn lemma_line_length(input: Seq<u8>)
    ensures
        0 <= line_length(input) <= input.len(),
        input.len() > 0 ==> line_length(input) > 0,
    decreases input.len(),
{
    if input.len() > 0 && input.first() != 10 {
        lemma_line_length(input.drop_first());
    }
}

/// An empty line names no request and ends the headers.
pub proof fn lemma_no_words_in_nothing()
    ensures
        start_line(decode_utf8(Seq::empty())) is None,
        trim_end(decode_utf8(Seq::empty())).len() == 0,
        valid_utf8(Seq::empty()),
{
    let none = Seq::<u8>::empty();
    assert(decode_utf8(none) =~= Seq::<char>::empty());
}

/// What the rest of the input makes of a reading: lines up to the end of the headers, then the
/// body. The end of the input counts as an empty line; a body that is cut short is no request.
pub open spec fn read_rest(progress: Progress, input: Seq<u8>) -> Option<RequestText>
    decreases
            input.len(),
            match progress {
                Progress::Start => 1nat,
                Progress::Headers { .. } => 1nat,
                _ => 0nat,
            },
{
    match progress {
        Progress::Rejected => None,
        Progress::Body { method, target, headers } => {
            let length = body_length(headers) as int;
            if input.len() < length {
                None
            } else {
                Some(RequestText { method, target, headers, body: input.take(length) })
            }
        },
        _ => {
            let length = line_length(input);
            proof {
                lemma_line_length(input);
                lemma_no_words_in_nothing();
                assert(input.len() == 0 ==> input.take(length) =~= Seq::empty());
            }
            read_rest(read_line(progress, input.take(length)), input.skip(length))
        },
    }
}

/// The request at the start of the input.
pub open spec fn request(input: Seq<u8>) -> Option<RequestText> {
    read_rest(Progress::Start, input)
}

/// How many bytes of the rest of the input a reading uses up.
pub open spec fn used_rest(progress: Progress, input: Seq<u8>) -> int
    decreases
            input.len(),
            match progress {
                Progress::Start => 1nat,
                Progress::Headers { .. } => 1nat,
                _ => 0nat,
            },
{
    match progress {
        Progress::Rejected => 0,
        Progress::Body { headers, .. } => body_length(headers) as int,
        _ => {
            let length = line_length(input);
            proof {
                lemma_line_length(input);
                lemma_no_words_in_nothing();
                assert(input.len() == 0 ==> input.take(length) =~= Seq::empty());
            }
            length + used_rest(read_line(progress, input.take(length)), input.skip(length))
        },
    }
}

/// How many bytes the request at the start of the input takes up.
pub open spec fn used(input: Seq<u8>) -> int {
    used_rest(Progress::Start, input)
}

/// The length of the first line from index `from` on.
fn next_line(input: &[u8], from: usize) -> (end: usize)
    requires
        from <= input.len(),
    ensures
        from <= end <= input.len(),
        end - from == line_length(input@.skip(from as int)),
{
    let mut end: usize = from;
    while end < input.len()
        invariant
            from <= end <= input.len(),
            line_length(input@.skip(from as int)) == end - from + line_length(
                input@.skip(end as int),
            ),
        decreases input.len() - end,
    {
        let ghost rest = input@.skip(end as int);
        assert(rest.drop_first() =~= input@.skip(end + 1));
        end += 1;
        if input[end - 1] == 10 {
            return end;
        }
    }
    end
}

impl Request {
    /// Reads the request at the start of the input. `None` on a malformed start line, on a line
    /// that is no UTF-8, or on a truncated body. The caller answers these with
    /// [`crate::server::rejection`].
    pub fn parse(input: &[u8]) -> (r: Option<Request>)
        ensures
            match r {
                Some(q) => request(input@) == Some(q@),
                None => request(input@) is None,
            },
    {
        match Request::parse_first(input) {
            Some((request, _)) => Some(request),
            None => None,
        }
    }

    /// Reads the request at the start of the input, and tells how many bytes it takes up: the next
    /// request starts behind them.
    pub fn parse_first(input: &[u8]) -> (r: Option<(Request, usize)>)
        ensures
            match r {
                Some((q, n)) => request(input@) == Some(q@) && n == used(input@) && n
                    <= input.len(),
                None => request(input@) is None,
            },
    {
        let mut reader = RequestReader::new();
        let mut at: usize = 0;
        assert(input@.skip(0) =~= input@);
        while reader.want() == Want::Line
            invariant
                at <= input.len(),
                read_rest(reader@, input@.skip(at as int)) == request(input@),
                at + used_rest(reader@, input@.skip(at as int)) == used(input@),
            decreases
                    input.len() - at,
                    match reader@ {
                        Progress::Start => 1nat,
                        Progress::Headers { .. } => 1nat,
                        _ => 0nat,
                    },
        {
            let end = next_line(input, at);
            let ghost rest = input@.skip(at as int);
            proof {
                lemma_line_length(rest);
                lemma_no_words_in_nothing();
                assert(input@.subrange(at as int, end as int) =~= rest.take(end - at));
                assert(rest.skip(end - at) =~= input@.skip(end as int));
                if rest.len() == 0 {
                    assert(rest.take(0) =~= Seq::empty());
                }
            }
            reader.line(slice_subrange(input, at, end));
            at = end;
        }
        match reader.want() {
            Want::Body(length) => {
                if input.len() - at < length {
                    return None;
                }
                let body = slice_to_vec(slice_subrange(input, at, at + length));
                assert(body@ =~= input@.skip(at as int).take(length as int));
                match reader.finish(body) {
                    Some(request) => Some((request, at + length)),
                    None => None,
                }
            },
            _ => None,
        }
    }

    /// The request target with any query string stripped.
    pub fn path(&self) -> (r: &str)
        ensures
            r@ == before(self@.target, '?'),
    {
        split_before(self.target.as_str(), '?')
    }

    /// The value of the first header with this name, which is compared as it stands.
    pub fn header(&self, name: &str) -> (r: Option<&str>)
        ensures
            match r {
                Some(v) => header_named(self@.headers, name@) == Some(v@),
                None => header_named(self@.headers, name@) is None,
            },
    {
        find_header(self.headers.as_slice(), name)
    }
}

// ---------------------------------------------------------------------------
// Laws

/// Whether every header name is in lower case.
pub open spec fn names_folded(headers: HeaderSeq) -> bool {
    forall|i: int| 0 <= i < headers.len() ==> lowercase(#[trigger] headers[i].0) == headers[i].0
}

proof fn lemma_lowercase_twice(s: Seq<char>)
    ensures
        lowercase(lowercase(s)) == lowercase(s),
{
    assert(lowercase(lowercase(s)) =~= lowercase(s));
}

proof fn lemma_read_rest(progress: Progress, input: Seq<u8>)
    requires
        match progress {
            Progress::Headers { method, target, headers } => names_folded(headers) && method.len()
                > 0 && target.len() > 0,
            Progress::Body { method, target, headers } => names_folded(headers) && method.len() > 0
                && target.len() > 0,
            _ => true,
        },
    ensures
        read_rest(progress, input) matches Some(q) ==> {
            &&& names_folded(q.headers)
            &&& q.method.len() > 0
            &&& q.target.len() > 0
            &&& q.body.len() == body_length(q.headers)
            &&& q.body.len() <= MAX_BODY
            &&& q.body.len() <= input.len()
        },
    decreases
            input.len(),
            match progress {
                Progress::Start => 1nat,
                Progress::Headers { .. } => 1nat,
                _ => 0nat,
            },
{
    if progress is Start || progress is Headers {
        let length = line_length(input);
        let line = input.take(length);
        lemma_line_length(input);
        lemma_no_words_in_nothing();
        if input.len() == 0 {
            assert(line =~= Seq::empty());
        }
        let next = read_line(progress, line);
        if progress is Headers {
            let text = trim_end(decode_utf8(line));
            lemma_lowercase_twice(trim(before(text, ':')));
        }
        lemma_read_rest(next, input.skip(length));
    }
}

/// Every request that is read has a method, a target and header names in lower case, and a body
/// of exactly the announced length, which is bounded.
pub proof fn law_request_shape(input: Seq<u8>)
    ensures
        request(input) matches Some(q) ==> {
            &&& names_folded(q.headers)
            &&& q.method.len() > 0
            &&& q.target.len() > 0
            &&& q.body.len() == body_length(q.headers)
            &&& q.body.len() <= MAX_BODY
            &&& q.body.len() <= input.len()
        },
{
    lemma_read_rest(Progress::Start, input);
}

/// Whether the rest of the input holds everything that a reading still needs: whole lines up to the
/// one that ends the headers, and the whole body.
pub open spec fn complete_rest(progress: Progress, input: Seq<u8>) -> bool
    decreases input.len(),
{
    match progress {
        Progress::Rejected => false,
        Progress::Body { headers, .. } => body_length(headers) <= input.len(),
        _ => {
            let length = line_length(input);
            proof {
                lemma_line_length(input);
            }
            &&& input.len() > 0
            &&& input[length - 1] == 10
            &&& complete_rest(read_line(progress, input.take(length)), input.skip(length))
        },
    }
}

/// Whether the input starts with a complete request: its lines are whole, the blank one that ends
/// the headers among them, and so is its body.
pub open spec fn complete(input: Seq<u8>) -> bool {
    complete_rest(Progress::Start, input)
}

proof fn lemma_whole_line(input: Seq<u8>, more: Seq<u8>)
    requires
        input.len() > 0,
        input[line_length(input) - 1] == 10,
    ensures
        line_length(input + more) == line_length(input),
    decreases input.len(),
{
    lemma_line_length(input);
    let all = input + more;
    assert(all[0] == input[0]);
    if input[0] != 10 {
        let rest = input.drop_first();
        lemma_line_length(rest);
        assert(rest.len() > 0);
        assert(rest[line_length(rest) - 1] == input[line_length(input) - 1]);
        assert(all.drop_first() =~= rest + more);
        lemma_whole_line(rest, more);
    }
}

proof fn lemma_complete_rest(progress: Progress, input: Seq<u8>, more: Seq<u8>)
    requires
        complete_rest(progress, input),
    ensures
        read_rest(progress, input) is Some,
        read_rest(progress, input + more) == read_rest(progress, input),
        used_rest(progress, input + more) == used_rest(progress, input),
        0 <= used_rest(progress, input) <= input.len(),
    decreases input.len(),
{
    let all = input + more;
    match progress {
        Progress::Rejected => {},
        Progress::Body { headers, .. } => {
            let length = body_length(headers) as int;
            assert(all.take(length) =~= input.take(length));
        },
        _ => {
            let length = line_length(input);
            lemma_line_length(input);
            lemma_whole_line(input, more);
            assert(all.take(length) =~= input.take(length));
            assert(all.skip(length) =~= input.skip(length) + more);
            lemma_complete_rest(
                read_line(progress, input.take(length)),
                input.skip(length),
                more,
            );
        },
    }
}

/// A complete request is read whatever comes behind it.
pub proof fn law_complete_request_stands_alone(input: Seq<u8>, more: Seq<u8>)
    requires
        complete(input),
    ensures
        request(input) is Some,
        request(input + more) == request(input),
        used(input + more) == used(input),
        0 <= used(input) <= input.len(),
{
    lemma_complete_rest(Progress::Start, input, more);
}

/// A complete request with nothing behind its body is used up exactly: what comes behind it is read
/// as the next request.
pub proof fn law_next_request_follows(first: Seq<u8>, next: Seq<u8>)
    requires
        complete(first),
        used(first) == first.len(),
    ensures
        request(first + next) == request(first),
        used(first + next) == first.len(),
        request((first + next).skip(used(first + next))) == request(next),
{
    law_complete_request_stands_alone(first, next);
    assert((first + next).skip(first.len() as int) =~= next);
}

/// The value of a header is that of the first one of its name, whatever headers come before it. It
/// is missing only if no header has the name.
pub proof fn law_first_header_of_the_name(headers: HeaderSeq, name: Seq<char>)
    ensures
        match header_named(headers, name) {
            Some(value) => exists|i: int|
                {
                    &&& 0 <= i < headers.len()
                    &&& #[trigger] headers[i] == (name, value)
                    &&& forall|j: int| 0 <= j < i ==> (#[trigger] headers[j]).0 != name
                },
            None => forall|i: int| 0 <= i < headers.len() ==> (#[trigger] headers[i]).0 != name,
        },
    decreases headers.len(),
{
    if headers.len() > 0 && headers.first().0 != name {
        let rest = headers.drop_first();
        law_first_header_of_the_name(rest, name);
        match header_named(rest, name) {
            Some(value) => {
                let i = choose|i: int|
                    {
                        &&& 0 <= i < rest.len()
                        &&& #[trigger] rest[i] == (name, value)
                        &&& forall|j: int| 0 <= j < i ==> (#[trigger] rest[j]).0 != name
                    };
                assert(headers[i + 1] == rest[i]);
                assert forall|j: int| 0 <= j < i + 1 implies (#[trigger] headers[j]).0 != name by {
                    if j > 0 {
                        assert(rest[j - 1] == headers[j]);
                    }
                }
            },
            None => {
                assert forall|j: int| 0 <= j < headers.len() implies (#[trigger] headers[j]).0
                    != name by {
                    if j > 0 {
                        assert(rest[j - 1] == headers[j]);
                    }
                }
            },
        }
    } else if headers.len() > 0 {
        assert(headers[0] == headers.first());
    }
}

proof fn lemma_header_at(headers: HeaderSeq, name: Seq<char>, i: int)
    requires
        0 <= i < headers.len(),
        headers[i].0 == name,
        forall|j: int| 0 <= j < i ==> (#[trigger] headers[j]).0 != name,
    ensures
        header_named(headers, name) == Some(headers[i].1),
    decreases i,
{
    if i > 0 {
        assert(headers[0].0 != name);
        let rest = headers.drop_first();
        assert forall|j: int| 0 <= j < i - 1 implies (#[trigger] rest[j]).0 != name by {
            assert(rest[j] == headers[j + 1]);
        }
        lemma_header_at(rest, name, i - 1);
    }
}

/// The body has exactly the length that the first `content-length` spells, up to 65536 bytes, and
/// that many for a greater one. Without the header, or where its value is no number, there is no
/// body.
pub proof fn law_announced_length(headers: HeaderSeq, n: nat, i: int)
    requires
        n <= usize::MAX,
    ensures
        0 <= i < headers.len() && headers[i] == ("content-length"@, decimal(n)) && (forall|j: int|
            0 <= j < i ==> (#[trigger] headers[j]).0 != "content-length"@) ==> body_length(headers)
            == if n <= 65536 {
            n
        } else {
            65536
        },
        0 <= i < headers.len() && headers[i].0 == "content-length"@ && number(
            headers[i].1,
            usize::MAX as nat,
        ) is None && (forall|j: int|
            0 <= j < i ==> (#[trigger] headers[j]).0 != "content-length"@) ==> body_length(headers)
            == 0,
        (forall|j: int|
            0 <= j < headers.len() ==> (#[trigger] headers[j]).0 != "content-length"@)
            ==> body_length(headers) == 0,
{
    let name = "content-length"@;
    if 0 <= i < headers.len() && headers[i].0 == name && (forall|j: int|
        0 <= j < i ==> (#[trigger] headers[j]).0 != name) {
        lemma_header_at(headers, name, i);
        if headers[i].1 == decimal(n) {
            law_decimal_round_trip(n, usize::MAX as nat);
        }
    }
    if forall|j: int| 0 <= j < headers.len() ==> (#[trigger] headers[j]).0 != name {
        law_first_header_of_the_name(headers, name);
    }
}

/// One line of text: it ends with its only line feed.
pub open spec fn text_line(line: Seq<u8>) -> bool {
    &&& line.len() > 0
    &&& line.last() == 10
    &&& forall|i: int| 0 <= i < line.len() - 1 ==> #[trigger] line[i] != 10
    &&& valid_utf8(line)
}

/// A start line with this method and this target, and something or nothing behind them.
pub open spec fn starts_request(
    line: Seq<u8>,
    method: Seq<char>,
    gap: Seq<char>,
    target: Seq<char>,
    rest: Seq<char>,
) -> bool {
    &&& text_line(line)
    &&& decode_utf8(line) == method + gap + target + rest
    &&& method.len() > 0 && forall|i: int| 0 <= i < method.len() ==> !white(#[trigger] method[i])
    &&& gap.len() > 0 && forall|i: int| 0 <= i < gap.len() ==> white(#[trigger] gap[i])
    &&& target.len() > 0 && forall|i: int| 0 <= i < target.len() ==> !white(#[trigger] target[i])
    &&& rest.len() > 0 && white(rest[0])
}

/// A header line: a name without a colon, a colon, and a value, and what they make of the headers.
pub open spec fn gives_header(line: Seq<u8>, header: (Seq<char>, Seq<char>)) -> bool {
    &&& text_line(line)
    &&& exists|name: Seq<char>, value: Seq<char>|
        {
            &&& decode_utf8(line) == #[trigger] (name.push(':') + value)
            &&& !name.contains(':')
            &&& header == (lowercase(trim(name)), trim(value))
        }
}

/// A line of nothing but white space.
pub open spec fn blank_line(line: Seq<u8>) -> bool {
    &&& text_line(line)
    &&& forall|i: int| 0 <= i < decode_utf8(line).len() ==> white(#[trigger] decode_utf8(line)[i])
}

/// Lines, one after the other.
pub open spec fn lines_joined(lines: Seq<Seq<u8>>) -> Seq<u8>
    decreases lines.len(),
{
    if lines.len() == 0 {
        Seq::empty()
    } else {
        lines.first() + lines_joined(lines.drop_first())
    }
}

proof fn lemma_text_line_length(line: Seq<u8>, rest: Seq<u8>)
    requires
        line.len() > 0,
        line.last() == 10,
        forall|i: int| 0 <= i < line.len() - 1 ==> #[trigger] line[i] != 10,
    ensures
        line_length(line + rest) == line.len(),
        (line + rest).take(line.len() as int) == line,
        (line + rest).skip(line.len() as int) == rest,
    decreases line.len(),
{
    let all = line + rest;
    assert(all.take(line.len() as int) =~= line);
    assert(all.skip(line.len() as int) =~= rest);
    assert(all[0] == line[0]);
    if line.len() > 1 {
        assert(line[0] != 10);
        let less = line.drop_first();
        assert forall|i: int| 0 <= i < less.len() - 1 implies #[trigger] less[i] != 10 by {
            assert(less[i] == line[i + 1]);
        }
        lemma_text_line_length(less, rest);
        assert(all.drop_first() =~= less + rest);
    }
}

/// A line ends with the first line feed of the input, or with the input where there is none.
pub proof fn law_line_ends_at_the_line_feed(line: Seq<u8>, rest: Seq<u8>)
    requires
        forall|i: int| 0 <= i < line.len() ==> #[trigger] line[i] != 10,
    ensures
        line_length(line.push(10) + rest) == line.len() + 1,
        line_length(line) == line.len(),
    decreases line.len(),
{
    lemma_text_line_length(line.push(10), rest);
    if line.len() > 0 {
        assert(line[0] != 10);
        let less = line.drop_first();
        assert forall|i: int| 0 <= i < less.len() implies #[trigger] less[i] != 10 by {
            assert(less[i] == line[i + 1]);
        }
        law_line_ends_at_the_line_feed(less, rest);
    }
}

/// A header is the name in front of the first colon, folded, and the value behind it, both without
/// the white space around them. A line without a colon gives none.
pub proof fn law_header_line(name: Seq<char>, value: Seq<char>, text: Seq<char>)
    requires
        !name.contains(':'),
        !text.contains(':'),
    ensures
        header_line(trim_end(name.push(':') + value)) == seq![
            (lowercase(trim(name)), trim(value)),
        ],
        trim_end(name.push(':') + value).len() > 0,
        header_line(trim_end(text)).len() == 0,
{
    law_trim_end_behind(name, ':', value);
    let line = name.push(':') + trim_end(value);
    law_split_at_first(name, ':', trim_end(value));
    law_trim_twice(value);
    assert(line[name.len() as int] == ':');
    let j = lemma_trim_end(text);
    assert forall|i: int| 0 <= i < text.take(j).len() implies text.take(j)[i] != ':' by {
        assert(text.contains(text[i]));
    }
}

proof fn lemma_start_line(
    line: Seq<u8>,
    method: Seq<char>,
    gap: Seq<char>,
    target: Seq<char>,
    rest: Seq<char>,
)
    requires
        starts_request(line, method, gap, target, rest),
    ensures
        read_line(Progress::Start, line) == (Progress::Headers {
            method,
            target,
            headers: Seq::empty(),
        }),
{
    let text = decode_utf8(line);
    let tail = gap + target + rest;
    assert(text =~= Seq::<char>::empty() + method + tail);
    assert(tail[0] == gap[0]);
    law_word(Seq::empty(), method, tail);
    law_word(gap, target, rest);
}

proof fn lemma_header_lines(
    method: Seq<char>,
    target: Seq<char>,
    before: HeaderSeq,
    lines: Seq<Seq<u8>>,
    headers: HeaderSeq,
    rest: Seq<u8>,
)
    requires
        lines.len() == headers.len(),
        forall|i: int| 0 <= i < lines.len() ==> gives_header(#[trigger] lines[i], headers[i]),
    ensures
        ({
            let first = Progress::Headers { method, target, headers: before };
            let last = Progress::Headers { method, target, headers: before + headers };
            let input = lines_joined(lines) + rest;
            &&& read_rest(first, input) == read_rest(last, rest)
            &&& used_rest(first, input) == lines_joined(lines).len() + used_rest(last, rest)
        }),
    decreases lines.len(),
{
    if lines.len() == 0 {
        assert(before + headers =~= before);
        assert(lines_joined(lines) + rest =~= rest);
    } else {
        let line = lines[0];
        let header = headers[0];
        assert(gives_header(lines[0], headers[0]));
        let (name, value) = choose|name: Seq<char>, value: Seq<char>|
            {
                &&& decode_utf8(line) == #[trigger] (name.push(':') + value)
                &&& !name.contains(':')
                &&& header == (lowercase(trim(name)), trim(value))
            };
        law_header_line(name, value, Seq::empty());
        let less = lines.drop_first();
        let fewer = headers.drop_first();
        let more = lines_joined(less) + rest;
        lemma_join(line, lines_joined(less), rest);
        lemma_text_line_length(line, more);
        let grown = before + seq![header];
        let first = Progress::Headers { method, target, headers: before };
        assert(read_line(first, line) == (Progress::Headers { method, target, headers: grown }));
        assert forall|i: int| 0 <= i < less.len() implies gives_header(
            #[trigger] less[i],
            fewer[i],
        ) by {
            assert(gives_header(lines[i + 1], headers[i + 1]));
        }
        lemma_header_lines(method, target, grown, less, fewer, rest);
        assert(grown + fewer =~= before + headers);
    }
}

proof fn lemma_blank_line(method: Seq<char>, target: Seq<char>, headers: HeaderSeq, line: Seq<u8>)
    requires
        blank_line(line),
    ensures
        read_line(Progress::Headers { method, target, headers }, line) == (Progress::Body {
            method,
            target,
            headers,
        }),
{
    let text = decode_utf8(line);
    let j = lemma_trim_end(text);
    if j > 0 {
        assert(white(text[j - 1]));
    }
}

/// A start line, header lines and a blank line are read as what they say, and then exactly as many
/// bytes as are announced are read as the body, whatever comes behind them. With fewer there is no
/// request.
pub proof fn law_request_is_read_as_written(
    start: Seq<u8>,
    parts: (Seq<char>, Seq<char>, Seq<char>, Seq<char>),
    lines: Seq<Seq<u8>>,
    headers: HeaderSeq,
    blank: Seq<u8>,
    rest: Seq<u8>,
)
    requires
        starts_request(start, parts.0, parts.1, parts.2, parts.3),
        lines.len() == headers.len(),
        forall|i: int| 0 <= i < lines.len() ==> gives_header(#[trigger] lines[i], headers[i]),
        blank_line(blank),
    ensures
        ({
            let input = start + (lines_joined(lines) + (blank + rest));
            let n = body_length(headers) as int;
            &&& rest.len() < n ==> request(input) is None
            &&& rest.len() >= n ==> request(input) == Some(
                RequestText {
                    method: parts.0,
                    target: parts.2,
                    headers,
                    body: rest.take(n),
                },
            ) && used(input) == start.len() + lines_joined(lines).len() + blank.len() + n
        }),
{
    let (method, gap, target, behind) = parts;
    let tail = lines_joined(lines) + (blank + rest);
    let begun = Progress::Headers { method, target, headers: Seq::empty() };
    let read = Progress::Headers { method, target, headers };
    lemma_start_line(start, method, gap, target, behind);
    lemma_text_line_length(start, tail);
    assert(request(start + tail) == read_rest(begun, tail));
    assert(used(start + tail) == start.len() + used_rest(begun, tail));
    lemma_header_lines(method, target, Seq::empty(), lines, headers, blank + rest);
    assert(Seq::<(Seq<char>, Seq<char>)>::empty() + headers =~= headers);
    lemma_blank_line(method, target, headers, blank);
    lemma_text_line_length(blank, rest);
    let body = Progress::Body { method, target, headers };
    assert(read_rest(read, blank + rest) == read_rest(body, rest));
    assert(used_rest(read, blank + rest) == blank.len() + used_rest(body, rest));
}

/// For every number, a request whose first `content-length` header is its decimal text, and whose
/// header block is followed by at least that many bytes, is read with exactly those bytes as its
/// body; for a number above 65536, with the first 65536 of them.
pub proof fn law_body_has_the_announced_length(
    start: Seq<u8>,
    parts: (Seq<char>, Seq<char>, Seq<char>, Seq<char>),
    lines: Seq<Seq<u8>>,
    headers: HeaderSeq,
    blank: Seq<u8>,
    body: Seq<u8>,
    more: Seq<u8>,
    n: nat,
    i: int,
)
    requires
        starts_request(start, parts.0, parts.1, parts.2, parts.3),
        lines.len() == headers.len(),
        forall|j: int| 0 <= j < lines.len() ==> gives_header(#[trigger] lines[j], headers[j]),
        blank_line(blank),
        n <= usize::MAX,
        0 <= i < headers.len(),
        headers[i] == ("content-length"@, decimal(n)),
        forall|j: int| 0 <= j < i ==> (#[trigger] headers[j]).0 != "content-length"@,
        body.len() == if n <= 65536 {
            n
        } else {
            65536
        },
    ensures
        request(start + (lines_joined(lines) + (blank + (body + more)))) == Some(
            RequestText { method: parts.0, target: parts.2, headers, body },
        ),
{
    law_announced_length(headers, n, i);
    law_request_is_read_as_written(start, parts, lines, headers, blank, body + more);
    assert((body + more).take(body.len() as int) =~= body);
}

/// A line among the headers that has no colon, and is not blank, changes nothing.
pub proof fn law_line_without_a_colon_is_passed_over(
    method: Seq<char>,
    target: Seq<char>,
    headers: HeaderSeq,
    line: Seq<u8>,
    i: int,
)
    requires
        valid_utf8(line),
        !decode_utf8(line).contains(':'),
        0 <= i < decode_utf8(line).len(),
        !white(decode_utf8(line)[i]),
    ensures
        read_line(Progress::Headers { method, target, headers }, line) == (Progress::Headers {
            method,
            target,
            headers,
        }),
{
    let text = decode_utf8(line);
    law_header_line(Seq::empty(), Seq::empty(), text);
    let j = lemma_trim_end(text);
    if j == 0 {
        assert(white(text[i]));
    }
    assert(headers + header_line(trim_end(text)) =~= headers);
}

/// A first line that is not text, or of fewer than two words, is no request, whatever follows.
pub proof fn law_malformed_start_is_no_request(
    line: Seq<u8>,
    left: Seq<char>,
    only: Seq<char>,
    right: Seq<char>,
    rest: Seq<u8>,
)
    requires
        line.len() > 0,
        line.last() == 10,
        forall|i: int| 0 <= i < line.len() - 1 ==> #[trigger] line[i] != 10,
        !valid_utf8(line) || {
            &&& decode_utf8(line) == left + only + right
            &&& forall|i: int| 0 <= i < left.len() ==> white(#[trigger] left[i])
            &&& forall|i: int| 0 <= i < only.len() ==> !white(#[trigger] only[i])
            &&& forall|i: int| 0 <= i < right.len() ==> white(#[trigger] right[i])
        },
    ensures
        request(line + rest) is None,
{
    lemma_text_line_length(line, rest);
    if valid_utf8(line) {
        let text = decode_utf8(line);
        if only.len() > 0 {
            if right.len() > 0 {
                assert(white(right[0]));
            }
            law_word(left, only, right);
            law_no_word(right);
        } else {
            assert forall|k: int| 0 <= k < text.len() implies white(#[trigger] text[k]) by {
                if k < left.len() {
                    assert(text[k] == left[k]);
                } else {
                    assert(text[k] == right[k - left.len()]);
                }
            }
            law_no_word(text);
        }
    }
    assert(read_line(Progress::Start, line) == Progress::Rejected);
    reveal_with_fuel(read_rest, 2);
}

/// A line among the headers that is not text makes what was read no request, whatever follows.
pub proof fn law_header_that_is_no_text_is_no_request(
    start: Seq<u8>,
    parts: (Seq<char>, Seq<char>, Seq<char>, Seq<char>),
    lines: Seq<Seq<u8>>,
    headers: HeaderSeq,
    line: Seq<u8>,
    rest: Seq<u8>,
)
    requires
        starts_request(start, parts.0, parts.1, parts.2, parts.3),
        lines.len() == headers.len(),
        forall|i: int| 0 <= i < lines.len() ==> gives_header(#[trigger] lines[i], headers[i]),
        line.len() > 0,
        line.last() == 10,
        forall|i: int| 0 <= i < line.len() - 1 ==> #[trigger] line[i] != 10,
        !valid_utf8(line),
    ensures
        request(start + (lines_joined(lines) + (line + rest))) is None,
{
    let (method, gap, target, behind) = parts;
    let tail = lines_joined(lines) + (line + rest);
    let begun = Progress::Headers { method, target, headers: Seq::empty() };
    let read = Progress::Headers { method, target, headers };
    lemma_start_line(start, method, gap, target, behind);
    lemma_text_line_length(start, tail);
    assert(request(start + tail) == read_rest(begun, tail));
    lemma_header_lines(method, target, Seq::empty(), lines, headers, line + rest);
    assert(Seq::<(Seq<char>, Seq<char>)>::empty() + headers =~= headers);
    lemma_text_line_length(line, rest);
    assert(read_line(read, line) == Progress::Rejected);
    assert(read_rest(read, line + rest) == read_rest(Progress::Rejected, rest));
}

/// A reader wants lines until its headers are complete, then a body of the announced length, and
/// makes a request of exactly such a body.
pub proof fn law_reader_wants_the_body(reader: RequestReader, w: Want, body: Vec<u8>, r: Option<Request>)
    requires
        call_ensures(RequestReader::want, (&reader,), w),
        call_ensures(RequestReader::finish, (reader, body), r),
    ensures
        w == Want::Line <==> reader@ is Start || reader@ is Headers,
        w == Want::Nothing <==> reader@ is Rejected,
        r is Some ==> w is Body,
        w matches Want::Body(n) ==> n <= 65536 && (r is Some <==> body@.len() == n),
        r is Some ==> r->0@.body == body@,
{
}

/// A request says what its parts say, and a list of headers what each header says.
pub proof fn law_request_parts(request: Request, i: int)
    requires
        0 <= i < request.headers@.len(),
    ensures
        request@.method == request.method@,
        request@.target == request.target@,
        request@.body == request.body@,
        request@.headers.len() == request.headers@.len(),
        request@.headers[i].0 == request.headers@[i].0@,
        request@.headers[i].1 == request.headers@[i].1@,
{
}

} // verus!
