//! Text as sequences of characters: comparing, trimming, splitting and searching.
use vstd::prelude::*;
use vstd::string::*;

verus! {

/// `String::push` appends the character to the end of the string.
pub assume_specification[ String::push ](s: &mut String, c: char)
    ensures
        final(s)@ == old(s)@.push(c),
;

/// What `core::str::from_utf8` says of bytes that are no text.
#[verifier::external_type_specification]
#[verifier::external_body]
pub struct ExUtf8Error(core::str::Utf8Error);

/// `core::str::from_utf8` accepts exactly the valid UTF-8 byte sequences and hands out the string
/// that they encode.
pub assume_specification<'a>[ core::str::from_utf8 ](v: &'a [u8]) -> (res: Result<
    &'a str,
    core::str::Utf8Error,
>)
    ensures
        res is Ok <==> vstd::utf8::valid_utf8(v@),
        res matches Ok(s) ==> s.spec_bytes() == v@,
;

// ---------------------------------------------------------------------------
// Characters

/// The characters with the Unicode property `White_Space`.
pub open spec fn white(c: char) -> bool {
    let u = c as u32;
    ||| 0x9 <= u <= 0xd
    ||| u == 0x20
    ||| u == 0x85
    ||| u == 0xa0
    ||| u == 0x1680
    ||| 0x2000 <= u <= 0x200a
    ||| u == 0x2028
    ||| u == 0x2029
    ||| u == 0x202f
    ||| u == 0x205f
    ||| u == 0x3000
}

/// Whether `c` is white space.
pub fn is_white(c: char) -> (r: bool)
    ensures
        r == white(c),
{
    let u: u32 = c as u32;
    (0x9 <= u && u <= 0xd) || u == 0x20 || u == 0x85 || u == 0xa0 || u == 0x1680 || (0x2000 <= u
        && u <= 0x200a) || u == 0x2028 || u == 0x2029 || u == 0x202f || u == 0x205f || u == 0x3000
}

/// An ASCII capital letter in lower case, any other character unchanged.
pub open spec fn lower(c: char) -> char {
    if 'A' as u32 <= c as u32 <= 'Z' as u32 {
        (c as u32 + 32) as char
    } else {
        c
    }
}

/// Every character of `s` in ASCII lower case.
pub open spec fn lowercase(s: Seq<char>) -> Seq<char> {
    s.map_values(|c: char| lower(c))
}

/// The character `c` in ASCII lower case.
pub fn lower_char(c: char) -> (r: char)
    ensures
        r == lower(c),
{
    let u: u32 = c as u32;
    if 65 <= u && u <= 90 {
        (u as u8 + 32) as char
    } else {
        c
    }
}

// ---------------------------------------------------------------------------
// Conversions and comparison

/// The characters of a string.
pub fn chars_of(s: &str) -> (r: Vec<char>)
    ensures
        r@ == s@,
{
    let mut r: Vec<char> = Vec::new();
    for c in it: s.chars()
        invariant
            it.seq() == s@,
            r@ == s@.take(it.index() as int),
    {
        r.push(c);
    }
    assert(s@.take(s@.len() as int) =~= s@);
    r
}

/// The string that holds the given characters.
pub fn string_of(cs: &[char]) -> (r: String)
    ensures
        r@ == cs@,
{
    let mut r = String::new();
    let mut i: usize = 0;
    while i < cs.len()
        invariant
            i <= cs.len(),
            r@ == cs@.take(i as int),
        decreases cs.len() - i,
    {
        r.push(cs[i]);
        i += 1;
    }
    assert(cs@.take(cs.len() as int) =~= cs@);
    r
}

/// The text that valid UTF-8 bytes encode.
pub fn decode(bytes: &[u8]) -> (r: Option<&str>)
    ensures
        r is Some <==> vstd::utf8::valid_utf8(bytes@),
        r matches Some(s) ==> s@ == vstd::utf8::decode_utf8(bytes@) && vstd::utf8::encode_utf8(s@)
            == bytes@,
{
    match core::str::from_utf8(bytes) {
        Ok(s) => {
            proof {
                vstd::utf8::encode_utf8_decode_utf8(s@);
            }
            Some(s)
        },
        Err(_) => None,
    }
}

/// The texts of a list of strings.
pub open spec fn texts(list: Seq<String>) -> Seq<Seq<char>> {
    list.map_values(|s: String| s@)
}

/// Whether two strings hold the same characters.
pub fn same(a: &str, b: &str) -> (r: bool)
    ensures
        r == (a@ == b@),
{
    let x = a.as_bytes();
    let y = b.as_bytes();
    proof {
        vstd::utf8::encode_utf8_decode_utf8(a@);
        vstd::utf8::encode_utf8_decode_utf8(b@);
    }
    if x.len() != y.len() {
        return false;
    }
    let mut i: usize = 0;
    while i < x.len()
        invariant
            i <= x.len(),
            x.len() == y.len(),
            forall|j: int| 0 <= j < i ==> x@[j] == y@[j],
            x@ == vstd::utf8::encode_utf8(a@),
            y@ == vstd::utf8::encode_utf8(b@),
        decreases x.len() - i,
    {
        if x[i] != y[i] {
            return false;
        }
        i += 1;
    }
    assert(x@ =~= y@);
    true
}

/// Whether two strings are the same up to the case of ASCII letters.
pub fn same_ignoring_case(a: &str, b: &str) -> (r: bool)
    ensures
        r == (lowercase(a@) == lowercase(b@)),
{
    let x = chars_of(a);
    let y = chars_of(b);
    if x.len() != y.len() {
        assert(lowercase(a@).len() != lowercase(b@).len());
        return false;
    }
    let mut i: usize = 0;
    while i < x.len()
        invariant
            i <= x.len(),
            x.len() == y.len(),
            forall|j: int| 0 <= j < i ==> lower(x@[j]) == lower(y@[j]),
            x@ == a@,
            y@ == b@,
        decreases x.len() - i,
    {
        if lower_char(x[i]) != lower_char(y[i]) {
            assert(lowercase(a@)[i as int] != lowercase(b@)[i as int]);
            return false;
        }
        i += 1;
    }
    assert(lowercase(a@) =~= lowercase(b@));
    true
}

/// A copy of the string in ASCII lower case.
pub fn to_lowercase(s: &str) -> (r: String)
    ensures
        r@ == lowercase(s@),
{
    let cs = chars_of(s);
    let mut r = String::new();
    let mut i: usize = 0;
    while i < cs.len()
        invariant
            i <= cs.len(),
            cs@ == s@,
            r@ == lowercase(s@).take(i as int),
        decreases cs.len() - i,
    {
        r.push(lower_char(cs[i]));
        i += 1;
        assert(r@ =~= lowercase(s@).take(i as int));
    }
    assert(lowercase(s@).take(s@.len() as int) =~= lowercase(s@));
    r
}

// ---------------------------------------------------------------------------
// Trimming

/// `s` without the white space at its start.
pub open spec fn trim_start(s: Seq<char>) -> Seq<char>
    decreases s.len(),
{
    if s.len() > 0 && white(s.first()) {
        trim_start(s.drop_first())
    } else {
        s
    }
}

/// `s` without the white space at its end.
pub open spec fn trim_end(s: Seq<char>) -> Seq<char>
    decreases s.len(),
{
    if s.len() > 0 && white(s.last()) {
        trim_end(s.drop_last())
    } else {
        s
    }
}

/// `s` without the white space at either end.
pub open spec fn trim(s: Seq<char>) -> Seq<char> {
    trim_end(trim_start(s))
}

/// `s` without the copies of `c` at its start.
pub open spec fn strip_start(s: Seq<char>, c: char) -> Seq<char>
    decreases s.len(),
{
    if s.len() > 0 && s.first() == c {
        strip_start(s.drop_first(), c)
    } else {
        s
    }
}

/// `s` without the copies of `c` at its end.
pub open spec fn strip_end(s: Seq<char>, c: char) -> Seq<char>
    decreases s.len(),
{
    if s.len() > 0 && s.last() == c {
        strip_end(s.drop_last(), c)
    } else {
        s
    }
}

/// How many white characters `cs` starts with.
fn leading_white(cs: &[char]) -> (n: usize)
    ensures
        n <= cs.len(),
        cs@.skip(n as int) == trim_start(cs@),
{
    let mut n: usize = 0;
    assert(cs@.skip(0) =~= cs@);
    while n < cs.len() && is_white(cs[n])
        invariant
            n <= cs.len(),
            trim_start(cs@.skip(n as int)) == trim_start(cs@),
        decreases cs.len() - n,
    {
        assert(cs@.skip(n as int).drop_first() =~= cs@.skip(n + 1));
        n += 1;
    }
    n
}

/// Where the white space at the end of `cs` starts.
fn end_before_white(cs: &[char]) -> (n: usize)
    ensures
        n <= cs.len(),
        cs@.take(n as int) == trim_end(cs@),
{
    let mut n: usize = cs.len();
    assert(cs@.take(n as int) =~= cs@);
    while n > 0 && is_white(cs[n - 1])
        invariant
            n <= cs.len(),
            trim_end(cs@.take(n as int)) == trim_end(cs@),
        decreases n,
    {
        assert(cs@.take(n as int).drop_last() =~= cs@.take(n - 1));
        n -= 1;
    }
    n
}

/// The string without the white space at its end.
pub fn trimmed_end(s: &str) -> (r: &str)
    ensures
        r@ == trim_end(s@),
{
    let cs = chars_of(s);
    let n = end_before_white(cs.as_slice());
    assert(s@.subrange(0, n as int) =~= s@.take(n as int));
    s.substring_char(0, n)
}

/// The string without the white space at its start.
pub fn trimmed_start(s: &str) -> (r: &str)
    ensures
        r@ == trim_start(s@),
{
    let cs = chars_of(s);
    let n = leading_white(cs.as_slice());
    assert(s@.subrange(n as int, s@.len() as int) =~= s@.skip(n as int));
    s.substring_char(n, cs.len())
}

/// The string without the white space at either end.
pub fn trimmed(s: &str) -> (r: &str)
    ensures
        r@ == trim(s@),
{
    trimmed_end(trimmed_start(s))
}

/// The string without the copies of `c` at its end.
pub fn stripped_end(s: &str, c: char) -> (r: &str)
    ensures
        r@ == strip_end(s@, c),
{
    let cs = chars_of(s);
    let mut n: usize = cs.len();
    assert(cs@.take(n as int) =~= cs@);
    while n > 0 && cs[n - 1] == c
        invariant
            n <= cs.len(),
            strip_end(cs@.take(n as int), c) == strip_end(cs@, c),
        decreases n,
    {
        assert(cs@.take(n as int).drop_last() =~= cs@.take(n - 1));
        n -= 1;
    }
    assert(s@.subrange(0, n as int) =~= s@.take(n as int));
    s.substring_char(0, n)
}

/// The string without the copies of `c` at its start.
pub fn stripped_start(s: &str, c: char) -> (r: &str)
    ensures
        r@ == strip_start(s@, c),
{
    let cs = chars_of(s);
    let mut n: usize = 0;
    assert(cs@.skip(0) =~= cs@);
    while n < cs.len() && cs[n] == c
        invariant
            n <= cs.len(),
            strip_start(cs@.skip(n as int), c) == strip_start(cs@, c),
        decreases cs.len() - n,
    {
        assert(cs@.skip(n as int).drop_first() =~= cs@.skip(n + 1));
        n += 1;
    }
    assert(s@.subrange(n as int, s@.len() as int) =~= s@.skip(n as int));
    s.substring_char(n, cs.len())
}

// ---------------------------------------------------------------------------
// Splitting and searching

/// The index of the first `c` in `s`, or the length of `s` where there is none.
pub open spec fn position(s: Seq<char>, c: char) -> int
    decreases s.len(),
{
    if s.len() == 0 || s.first() == c {
        0
    } else {
        1 + position(s.drop_first(), c)
    }
}

/// `position` is the least index that holds `c`.
pub proof fn lemma_position(s: Seq<char>, c: char)
    ensures
        0 <= position(s, c) <= s.len(),
        position(s, c) < s.len() <==> s.contains(c),
        position(s, c) < s.len() ==> s[position(s, c)] == c,
        forall|i: int| 0 <= i < position(s, c) ==> s[i] != c,
    decreases s.len(),
{
    if s.len() > 0 && s.first() != c {
        let t = s.drop_first();
        lemma_position(t, c);
        assert forall|i: int| 0 <= i < position(s, c) implies s[i] != c by {
            if i > 0 {
                assert(t[i - 1] == s[i]);
            }
        }
        if s.contains(c) {
            let i = choose|i: int| 0 <= i < s.len() && s[i] == c;
            assert(t[i - 1] == c);
        }
        if t.contains(c) {
            let i = choose|i: int| 0 <= i < t.len() && t[i] == c;
            assert(s[i + 1] == c);
        }
    }
}

/// An index with the properties of `position` is `position`.
pub proof fn lemma_position_is(s: Seq<char>, c: char, n: int)
    requires
        0 <= n <= s.len(),
        n < s.len() ==> s[n] == c,
        forall|i: int| 0 <= i < n ==> s[i] != c,
    ensures
        position(s, c) == n,
{
    lemma_position(s, c);
    let p = position(s, c);
    if p < n {
        assert(s[p] != c);
    }
    if n < p {
        assert(s[n] != c);
    }
}

/// The part of `s` before the first `c`, or all of `s`.
pub open spec fn before(s: Seq<char>, c: char) -> Seq<char> {
    s.take(position(s, c))
}

/// The part of `s` behind the first `c`.
pub open spec fn after(s: Seq<char>, c: char) -> Seq<char> {
    s.skip(position(s, c) + 1)
}

/// The part of `s` behind the last `c`, or all of `s`.
pub open spec fn after_last(s: Seq<char>, c: char) -> Seq<char>
    decreases s.len(),
{
    if s.contains(c) {
        proof {
            lemma_position(s, c);
        }
        after_last(after(s, c), c)
    } else {
        s
    }
}

/// The index of the first `c`, or the length.
fn position_of(cs: &[char], c: char) -> (n: usize)
    ensures
        n == position(cs@, c),
        n <= cs.len(),
{
    let mut n: usize = 0;
    while n < cs.len() && cs[n] != c
        invariant
            n <= cs.len(),
            forall|i: int| 0 <= i < n ==> cs@[i] != c,
        decreases cs.len() - n,
    {
        n += 1;
    }
    proof {
        lemma_position_is(cs@, c, n as int);
    }
    n
}

/// The string before the first `c`, or all of it.
pub fn split_before(s: &str, c: char) -> (r: &str)
    ensures
        r@ == before(s@, c),
{
    let cs = chars_of(s);
    let n = position_of(cs.as_slice(), c);
    assert(s@.subrange(0, n as int) =~= s@.take(n as int));
    s.substring_char(0, n)
}

/// The two parts of the string before and behind the first `c`.
pub fn split_once(s: &str, c: char) -> (r: Option<(&str, &str)>)
    ensures
        r is Some <==> s@.contains(c),
        r matches Some(parts) ==> parts.0@ == before(s@, c) && parts.1@ == after(s@, c),
{
    let cs = chars_of(s);
    let n = position_of(cs.as_slice(), c);
    proof {
        lemma_position(s@, c);
    }
    if n == cs.len() {
        return None;
    }
    assert(s@.subrange(0, n as int) =~= s@.take(n as int));
    assert(s@.subrange(n + 1, s@.len() as int) =~= s@.skip(n + 1));
    Some((s.substring_char(0, n), s.substring_char(n + 1, cs.len())))
}

/// The part of `s` behind its last `c` holds no `c` and is what every other `c` stands before.
pub proof fn lemma_after_last(s: Seq<char>, c: char, n: int)
    requires
        0 <= n <= s.len(),
        n > 0 ==> s[n - 1] == c,
        forall|i: int| n <= i < s.len() ==> s[i] != c,
    ensures
        after_last(s, c) == s.skip(n),
    decreases s.len(),
{
    lemma_position(s, c);
    if n == 0 {
        assert(!s.contains(c));
        assert(s.skip(0) =~= s);
    } else {
        assert(s[n - 1] == c);
        let p = position(s, c);
        let t = after(s, c);
        lemma_after_last(t, c, n - p - 1);
        assert(t.skip(n - p - 1) =~= s.skip(n));
    }
}

/// The string behind the last `c`, or all of it.
pub fn split_after_last(s: &str, c: char) -> (r: &str)
    ensures
        r@ == after_last(s@, c),
{
    let cs = chars_of(s);
    let mut n: usize = cs.len();
    while n > 0 && cs[n - 1] != c
        invariant
            n <= cs.len(),
            forall|i: int| n <= i < cs.len() ==> cs@[i] != c,
        decreases n,
    {
        n -= 1;
    }
    proof {
        lemma_after_last(s@, c, n as int);
    }
    assert(s@.subrange(n as int, s@.len() as int) =~= s@.skip(n as int));
    s.substring_char(n, cs.len())
}

/// Whether the string starts with `prefix`.
pub fn starts_with(s: &str, prefix: &str) -> (r: bool)
    ensures
        r == prefix@.is_prefix_of(s@),
{
    let cs = chars_of(s);
    let ps = chars_of(prefix);
    occurs_at(cs.as_slice(), ps.as_slice(), 0)
}

/// What follows `prefix` in the string.
pub fn strip_prefix<'a>(s: &'a str, prefix: &str) -> (r: Option<&'a str>)
    ensures
        r is Some <==> prefix@.is_prefix_of(s@),
        r matches Some(rest) ==> s@ == prefix@ + rest@,
{
    let cs = chars_of(s);
    let ps = chars_of(prefix);
    if occurs_at(cs.as_slice(), ps.as_slice(), 0) {
        let rest = s.substring_char(ps.len(), cs.len());
        assert(s@ =~= prefix@ + rest@);
        Some(rest)
    } else {
        None
    }
}

/// What stands before `suffix` in the string.
pub fn strip_suffix<'a>(s: &'a str, suffix: &str) -> (r: Option<&'a str>)
    ensures
        r is Some <==> suffix@.is_suffix_of(s@),
        r matches Some(rest) ==> s@ == rest@ + suffix@,
{
    let cs = chars_of(s);
    let ps = chars_of(suffix);
    if ps.len() <= cs.len() && occurs_at(cs.as_slice(), ps.as_slice(), cs.len() - ps.len()) {
        let rest = s.substring_char(0, cs.len() - ps.len());
        assert(s@ =~= rest@ + suffix@);
        Some(rest)
    } else {
        None
    }
}

/// Whether `pattern` stands in `s` at index `i`.
pub open spec fn found_at(s: Seq<char>, pattern: Seq<char>, i: int) -> bool {
    0 <= i && i + pattern.len() <= s.len() && s.subrange(i, i + pattern.len()) == pattern
}

/// The first index from `i` on at which `pattern` stands in `s`.
pub open spec fn find_from(s: Seq<char>, pattern: Seq<char>, i: int) -> Option<int>
    decreases s.len() + 1 - i,
{
    if i + pattern.len() > s.len() {
        None
    } else if found_at(s, pattern, i) {
        Some(i)
    } else {
        find_from(s, pattern, i + 1)
    }
}

/// Whether `pattern` stands in `cs` at index `at`.
fn occurs_at(cs: &[char], pattern: &[char], at: usize) -> (r: bool)
    ensures
        r == found_at(cs@, pattern@, at as int),
{
    if at > cs.len() || pattern.len() > cs.len() - at {
        return false;
    }
    let mut i: usize = 0;
    while i < pattern.len()
        invariant
            i <= pattern.len(),
            at + pattern.len() <= cs.len(),
            forall|j: int| 0 <= j < i ==> cs@[at + j] == pattern@[j],
        decreases pattern.len() - i,
    {
        if cs[at + i] != pattern[i] {
            assert(cs@.subrange(at as int, at + pattern@.len())[i as int] != pattern@[i as int]);
            return false;
        }
        i += 1;
    }
    assert(cs@.subrange(at as int, at + pattern@.len()) =~= pattern@);
    true
}

/// The first index from `from` on at which `pattern` stands in `cs`.
pub fn find(cs: &[char], pattern: &[char], from: usize) -> (r: Option<usize>)
    requires
        from <= cs.len(),
    ensures
        match r {
            Some(i) => find_from(cs@, pattern@, from as int) == Some(i as int) && i
                + pattern.len() <= cs.len() && from <= i,
            None => find_from(cs@, pattern@, from as int) is None,
        },
{
    let mut i: usize = from;
    while pattern.len() <= cs.len() - i
        invariant
            from <= i <= cs.len(),
            find_from(cs@, pattern@, i as int) == find_from(cs@, pattern@, from as int),
        decreases cs.len() - i,
    {
        if occurs_at(cs, pattern, i) {
            return Some(i);
        }
        proof {
            if i == cs.len() {
                assert(cs@.subrange(i as int, i as int) =~= pattern@);
            }
        }
        i += 1;
    }
    None
}

/// The first word of `s`: what follows the white space at its start, up to the next.
pub open spec fn word(s: Seq<char>) -> Seq<char> {
    let t = trim_start(s);
    t.take(word_len(t))
}

/// What follows the first word of `s`.
pub open spec fn after_word(s: Seq<char>) -> Seq<char> {
    let t = trim_start(s);
    t.skip(word_len(t))
}

/// How many characters `s` starts with that are not white.
pub open spec fn word_len(s: Seq<char>) -> int
    decreases s.len(),
{
    if s.len() == 0 || white(s.first()) {
        0
    } else {
        1 + word_len(s.drop_first())
    }
}

/// The first word of the string and what follows it, or `None` where all of it is white.
pub fn next_word(s: &str) -> (r: Option<(&str, &str)>)
    ensures
        r is Some <==> word(s@).len() > 0,
        r matches Some(parts) ==> parts.0@ == word(s@) && parts.1@ == after_word(s@),
{
    let t = trimmed_start(s);
    let cs = chars_of(t);
    let mut n: usize = 0;
    assert(cs@.skip(0) =~= cs@);
    while n < cs.len() && !is_white(cs[n])
        invariant
            n <= cs.len(),
            word_len(cs@) == n + word_len(cs@.skip(n as int)),
        decreases cs.len() - n,
    {
        assert(cs@.skip(n as int).drop_first() =~= cs@.skip(n + 1));
        n += 1;
    }
    assert(word_len(cs@) == n);
    if n == 0 {
        return None;
    }
    assert(t@.subrange(0, n as int) =~= t@.take(n as int));
    assert(t@.subrange(n as int, t@.len() as int) =~= t@.skip(n as int));
    Some((t.substring_char(0, n), t.substring_char(n, cs.len())))
}

// ---------------------------------------------------------------------------
// Laws

/// Only the 26 capital letters of ASCII change, each into the small letter 32 code points further.
pub proof fn law_lower(c: char)
    ensures
        (c as u32 >= 65 && c as u32 <= 90) ==> lower(c) as u32 == c as u32 + 32,
        (c as u32) < 65 || c as u32 > 90 ==> lower(c) == c,
{
}

/// Folding a text folds each of its characters, and no more.
pub proof fn law_lowercase(s: Seq<char>, i: int)
    requires
        0 <= i < s.len(),
    ensures
        lowercase(s).len() == s.len(),
        lowercase(s)[i] == lower(s[i]),
{
}

/// What is taken off the start, up to the index that is returned.
pub proof fn lemma_trim_start(s: Seq<char>) -> (i: int)
    ensures
        0 <= i <= s.len(),
        trim_start(s) == s.skip(i),
        forall|k: int| 0 <= k < i ==> white(#[trigger] s[k]),
        i < s.len() ==> !white(s[i]),
    decreases s.len(),
{
    if s.len() > 0 && white(s.first()) {
        let rest = s.drop_first();
        let i = lemma_trim_start(rest);
        assert(rest.skip(i) =~= s.skip(i + 1));
        assert forall|k: int| 0 <= k < i + 1 implies white(#[trigger] s[k]) by {
            if k > 0 {
                assert(rest[k - 1] == s[k]);
            }
        }
        if i + 1 < s.len() {
            assert(rest[i] == s[i + 1]);
        }
        i + 1
    } else {
        assert(s.skip(0) =~= s);
        0
    }
}

/// What is taken off the end, from the index that is returned on.
pub proof fn lemma_trim_end(s: Seq<char>) -> (j: int)
    ensures
        0 <= j <= s.len(),
        trim_end(s) == s.take(j),
        forall|k: int| j <= k < s.len() ==> white(#[trigger] s[k]),
        j > 0 ==> !white(s[j - 1]),
    decreases s.len(),
{
    if s.len() > 0 && white(s.last()) {
        let rest = s.drop_last();
        let j = lemma_trim_end(rest);
        assert(rest.take(j) =~= s.take(j));
        assert forall|k: int| j <= k < s.len() implies white(#[trigger] s[k]) by {
            if k < rest.len() {
                assert(rest[k] == s[k]);
            }
        }
        if j > 0 {
            assert(rest[j - 1] == s[j - 1]);
        }
        j
    } else {
        assert(s.take(s.len() as int) =~= s);
        s.len() as int
    }
}

/// Trimming takes off white space, all of it, and nothing else: a text between white space, which
/// neither starts nor ends with any, is what is left.
pub proof fn law_trim(left: Seq<char>, text: Seq<char>, right: Seq<char>)
    requires
        forall|k: int| 0 <= k < left.len() ==> white(#[trigger] left[k]),
        forall|k: int| 0 <= k < right.len() ==> white(#[trigger] right[k]),
        text.len() > 0 ==> !white(text.first()) && !white(text.last()),
    ensures
        trim(left + text + right) == text,
        trim_start(left + text) == text,
        trim_end(text + right) == text,
{
    lemma_trimmed_start(left, text);
    lemma_trimmed_end(text, right);
    if text.len() == 0 {
        let all = left + text + right;
        assert forall|k: int| 0 <= k < all.len() implies white(#[trigger] all[k]) by {
            if k < left.len() {
                assert(all[k] == left[k]);
            } else {
                assert(all[k] == right[k - left.len()]);
            }
        }
        lemma_trimmed_start(all, Seq::empty());
        assert(all + Seq::<char>::empty() =~= all);
        assert(trim_start(all) =~= Seq::empty());
        assert(text =~= Seq::empty());
    } else {
        assert(left + text + right =~= left + (text + right));
        lemma_trimmed_start(left, text + right);
        lemma_trimmed_end(text, right);
    }
}

proof fn lemma_trimmed_start(left: Seq<char>, text: Seq<char>)
    requires
        forall|k: int| 0 <= k < left.len() ==> white(#[trigger] left[k]),
        text.len() > 0 ==> !white(text.first()),
    ensures
        trim_start(left + text) == text,
{
    let all = left + text;
    let i = lemma_trim_start(all);
    if i < left.len() {
        assert(white(left[i]));
        assert(all[i] == left[i]);
    }
    if i > left.len() {
        assert(white(all[left.len() as int]));
        assert(all[left.len() as int] == text[0]);
    }
    assert(all.skip(i) =~= text);
}

proof fn lemma_trimmed_end(text: Seq<char>, right: Seq<char>)
    requires
        forall|k: int| 0 <= k < right.len() ==> white(#[trigger] right[k]),
        text.len() > 0 ==> !white(text.last()),
    ensures
        trim_end(text + right) == text,
{
    let all = text + right;
    let j = lemma_trim_end(all);
    if j > text.len() {
        assert(all[j - 1] == right[j - 1 - text.len()]);
        assert(white(right[j - 1 - text.len()]));
    }
    if j < text.len() {
        assert(white(all[text.len() - 1]));
        assert(all[text.len() - 1] == text[text.len() - 1]);
    }
    assert(all.take(j) =~= text);
}

/// Every text is white space, what trimming leaves, and white space, and what it leaves neither
/// starts nor ends with any.
pub proof fn law_trim_leaves_a_core(s: Seq<char>) -> (cut: (int, int))
    ensures
        0 <= cut.0 <= cut.1 <= s.len(),
        trim(s) == s.subrange(cut.0, cut.1),
        forall|k: int| 0 <= k < cut.0 ==> white(#[trigger] s[k]),
        forall|k: int| cut.1 <= k < s.len() ==> white(#[trigger] s[k]),
        trim(s).len() > 0 ==> !white(trim(s).first()) && !white(trim(s).last()),
{
    let i = lemma_trim_start(s);
    let t = s.skip(i);
    let j = lemma_trim_end(t);
    assert(t.take(j) =~= s.subrange(i, i + j));
    assert forall|k: int| i + j <= k < s.len() implies white(#[trigger] s[k]) by {
        assert(t[k - i] == s[k]);
    }
    if j > 0 {
        assert(t[j - 1] == s[i + j - 1]);
        assert(t[0] == s[i]);
    }
    (i, i + j)
}

/// Stripping takes the copies of one character off an end, all of them, and nothing else.
pub proof fn law_strip(c: char, left: Seq<char>, text: Seq<char>, right: Seq<char>)
    requires
        forall|k: int| 0 <= k < left.len() ==> #[trigger] left[k] == c,
        forall|k: int| 0 <= k < right.len() ==> #[trigger] right[k] == c,
        text.len() > 0 ==> text.first() != c && text.last() != c,
    ensures
        strip_start(left + text, c) == text,
        strip_end(text + right, c) == text,
    decreases left.len() + right.len(),
{
    if left.len() > 0 {
        assert((left + text).drop_first() =~= left.drop_first() + text);
        assert((left + text).first() == left[0]);
        assert forall|k: int| 0 <= k < left.drop_first().len() implies #[trigger] left.drop_first()[k]
            == c by {
            assert(left.drop_first()[k] == left[k + 1]);
        }
        law_strip(c, left.drop_first(), text, right);
    } else {
        assert(left + text =~= text);
        if right.len() > 0 {
            assert((text + right).drop_last() =~= text + right.drop_last());
            assert((text + right).last() == right[right.len() - 1]);
            assert forall|k: int| 0 <= k < right.drop_last().len() implies #[trigger]
            right.drop_last()[k] == c by {
                assert(right.drop_last()[k] == right[k]);
            }
            law_strip(c, left, text, right.drop_last());
        } else {
            assert(text + right =~= text);
        }
    }
}

/// A text is split at the first of its separators.
pub proof fn law_split_at_first(left: Seq<char>, c: char, right: Seq<char>)
    requires
        !left.contains(c),
    ensures
        before(left.push(c) + right, c) == left,
        after(left.push(c) + right, c) == right,
        before(left, c) == left,
{
    let all = left.push(c) + right;
    assert forall|i: int| 0 <= i < left.len() implies all[i] != c && left[i] != c by {
        assert(left.contains(left[i]));
    }
    assert(all[left.len() as int] == c);
    lemma_position_is(all, c, left.len() as int);
    lemma_position_is(left, c, left.len() as int);
    assert(all.take(left.len() as int) =~= left);
    assert(all.skip(left.len() as int + 1) =~= right);
    assert(left.take(left.len() as int) =~= left);
}

/// What stands behind the last of the separators holds none.
pub proof fn law_split_at_last(left: Seq<char>, c: char, right: Seq<char>)
    requires
        !right.contains(c),
    ensures
        after_last(left.push(c) + right, c) == right,
        after_last(right, c) == right,
{
    let all = left.push(c) + right;
    assert forall|i: int| left.len() < i < all.len() implies all[i] != c by {
        assert(right.contains(right[i - left.len() - 1]));
    }
    lemma_after_last(all, c, left.len() as int + 1);
    assert(all.skip(left.len() as int + 1) =~= right);
}

/// A pattern is found at the first place from an index on where it stands, and not found only where
/// it stands nowhere from there on.
pub proof fn law_find(s: Seq<char>, pattern: Seq<char>, from: int)
    requires
        0 <= from,
    ensures
        match find_from(s, pattern, from) {
            Some(i) => {
                &&& from <= i
                &&& i + pattern.len() <= s.len()
                &&& s.subrange(i, i + pattern.len()) == pattern
                &&& forall|k: int|
                    from <= k < i ==> #[trigger] s.subrange(k, k + pattern.len()) != pattern
            },
            None => forall|k: int|
                from <= k && k + pattern.len() <= s.len() ==> #[trigger] s.subrange(
                    k,
                    k + pattern.len(),
                ) != pattern,
        },
    decreases s.len() + 1 - from,
{
    if from + pattern.len() <= s.len() && !found_at(s, pattern, from) {
        law_find(s, pattern, from + 1);
    }
}

/// The first word of a text is what stands between white space at its start and the next.
pub proof fn law_word(left: Seq<char>, text: Seq<char>, rest: Seq<char>)
    requires
        forall|k: int| 0 <= k < left.len() ==> white(#[trigger] left[k]),
        text.len() > 0,
        forall|k: int| 0 <= k < text.len() ==> !white(#[trigger] text[k]),
        rest.len() > 0 ==> white(rest.first()),
    ensures
        word(left + text + rest) == text,
        after_word(left + text + rest) == rest,
{
    assert(left + text + rest =~= left + (text + rest));
    assert(!white(text[0]));
    lemma_trimmed_start(left, text + rest);
    lemma_word_len(text, rest);
    assert((text + rest).take(text.len() as int) =~= text);
    assert((text + rest).skip(text.len() as int) =~= rest);
}

proof fn lemma_word_len(text: Seq<char>, rest: Seq<char>)
    requires
        forall|k: int| 0 <= k < text.len() ==> !white(#[trigger] text[k]),
        rest.len() > 0 ==> white(rest.first()),
    ensures
        word_len(text + rest) == text.len(),
    decreases text.len(),
{
    let all = text + rest;
    if text.len() > 0 {
        assert(all[0] == text[0]);
        assert(all.drop_first() =~= text.drop_first() + rest);
        assert forall|k: int| 0 <= k < text.drop_first().len() implies !white(
            #[trigger] text.drop_first()[k],
        ) by {
            assert(text.drop_first()[k] == text[k + 1]);
        }
        lemma_word_len(text.drop_first(), rest);
    } else {
        assert(all =~= rest);
    }
}

/// A text of white space has no word.
pub proof fn law_no_word(s: Seq<char>)
    requires
        forall|k: int| 0 <= k < s.len() ==> white(#[trigger] s[k]),
    ensures
        word(s).len() == 0,
{
    lemma_trimmed_start(s, Seq::empty());
    assert(s + Seq::<char>::empty() =~= s);
}

/// Parts can be put together in any order of joining.
pub proof fn lemma_join<A>(a: Seq<A>, b: Seq<A>, c: Seq<A>)
    ensures
        a + b + c == a + (b + c),
{
    assert(a + b + c =~= a + (b + c));
}

/// A text that stands somewhere in another.
pub open spec fn holds(s: Seq<char>, part: Seq<char>) -> bool {
    exists|i: int|
        0 <= i && i + part.len() <= s.len() && #[trigger] s.subrange(i, i + part.len()) == part
}

/// What is put together from parts holds each of them.
pub proof fn law_holds(left: Seq<char>, part: Seq<char>, right: Seq<char>)
    ensures
        holds(left + part + right, part),
        holds(left + part, part),
        holds(part + right, part),
        holds(part, part),
{
    let i = left.len() as int;
    assert((left + part + right).subrange(i, i + part.len()) =~= part);
    assert((left + part).subrange(i, i + part.len()) =~= part);
    assert((part + right).subrange(0, 0int + part.len()) =~= part);
    assert(part.subrange(0, 0int + part.len()) =~= part);
}

/// What a part holds, the whole holds.
pub proof fn law_holds_within(left: Seq<char>, s: Seq<char>, right: Seq<char>, part: Seq<char>)
    requires
        holds(s, part),
    ensures
        holds(left + s + right, part),
        holds(s + right, part),
        holds(left + s, part),
{
    let i = choose|i: int|
        0 <= i && i + part.len() <= s.len() && #[trigger] s.subrange(i, i + part.len()) == part;
    let j = left.len() + i;
    assert((left + s + right).subrange(j, j + part.len()) =~= s.subrange(i, i + part.len()));
    assert((s + right).subrange(i, i + part.len()) =~= s.subrange(i, i + part.len()));
    assert((left + s).subrange(j, j + part.len()) =~= s.subrange(i, i + part.len()));
}

/// White space at the end makes no difference to what is left between white space.
pub proof fn law_trim_twice(s: Seq<char>)
    ensures
        trim(trim_end(s)) == trim(s),
{
    let cut = law_trim_leaves_a_core(s);
    let left = s.take(cut.0);
    let core = trim(s);
    let right = s.skip(cut.1);
    let j = lemma_trim_end(s);
    assert forall|k: int| 0 <= k < left.len() implies white(#[trigger] left[k]) by {
        assert(left[k] == s[k]);
    }
    assert forall|k: int| 0 <= k < right.len() implies white(#[trigger] right[k]) by {
        assert(right[k] == s[k + cut.1]);
    }
    assert(s =~= left + core + right);
    if core.len() > 0 {
        assert(core.last() == s[cut.1 - 1]);
        if j < cut.1 {
            assert(white(s[cut.1 - 1]));
        }
        if j > cut.1 {
            assert(white(s[j - 1]));
        }
        assert(s.take(j) =~= left + core + Seq::<char>::empty());
        law_trim(left, core, Seq::empty());
    } else {
        if j > 0 {
            if j - 1 < cut.0 {
                assert(white(s[j - 1]));
            } else {
                assert(white(s[j - 1]));
            }
        }
        assert(s.take(j) =~= Seq::<char>::empty() + Seq::<char>::empty() + Seq::<char>::empty());
        assert(core =~= Seq::empty());
        law_trim(Seq::empty(), Seq::empty(), Seq::empty());
    }
}

/// White space is taken off behind a character that is none, and that character stays.
pub proof fn law_trim_end_behind(left: Seq<char>, c: char, right: Seq<char>)
    requires
        !white(c),
    ensures
        trim_end(left.push(c) + right) == left.push(c) + trim_end(right),
{
    let j = lemma_trim_end(right);
    let kept = right.take(j);
    let rest = right.skip(j);
    assert forall|k: int| 0 <= k < rest.len() implies white(#[trigger] rest[k]) by {
        assert(rest[k] == right[k + j]);
    }
    let core = left.push(c) + kept;
    let i = lemma_trim_end(left.push(c) + right);
    let all = left.push(c) + right;
    assert(all =~= core + rest);
    if i > core.len() {
        assert(all[i - 1] == rest[i - 1 - core.len()]);
        assert(white(rest[i - 1 - core.len()]));
    }
    if i < core.len() {
        assert(white(all[core.len() - 1]));
        if j > 0 {
            assert(all[core.len() - 1] == right[j - 1]);
        } else {
            assert(all[core.len() - 1] == c);
        }
    }
    assert(all.take(i) =~= core);
}

/// White space is the 25 characters that Unicode gives that property.
pub proof fn law_white_characters(c: char)
    ensures
        white(c) <==> seq![
            9u32, 10u32, 11u32, 12u32, 13u32, 32u32, 133u32, 160u32, 5760u32, 8192u32, 8193u32,
            8194u32, 8195u32, 8196u32, 8197u32, 8198u32, 8199u32, 8200u32, 8201u32, 8202u32, 8232u32,
            8233u32, 8239u32, 8287u32, 12288u32,
        ].contains(c as u32),
{
    let all = seq![
        9u32, 10u32, 11u32, 12u32, 13u32, 32u32, 133u32, 160u32, 5760u32, 8192u32, 8193u32, 8194u32,
        8195u32, 8196u32, 8197u32, 8198u32, 8199u32, 8200u32, 8201u32, 8202u32, 8232u32, 8233u32,
        8239u32, 8287u32, 12288u32,
    ];
    let u = c as u32;
    if white(c) {
        let i: int = if u <= 13 {
            u - 9
        } else if u == 32 {
            5
        } else if u == 133 {
            6
        } else if u == 160 {
            7
        } else if u == 5760 {
            8
        } else if u <= 8202 {
            u - 8192 + 9
        } else if u == 8232 {
            20
        } else if u == 8233 {
            21
        } else if u == 8239 {
            22
        } else if u == 8287 {
            23
        } else {
            24
        };
        assert(all[i] == u);
    }
}

/// The text of strings is that of each, in order.
pub proof fn law_texts(list: Seq<String>, i: int)
    requires
        0 <= i < list.len(),
    ensures
        texts(list).len() == list.len(),
        texts(list)[i] == list[i]@,
{
}

} // verus!
