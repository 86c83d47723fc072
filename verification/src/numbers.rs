//! Numbers as text, in decimal and in hexadecimal, and back.
use crate::text::chars_of;
use vstd::prelude::*;
use vstd::string::*;

verus! {

/// The digit of `n`, for `n` below sixteen.
pub open spec fn digit(n: nat) -> char {
    if n < 10 {
        (n + 48) as char
    } else {
        (n + 87) as char
    }
}

/// `n` in decimal, without leading zeros.
pub open spec fn decimal(n: nat) -> Seq<char>
    decreases n,
{
    if n < 10 {
        seq![digit(n)]
    } else {
        decimal(n / 10).push(digit(n % 10))
    }
}

/// `n` in decimal, with a minus sign where it is negative.
pub open spec fn signed_decimal(n: int) -> Seq<char> {
    if n < 0 {
        seq!['-'] + decimal((-n) as nat)
    } else {
        decimal(n as nat)
    }
}

/// `n` in hexadecimal with lower case letters, without leading zeros.
pub open spec fn hex(n: nat) -> Seq<char>
    decreases n,
{
    if n < 16 {
        seq![digit(n)]
    } else {
        hex(n / 16).push(digit(n % 16))
    }
}

/// The `width` lowest hexadecimal digits of `n`.
pub open spec fn hex_digits(n: nat, width: nat) -> Seq<char>
    decreases width,
{
    if width == 0 {
        Seq::empty()
    } else {
        hex_digits(n / 16, (width - 1) as nat).push(digit(n % 16))
    }
}

/// The `width` lowest decimal digits of `n`.
pub open spec fn decimal_digits(n: nat, width: nat) -> Seq<char>
    decreases width,
{
    if width == 0 {
        Seq::empty()
    } else {
        decimal_digits(n / 10, (width - 1) as nat).push(digit(n % 10))
    }
}

fn digit_char(n: u8) -> (r: char)
    requires
        n < 16,
    ensures
        r == digit(n as nat),
{
    if n < 10 {
        (n + 48) as char
    } else {
        (n + 87) as char
    }
}

/// The text of `n` in decimal.
pub fn to_decimal(n: u64) -> (r: String)
    ensures
        r@ == decimal(n as nat),
    decreases n,
{
    if n < 10 {
        let mut r = String::new();
        r.push(digit_char(n as u8));
        assert(r@ =~= decimal(n as nat));
        r
    } else {
        let mut r = to_decimal(n / 10);
        r.push(digit_char((n % 10) as u8));
        r
    }
}

/// The text of a signed number in decimal.
pub fn to_signed_decimal(n: i64) -> (r: String)
    ensures
        r@ == signed_decimal(n as int),
{
    if n < 0 {
        let magnitude: u64 = (-(n + 1)) as u64 + 1;
        let mut r = String::new();
        r.push('-');
        assert(r@ =~= seq!['-']);
        r.append(to_decimal(magnitude).as_str());
        r
    } else {
        to_decimal(n as u64)
    }
}

/// The text of `n` in hexadecimal.
pub fn to_hex(n: u64) -> (r: String)
    ensures
        r@ == hex(n as nat),
    decreases n,
{
    if n < 16 {
        let mut r = String::new();
        r.push(digit_char(n as u8));
        assert(r@ =~= hex(n as nat));
        r
    } else {
        let mut r = to_hex(n / 16);
        r.push(digit_char((n % 16) as u8));
        r
    }
}

/// The `width` lowest hexadecimal digits of `n`.
pub fn to_hex_digits(n: u64, width: usize) -> (r: String)
    ensures
        r@ == hex_digits(n as nat, width as nat),
    decreases width,
{
    if width == 0 {
        String::new()
    } else {
        let mut r = to_hex_digits(n / 16, width - 1);
        r.push(digit_char((n % 16) as u8));
        r
    }
}

// ---------------------------------------------------------------------------
// Reading numbers

/// Whether `c` is a decimal digit.
pub open spec fn is_digit(c: char) -> bool {
    '0' as u32 <= c as u32 <= '9' as u32
}

/// The number that a sequence of decimal digits stands for.
pub open spec fn value(s: Seq<char>) -> nat
    decreases s.len(),
{
    if s.len() == 0 {
        0
    } else {
        value(s.drop_last()) * 10 + (s.last() as u32 - '0' as u32) as nat
    }
}

/// `s` without a plus sign at its start.
pub open spec fn unsigned(s: Seq<char>) -> Seq<char> {
    if s.len() > 0 && s.first() == '+' {
        s.drop_first()
    } else {
        s
    }
}

/// The number that `s` spells: one or more decimal digits, which a plus sign may precede, no
/// larger than `max`.
pub open spec fn number(s: Seq<char>, max: nat) -> Option<nat> {
    let d = unsigned(s);
    if d.len() > 0 && (forall|i: int| 0 <= i < d.len() ==> is_digit(d[i])) && value(d) <= max {
        Some(value(d))
    } else {
        None
    }
}

/// The number of a prefix is no larger than the number of the whole.
proof fn lemma_value_prefix(s: Seq<char>, n: int)
    requires
        0 <= n <= s.len(),
        forall|i: int| 0 <= i < s.len() ==> is_digit(s[i]),
    ensures
        value(s.take(n)) <= value(s),
    decreases s.len(),
{
    if n == s.len() {
        assert(s.take(n) =~= s);
    } else {
        assert(s.drop_last().take(n) =~= s.take(n));
        lemma_value_prefix(s.drop_last(), n);
        assert(is_digit(s.last()));
    }
}

/// The number that the string spells, if it fits into a `u64`.
pub fn parse_u64(s: &str) -> (r: Option<u64>)
    ensures
        match r {
            Some(n) => number(s@, u64::MAX as nat) == Some(n as nat),
            None => number(s@, u64::MAX as nat) is None,
        },
{
    let cs = chars_of(s);
    let from: usize = if cs.len() > 0 && cs[0] == '+' {
        1
    } else {
        0
    };
    let ghost d = unsigned(s@);
    assert(d =~= cs@.skip(from as int));
    if cs.len() == from {
        return None;
    }
    let mut n: u64 = 0;
    let mut i: usize = from;
    while i < cs.len()
        invariant
            from <= i <= cs.len(),
            from <= 1,
            cs@ == s@,
            d == unsigned(s@),
            d == cs@.skip(from as int),
            forall|j: int| 0 <= j < i - from ==> is_digit(d[j]),
            n == value(d.take(i - from)),
        decreases cs.len() - i,
    {
        let u: u32 = cs[i] as u32;
        assert(d[i - from] == cs@[i as int]);
        if u < 48 || u > 57 {
            assert(!is_digit(d[i - from]));
            return None;
        }
        let v: u64 = (u - 48) as u64;
        assert(d.take(i - from + 1).drop_last() =~= d.take(i - from));
        assert(value(d.take(i - from + 1)) == n * 10 + v);
        if n > (u64::MAX - v) / 10 {
            proof {
                if forall|j: int| 0 <= j < d.len() ==> is_digit(d[j]) {
                    lemma_value_prefix(d, i - from + 1);
                }
            }
            return None;
        }
        n = n * 10 + v;
        i += 1;
    }
    assert(d.take(d.len() as int) =~= d);
    Some(n)
}

// ---------------------------------------------------------------------------
// Writing and reading agree

/// The digits of a number spell it.
pub proof fn lemma_decimal_value(n: nat)
    ensures
        decimal(n).len() > 0,
        forall|i: int| 0 <= i < decimal(n).len() ==> is_digit(#[trigger] decimal(n)[i]),
        value(decimal(n)) == n,
    decreases n,
{
    reveal_with_fuel(value, 2);
    if n < 10 {
        assert(decimal(n).drop_last() =~= Seq::<char>::empty());
    } else {
        lemma_decimal_value(n / 10);
        assert(decimal(n).drop_last() =~= decimal(n / 10));
    }
}

/// Reading a number's decimal text gives the number back.
pub proof fn law_decimal_round_trip(n: nat, max: nat)
    requires
        n <= max,
    ensures
        number(decimal(n), max) == Some(n),
{
    lemma_decimal_value(n);
    assert(is_digit(decimal(n)[0]));
}

// ---------------------------------------------------------------------------
// Laws

/// Decimal text grows by one digit for each factor of ten, and digits are the characters from `0`
/// on.
pub proof fn law_decimal_digits(n: nat, d: nat)
    requires
        d < 10,
    ensures
        decimal(d) == seq![(48 + d) as char],
        n > 0 ==> decimal(10 * n + d) == decimal(n).push((48 + d) as char),
        decimal_digits(10 * n + d, 0) == Seq::<char>::empty(),
        forall|width: nat|
            #[trigger] decimal_digits(10 * n + d, width + 1) == decimal_digits(n, width).push(
                (48 + d) as char,
            ),
{
    assert((10 * n + d) / 10 == n && (10 * n + d) % 10 == d);
}

/// A negative number is a minus sign and the number without it.
pub proof fn law_signed_decimal(n: nat)
    ensures
        signed_decimal(n as int) == decimal(n),
        n > 0 ==> signed_decimal(-n) == seq!['-'] + decimal(n),
{
}

/// Hexadecimal text grows by one digit for each factor of sixteen; the digits from ten on are the
/// small letters from `a` on.
pub proof fn law_hex_digits(n: nat, d: nat)
    requires
        d < 16,
    ensures
        ({
            let c = if d < 10 {
                (48 + d) as char
            } else {
                (97 + d - 10) as char
            };
            &&& hex(d) == seq![c]
            &&& n > 0 ==> hex(16 * n + d) == hex(n).push(c)
            &&& hex_digits(16 * n + d, 0) == Seq::<char>::empty()
            &&& forall|width: nat|
                #[trigger] hex_digits(16 * n + d, width + 1) == hex_digits(n, width).push(c)
        }),
{
    assert((16 * n + d) / 16 == n && (16 * n + d) % 16 == d);
}

/// A number is read from digits alone, each of them counting ten times less than the one before it,
/// and a plus sign in front changes nothing.
pub proof fn law_number_reads_digits(s: Seq<char>, d: nat, max: nat)
    requires
        d < 10,
        forall|i: int| 0 <= i < s.len() ==> 48 <= (#[trigger] s[i]) as u32 <= 57,
    ensures
        number(seq![(48 + d) as char], max) == if d <= max {
            Some(d)
        } else {
            None
        },
        forall|n: nat|
            #[trigger] number(s, 10 * n + 9) == Some(n) ==> number(s.push((48 + d) as char), max)
                == if 10 * n + d <= max {
                Some(10 * n + d)
            } else {
                None
            },
        number(seq!['+'] + s, max) == number(s, max),
{
    let last = (48 + d) as char;
    reveal_with_fuel(value, 2);
    let one = seq![last];
    assert(one.drop_last() =~= Seq::empty());
    assert(s.push(last).drop_last() =~= s);
    assert(s.len() > 0 ==> s[0] != '+');
    assert(value(s.push(last)) == value(s) * 10 + d);
    assert((seq!['+'] + s).drop_first() =~= s);
    assert(unsigned(s.push(last)) == s.push(last)) by {
        if s.len() > 0 {
            assert(s.push(last)[0] == s[0]);
        }
    }
    assert forall|i: int| 0 <= i < s.push(last).len() implies is_digit(s.push(last)[i]) by {
        if i < s.len() {
            assert(s.push(last)[i] == s[i]);
        }
    }
    assert forall|i: int| 0 <= i < s.len() implies is_digit(s[i]) by {}
}

/// Nothing else is a number: not the empty text, and no text with a character that is no digit,
/// but for one plus sign in front.
pub proof fn law_only_digits_are_numbers(s: Seq<char>, max: nat, i: int)
    requires
        s.len() == 0 || (0 <= i < s.len() && !(48 <= s[i] as u32 <= 57) && (i > 0 || s[i] != '+'
            || s.len() == 1)),
    ensures
        number(s, max) is None,
{
    let d = unsigned(s);
    if d.len() > 0 {
        if s.first() == '+' {
            assert(d[i - 1] == s[i]);
            assert(!is_digit(d[i - 1]));
        } else {
            assert(!is_digit(d[i]));
        }
    }
}

} // verus!
