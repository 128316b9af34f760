//! Integers written as text: an optional sign followed by digits in base 10 or 16.
use vstd::prelude::*;
use vstd::string::StrSliceExecFns;

verus! {

/// The value of `c` as a digit in base `radix`, for bases up to 16: `0`-`9`, then
/// `a`-`f` in either case. `None` where `c` is no digit of that base.
pub open spec fn digit_value(c: char, radix: int) -> Option<int> {
    let v: int = if '0' <= c && c <= '9' {
        c as int - '0' as int
    } else if 'a' <= c && c <= 'f' {
        c as int - 'a' as int + 10
    } else if 'A' <= c && c <= 'F' {
        c as int - 'A' as int + 10
    } else {
        radix
    };
    if v < radix {
        Some(v)
    } else {
        None
    }
}

/// Every character of `s` is a digit in base `radix`.
pub open spec fn all_digits(s: Seq<char>, radix: int) -> bool {
    forall|i: int| 0 <= i < s.len() ==> (#[trigger] digit_value(s[i], radix)) is Some
}

/// The number that the digit string `s` denotes in base `radix`, most significant
/// digit first. A character that is no digit counts as zero.
pub open spec fn digits_value(s: Seq<char>, radix: int) -> int
    decreases s.len(),
{
    if s.len() == 0 {
        0
    } else {
        digits_value(s.drop_last(), radix) * radix + match digit_value(s.last(), radix) {
            Some(d) => d,
            None => 0,
        }
    }
}

/// Whether `s` opens with a sign that a type with lower bound `lo` accepts: `+`
/// always, `-` only where negative numbers exist.
pub open spec fn has_sign(s: Seq<char>, lo: int) -> bool {
    s.len() > 0 && (s[0] == '+' || (s[0] == '-' && lo < 0))
}

/// What `s` means as an integer in base `radix` within `lo..=hi`.
///
/// The text is an optional sign and then at least one digit, nothing before,
/// between or after. `None` for any other text and for a number outside the range.
pub open spec fn parse_integer(s: Seq<char>, radix: int, lo: int, hi: int) -> Option<int> {
    let body = if has_sign(s, lo) { s.skip(1) } else { s };
    let magnitude = digits_value(body, radix);
    let value = if has_sign(s, lo) && s[0] == '-' { -magnitude } else { magnitude };
    if body.len() > 0 && all_digits(body, radix) && lo <= value <= hi {
        Some(value)
    } else {
        None
    }
}

/// A digit string never denotes less than one of its prefixes does.
pub proof fn lemma_digits_value_grows(s: Seq<char>, radix: int, k: int)
    requires
        2 <= radix,
        0 <= k <= s.len(),
    ensures
        0 <= digits_value(s.take(k), radix) <= digits_value(s, radix),
    decreases s.len(),
{
    if s.len() == 0 {
        assert(s.take(k) =~= s);
    } else {
        let head = s.drop_last();
        let v = digits_value(head, radix);
        lemma_digits_value_grows(head, radix, 0);
        assert(head.take(0) =~= Seq::<char>::empty());
        assert(v * radix >= v) by (nonlinear_arith)
            requires
                v >= 0,
                radix >= 2,
        ;
        if k == s.len() {
            assert(s.take(k) =~= s);
        } else {
            lemma_digits_value_grows(head, radix, k);
            assert(head.take(k) =~= s.take(k));
        }
    }
}

/// The digit that `c` is in base `radix`, if it is one.
pub fn digit_of(c: char, radix: u32) -> (d: Option<u32>)
    requires
        radix == 10 || radix == 16,
    ensures
        d matches Some(v) ==> digit_value(c, radix as int) == Some(v as int),
        d is None ==> digit_value(c, radix as int) is None,
{
    let code: u32 = c as u32;
    let v: u32 = if '0' <= c && c <= '9' {
        code - ('0' as u32)
    } else if 'a' <= c && c <= 'f' {
        code - ('a' as u32) + 10
    } else if 'A' <= c && c <= 'F' {
        code - ('A' as u32) + 10
    } else {
        radix
    };
    if v < radix {
        Some(v)
    } else {
        None
    }
}

/// Reads `s` as an integer in base `radix` within `lo..=hi`.
#[verifier::loop_isolation(false)]
pub fn parse_integer_text(s: &str, radix: u32, lo: i128, hi: i128) -> (r: Option<i128>)
    requires
        radix == 10 || radix == 16,
        -0x1_0000_0000_0000_0000 <= lo <= 0,
        0 <= hi <= 0x1_0000_0000_0000_0000,
    ensures
        r is Some <==> parse_integer(s@, radix as int, lo as int, hi as int) is Some,
        r matches Some(v) ==> parse_integer(s@, radix as int, lo as int, hi as int) == Some(
            v as int,
        ),
{
    let n: usize = s.unicode_len();
    if n == 0 {
        return None;
    }
    let first: char = s.get_char(0);
    let negative: bool = first == '-' && lo < 0;
    let start: usize = if first == '+' || negative { 1 } else { 0 };
    if start == n {
        return None;
    }
    let limit: i128 = if negative { -lo } else { hi };
    let ghost body: Seq<char> = if has_sign(s@, lo as int) { s@.skip(1) } else { s@ };
    let mut acc: i128 = 0;
    let mut i: usize = start;
    assert(body.take(0) =~= Seq::<char>::empty());
    while i < n
        invariant
            radix == 10 || radix == 16,
            start <= i <= n,
            n == s@.len(),
            body == s@.skip(start as int),
            all_digits(body.take(i - start), radix as int),
            acc == digits_value(body.take(i - start), radix as int),
            0 <= acc <= limit <= 0x1_0000_0000_0000_0000,
        decreases n - i,
    {
        let c: char = s.get_char(i);
        let ghost seen: Seq<char> = body.take(i - start + 1);
        assert(seen.drop_last() =~= body.take(i - start));
        assert(seen.last() == c);
        match digit_of(c, radix) {
            None => {
                assert(digit_value(body[i - start], radix as int) is None);
                return None;
            },
            Some(d) => {
                assert(0 <= acc * (radix as i128) <= 0x10_0000_0000_0000_0000) by (nonlinear_arith)
                    requires
                        0 <= acc <= 0x1_0000_0000_0000_0000,
                        0 <= radix <= 16,
                ;
                let next: i128 = acc * (radix as i128) + (d as i128);
                if next > limit {
                    proof {
                        lemma_digits_value_grows(body, radix as int, i - start + 1);
                    }
                    return None;
                }
                acc = next;
            },
        }
        i += 1;
    }
    assert(body.take(i - start) =~= body);
    Some(if negative { -acc } else { acc })
}

/// What `s` means as a signed 64-bit integer written in decimal.
pub open spec fn decimal_i64(s: Seq<char>) -> Option<i64> {
    match parse_integer(s, 10, i64::MIN as int, i64::MAX as int) {
        Some(v) => Some(v as i64),
        None => None,
    }
}

/// What `s` means as an unsigned 8-bit integer written in decimal.
pub open spec fn decimal_u8(s: Seq<char>) -> Option<u8> {
    match parse_integer(s, 10, 0, u8::MAX as int) {
        Some(v) => Some(v as u8),
        None => None,
    }
}

/// What `s` means as an unsigned 32-bit integer written in hexadecimal.
pub open spec fn hex_u32(s: Seq<char>) -> Option<u32> {
    match parse_integer(s, 16, 0, u32::MAX as int) {
        Some(v) => Some(v as u32),
        None => None,
    }
}

/// What `s` means as an unsigned 8-bit integer written in hexadecimal.
pub open spec fn hex_u8(s: Seq<char>) -> Option<u8> {
    match parse_integer(s, 16, 0, u8::MAX as int) {
        Some(v) => Some(v as u8),
        None => None,
    }
}

/// Reads a signed 64-bit integer written in decimal.
pub fn parse_decimal_i64(s: &str) -> (r: Option<i64>)
    ensures
        r == decimal_i64(s@),
{
    match parse_integer_text(s, 10, i64::MIN as i128, i64::MAX as i128) {
        Some(v) => Some(v as i64),
        None => None,
    }
}

/// Reads an unsigned 8-bit integer written in decimal.
pub fn parse_decimal_u8(s: &str) -> (r: Option<u8>)
    ensures
        r == decimal_u8(s@),
{
    match parse_integer_text(s, 10, 0, u8::MAX as i128) {
        Some(v) => Some(v as u8),
        None => None,
    }
}

/// Reads an unsigned 32-bit integer written in hexadecimal.
pub fn parse_hex_u32(s: &str) -> (r: Option<u32>)
    ensures
        r == hex_u32(s@),
{
    match parse_integer_text(s, 16, 0, u32::MAX as i128) {
        Some(v) => Some(v as u32),
        None => None,
    }
}

/// Reads an unsigned 8-bit integer written in hexadecimal.
pub fn parse_hex_u8(s: &str) -> (r: Option<u8>)
    ensures
        r == hex_u8(s@),
{
    match parse_integer_text(s, 16, 0, u8::MAX as i128) {
        Some(v) => Some(v as u8),
        None => None,
    }
}

} // verus!
