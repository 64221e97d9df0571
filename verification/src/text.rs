use vstd::prelude::*;
use vstd::string::StringSliceAdditionalSpecFns;
use crate::tokenizer::scalars_of;

verus! {

/// Whether two texts are the same text.
pub fn same_text(a: &str, b: &str) -> (same: bool)
    ensures
        same == (a@ == b@),
{
    let x = a.as_bytes();
    let y = b.as_bytes();
    proof {
        vstd::utf8::encode_utf8_decode_utf8(a@);
        vstd::utf8::encode_utf8_decode_utf8(b@);
    }
    if x.len() != y.len() {
        return false;
    }
    let mut i: usize = 0;
    while i < x.len()
        invariant
            i <= x.len(),
            x.len() == y.len(),
            x@ == a.spec_bytes(),
            y@ == b.spec_bytes(),
            x@.take(i as int) == y@.take(i as int),
        decreases x.len() - i,
    {
        if x[i] != y[i] {
            proof {
                if a@ == b@ {
                    assert(x@ == y@);
                    assert(x@[i as int] == y@[i as int]);
                }
            }
            return false;
        }
        proof {
            assert(x@.take(i + 1) =~= x@.take(i as int).push(x@[i as int]));
            assert(y@.take(i + 1) =~= y@.take(i as int).push(y@[i as int]));
        }
        i = i + 1;
    }
    proof {
        assert(x@ =~= x@.take(i as int));
        assert(y@ =~= y@.take(i as int));
    }
    true
}

/// Calls `Iterator::collect` on the scalars, which builds a `String` through
/// `String::from_iter`: the string holds exactly these scalars, in order.
#[verifier::external_body]
pub(crate) fn string_of(scalars: &Vec<char>) -> (text: String)
    ensures
        text@ == scalars@,
{
    scalars.iter().collect()
}

/// Calls `String::from_utf8`, which takes the bytes over as a string where
/// they are valid UTF-8 and refuses them where they are not: the string's
/// UTF-8 form is the byte sequence given.
#[verifier::external_body]
pub(crate) fn text_of_bytes(bytes: Vec<u8>) -> (text: Option<String>)
    ensures
        match text {
            Some(t) => vstd::utf8::valid_utf8(bytes@) && vstd::utf8::encode_utf8(t@) == bytes@,
            None => !vstd::utf8::valid_utf8(bytes@),
        },
{
    String::from_utf8(bytes).ok()
}

/// The decimal digit for a number under ten.
pub open spec fn digit_char(d: int) -> char {
    if d == 0 {
        '0'
    } else if d == 1 {
        '1'
    } else if d == 2 {
        '2'
    } else if d == 3 {
        '3'
    } else if d == 4 {
        '4'
    } else if d == 5 {
        '5'
    } else if d == 6 {
        '6'
    } else if d == 7 {
        '7'
    } else if d == 8 {
        '8'
    } else {
        '9'
    }
}

/// The number that a decimal digit stands for.
pub open spec fn digit_value(c: char) -> Option<int> {
    if c == '0' {
        Some(0)
    } else if c == '1' {
        Some(1)
    } else if c == '2' {
        Some(2)
    } else if c == '3' {
        Some(3)
    } else if c == '4' {
        Some(4)
    } else if c == '5' {
        Some(5)
    } else if c == '6' {
        Some(6)
    } else if c == '7' {
        Some(7)
    } else if c == '8' {
        Some(8)
    } else if c == '9' {
        Some(9)
    } else {
        None
    }
}

/// The decimal digits of a natural number, without leading zeros.
pub open spec fn digits(n: nat) -> Seq<char>
    decreases n,
{
    if n < 10 {
        seq![digit_char(n as int)]
    } else {
        digits(n / 10).push(digit_char((n % 10) as int))
    }
}

/// The decimal form of an integer: a minus sign where it is negative, then its digits.
pub open spec fn decimal(n: int) -> Seq<char> {
    if n < 0 {
        seq!['-'] + digits((-n) as nat)
    } else {
        digits(n as nat)
    }
}

/// The number that a string of decimal digits stands for; none where the
/// string is empty or holds anything but digits.
pub open spec fn digits_value(s: Seq<char>) -> Option<int>
    decreases s.len(),
{
    if s.len() == 0 {
        None
    } else if s.len() == 1 {
        digit_value(s[0])
    } else {
        match (digits_value(s.drop_last()), digit_value(s.last())) {
            (Some(v), Some(d)) => Some(v * 10 + d),
            _ => None,
        }
    }
}

/// The 64-bit integer that a text spells: an optional sign, then decimal
/// digits and nothing else, the value within the range of `i64`.
pub open spec fn parse_i64(text: Seq<char>) -> Option<i64> {
    let negative = text.len() > 0 && text[0] == '-';
    let signed = text.len() > 0 && (text[0] == '-' || text[0] == '+');
    let body = if signed {
        text.drop_first()
    } else {
        text
    };
    match digits_value(body) {
        Some(v) => {
            let n = if negative {
                -v
            } else {
                v
            };
            if i64::MIN <= n <= i64::MAX {
                Some(n as i64)
            } else {
                None
            }
        },
        None => None,
    }
}

fn digit_of(d: u64) -> (c: char)
    requires
        d < 10,
    ensures
        c == digit_char(d as int),
{
    if d == 0 {
        '0'
    } else if d == 1 {
        '1'
    } else if d == 2 {
        '2'
    } else if d == 3 {
        '3'
    } else if d == 4 {
        '4'
    } else if d == 5 {
        '5'
    } else if d == 6 {
        '6'
    } else if d == 7 {
        '7'
    } else if d == 8 {
        '8'
    } else {
        '9'
    }
}

fn value_of(c: char) -> (v: Option<u128>)
    ensures
        match v {
            Some(d) => digit_value(c) == Some(d as int) && d < 10,
            None => digit_value(c) is None,
        },
{
    if c == '0' {
        Some(0)
    } else if c == '1' {
        Some(1)
    } else if c == '2' {
        Some(2)
    } else if c == '3' {
        Some(3)
    } else if c == '4' {
        Some(4)
    } else if c == '5' {
        Some(5)
    } else if c == '6' {
        Some(6)
    } else if c == '7' {
        Some(7)
    } else if c == '8' {
        Some(8)
    } else if c == '9' {
        Some(9)
    } else {
        None
    }
}

fn push_digits(n: u64, out: &mut Vec<char>)
    ensures
        final(out)@ == old(out)@ + digits(n as nat),
    decreases n,
{
    if n >= 10 {
        push_digits(n / 10, out);
    }
    let ghost before = out@;
    out.push(digit_of(n % 10));
    proof {
        if n >= 10 {
            assert(out@ =~= old(out)@ + digits(n as nat));
        } else {
            assert(out@ =~= old(out)@ + digits(n as nat));
        }
    }
}

/// Writes an integer in decimal.
pub fn render_decimal(n: i64) -> (text: Vec<char>)
    ensures
        text@ == decimal(n as int),
{
    let mut text: Vec<char> = Vec::new();
    if n < 0 {
        text.push('-');
        let magnitude: u64 = if n == i64::MIN {
            0x8000_0000_0000_0000
        } else {
            (-n) as u64
        };
        push_digits(magnitude, &mut text);
        proof {
            assert(text@ =~= seq!['-'] + digits((-n) as nat));
        }
    } else {
        push_digits(n as u64, &mut text);
        proof {
            assert(text@ =~= digits(n as nat));
        }
    }
    text
}

/// A string of digits stands for at least what any of its prefixes stands
/// for, and for nothing where a prefix stands for nothing.
proof fn lemma_digits_value_prefix(s: Seq<char>, k: int)
    requires
        1 <= k <= s.len(),
    ensures
        digits_value(s.take(k)) is None ==> digits_value(s) is None,
        digits_value(s) matches Some(v) ==> digits_value(s.take(k)) matches Some(u) && 0 <= u
            <= v,
    decreases s.len() - k,
{
    if k == s.len() {
        assert(s.take(k) =~= s);
        lemma_digits_value_nonnegative(s);
    } else {
        lemma_digits_value_prefix(s, k + 1);
        assert(s.take(k + 1).drop_last() =~= s.take(k));
        lemma_digits_value_nonnegative(s.take(k));
    }
}

proof fn lemma_digits_value_nonnegative(s: Seq<char>)
    ensures
        digits_value(s) matches Some(v) ==> 0 <= v,
    decreases s.len(),
{
    if s.len() > 1 {
        lemma_digits_value_nonnegative(s.drop_last());
    }
}

/// Reads a 64-bit integer written in decimal.
pub fn read_i64(text: &str) -> (number: Option<i64>)
    ensures
        number == parse_i64(text@),
{
    let scalars = scalars_of(text);
    let n = scalars.len();
    let negative = n > 0 && scalars[0] == '-';
    let signed = n > 0 && (scalars[0] == '-' || scalars[0] == '+');
    let start: usize = if signed {
        1
    } else {
        0
    };
    let ghost body = if signed {
        text@.drop_first()
    } else {
        text@
    };
    if start >= n {
        assert(body.len() == 0);
        return None;
    }
    let mut acc: u128 = 0;
    let mut k: usize = start;
    while k < n
        invariant
            start <= k <= n,
            n == scalars.len(),
            scalars@ == text@,
            negative == (text@.len() > 0 && text@[0] == '-'),
            signed == (text@.len() > 0 && (text@[0] == '-' || text@[0] == '+')),
            start == if signed {
                1usize
            } else {
                0usize
            },
            body == if signed {
                text@.drop_first()
            } else {
                text@
            },
            acc <= 0x8000_0000_0000_0000,
            k == start ==> acc == 0,
            k > start ==> digits_value(body.take(k - start)) == Some(acc as int),
        decreases n - k,
    {
        let ghost prefix = body.take(k + 1 - start);
        proof {
            assert(prefix.drop_last() =~= body.take(k - start));
            assert(prefix.last() == text@[k as int]);
            lemma_digits_value_prefix(body, k + 1 - start);
        }
        match value_of(scalars[k]) {
            None => {
                return None;
            },
            Some(d) => {
                let next = acc * 10 + d;
                assert(digits_value(prefix) == Some(next as int));
                if next > 0x8000_0000_0000_0000 {
                    return None;
                }
                acc = next;
            },
        }
        k = k + 1;
    }
    proof {
        assert(body.take(n - start) =~= body);
    }
    if negative {
        if acc == 0x8000_0000_0000_0000 {
            Some(i64::MIN)
        } else {
            Some(-(acc as i64))
        }
    } else if acc == 0x8000_0000_0000_0000 {
        None
    } else {
        Some(acc as i64)
    }
}

} // verus!
