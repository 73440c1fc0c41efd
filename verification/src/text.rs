//! Building messages: concatenation, decimal numbers and quoted strings.
use vstd::prelude::*;

verus! {

/// The character of a decimal digit.
pub open spec fn digit_char(d: int) -> char {
    ('0' as int + d) as char
}

/// The decimal digits of `n`, without leading zeros.
pub open spec fn decimal(n: nat) -> Seq<char>
    decreases n,
{
    if n < 10 {
        seq![digit_char(n as int)]
    } else {
        decimal(n / 10).push(digit_char((n % 10) as int))
    }
}

/// The decimal digits of `n`, with a minus sign in front of a negative number.
pub open spec fn signed_decimal(n: int) -> Seq<char> {
    if n < 0 {
        seq!['-'] + decimal((-n) as nat)
    } else {
        decimal(n as nat)
    }
}

/// What `{:?}` prints of a string: the text in double quotes with the escapes of
/// the standard library's `Debug`.
pub uninterp spec fn debug_text(s: Seq<char>) -> Seq<char>;

/// `{:?}` of a string slice, by the standard library's `Debug for str`. The text it
/// prints depends on the string alone; it is named `debug_text` here, and nothing
/// more is claimed of it.
#[verifier::external_body]
pub(crate) fn quoted(s: &str) -> (r: String)
    ensures
        r@ == debug_text(s@),
{
    format!("{s:?}")
}

/// One text after the other.
pub(crate) fn cat2(a: &str, b: &str) -> (r: String)
    ensures
        r@ == a@ + b@,
{
    let mut r: String = a.to_owned();
    r.append(b);
    r
}

/// Three texts in a row.
pub(crate) fn cat3(a: &str, b: &str, c: &str) -> (r: String)
    ensures
        r@ == a@ + b@ + c@,
{
    let mut r: String = a.to_owned();
    r.append(b);
    r.append(c);
    r
}

/// Four texts in a row.
pub(crate) fn cat4(a: &str, b: &str, c: &str, d: &str) -> (r: String)
    ensures
        r@ == a@ + b@ + c@ + d@,
{
    let mut r: String = a.to_owned();
    r.append(b);
    r.append(c);
    r.append(d);
    r
}

/// Five texts in a row.
pub(crate) fn cat5(a: &str, b: &str, c: &str, d: &str, e: &str) -> (r: String)
    ensures
        r@ == a@ + b@ + c@ + d@ + e@,
{
    let mut r: String = a.to_owned();
    r.append(b);
    r.append(c);
    r.append(d);
    r.append(e);
    r
}

/// The text of one decimal digit.
fn digit_text(d: u64) -> (r: &'static str)
    requires
        d < 10,
    ensures
        r@ == seq![digit_char(d as int)],
{
    proof {
        reveal_strlit("0");
        reveal_strlit("1");
        reveal_strlit("2");
        reveal_strlit("3");
        reveal_strlit("4");
        reveal_strlit("5");
        reveal_strlit("6");
        reveal_strlit("7");
        reveal_strlit("8");
        reveal_strlit("9");
    }
    if d == 0 {
        "0"
    } else if d == 1 {
        "1"
    } else if d == 2 {
        "2"
    } else if d == 3 {
        "3"
    } else if d == 4 {
        "4"
    } else if d == 5 {
        "5"
    } else if d == 6 {
        "6"
    } else if d == 7 {
        "7"
    } else if d == 8 {
        "8"
    } else {
        "9"
    }
}

/// The decimal digits of an unsigned number.
pub fn dec(n: u64) -> (r: String)
    ensures
        r@ == decimal(n as nat),
    decreases n,
{
    if n < 10 {
        digit_text(n).to_owned()
    } else {
        let mut r: String = dec(n / 10);
        r.append(digit_text(n % 10));
        proof {
            assert(decimal((n / 10) as nat) + seq![digit_char((n % 10) as int)] =~= decimal(
                n as nat,
            ));
        }
        r
    }
}

/// The decimal digits of a signed number.
pub fn signed_dec(n: i64) -> (r: String)
    ensures
        r@ == signed_decimal(n as int),
{
    if n >= 0 {
        dec(n as u64)
    } else {
        let magnitude: u64 = if n == i64::MIN {
            0x8000_0000_0000_0000
        } else {
            (-n) as u64
        };
        proof {
            reveal_strlit("-");
            assert("-"@ =~= seq!['-']);
        }
        let digits: String = dec(magnitude);
        cat2("-", digits.as_str())
    }
}


/// The characters of a string.
pub(crate) fn chars_of(s: &str) -> (r: Vec<char>)
    ensures
        r@ == s@,
{
    let mut r: Vec<char> = Vec::new();
    for c in it: s.chars()
        invariant
            it.seq() == s@,
            r@ == s@.take(it.index()),
    {
        r.push(c);
        assert(s@.take(it.index() + 1) =~= s@.take(it.index()).push(c));
    }
    assert(s@.take(s@.len() as int) =~= s@);
    r
}

/// The value of a decimal digit.
pub open spec fn digit_value(c: char) -> Option<int> {
    if '0' <= c && c <= '9' {
        Some(c as int - '0' as int)
    } else {
        None
    }
}

/// The number that a run of decimal digits stands for, if all of them are digits.
pub open spec fn digits_value(s: Seq<char>) -> Option<nat>
    decreases s.len(),
{
    if s.len() == 0 {
        Some(0)
    } else {
        match (digits_value(s.drop_last()), digit_value(s.last())) {
            (Some(v), Some(d)) => Some((v * 10 + d) as nat),
            _ => None,
        }
    }
}

/// The text of an unsigned number without its sign, where it has one.
pub open spec fn after_plus(s: Seq<char>) -> Seq<char> {
    if s.len() > 0 && s[0] == '+' {
        s.skip(1)
    } else {
        s
    }
}

/// An unsigned 32-bit number in decimal: an optional plus sign, then digits.
pub open spec fn u32_value(s: Seq<char>) -> Option<u32> {
    let digits = after_plus(s);
    match digits_value(digits) {
        Some(v) => if digits.len() > 0 && v <= u32::MAX {
            Some(v as u32)
        } else {
            None
        },
        None => None,
    }
}

proof fn digits_value_fails_on(s: Seq<char>, k: int)
    requires
        0 <= k < s.len(),
        digits_value(s.take(k + 1)) is None,
    ensures
        digits_value(s) is None,
    decreases s.len() - k,
{
    if k + 1 < s.len() {
        assert(s.take(k + 2).drop_last() =~= s.take(k + 1));
        digits_value_fails_on(s, k + 1);
    } else {
        assert(s.take(k + 1) =~= s);
    }
}

proof fn digits_value_grows(s: Seq<char>, k: int)
    requires
        0 <= k <= s.len(),
    ensures
        match (digits_value(s), digits_value(s.take(k))) {
            (Some(v), Some(u)) => u <= v,
            (Some(_), None) => false,
            _ => true,
        },
    decreases s.len() - k,
{
    if k < s.len() {
        digits_value_grows(s, k + 1);
        assert(s.take(k + 1).drop_last() =~= s.take(k));
    } else {
        assert(s.take(k) =~= s);
    }
}

/// Reads an unsigned 32-bit number in decimal.
pub(crate) fn parse_u32(s: &[char]) -> (r: Option<u32>)
    ensures
        r == u32_value(s@),
{
    let start: usize = if s.len() > 0 && s[0] == '+' {
        1
    } else {
        0
    };
    let ghost digits = after_plus(s@);
    if s.len() == start {
        return None;
    }
    let mut value: u64 = 0;
    let mut i: usize = start;
    while i < s.len()
        invariant
            start <= i <= s.len(),
            start == (if s@.len() > 0 && s@[0] == '+' {
                1int
            } else {
                0
            }),
            digits == after_plus(s@),
            digits.len() == s@.len() - start,
            digits.len() > 0,
            value <= u32::MAX,
            digits_value(digits.take(i - start)) == Some(value as nat),
        decreases s.len() - i,
    {
        let c: char = s[i];
        let ghost k = i - start;
        assert(digits[k] == c);
        assert(digits.take(k + 1).drop_last() =~= digits.take(k));
        assert(digits.take(k + 1).last() == c);
        if c < '0' || c > '9' {
            proof {
                digits_value_fails_on(digits, k);
            }
            return None;
        }
        value = value * 10 + (c as u32 - '0' as u32) as u64;
        if value > 0xFFFF_FFFF {
            proof {
                digits_value_grows(digits, k + 1);
            }
            return None;
        }
        i = i + 1;
    }
    assert(digits.take(digits.len() as int) =~= digits);
    Some(value as u32)
}

/// The value of a hexadecimal digit.
pub open spec fn hex_value(c: char) -> Option<int> {
    if '0' <= c && c <= '9' {
        Some(c as int - '0' as int)
    } else if 'a' <= c && c <= 'f' {
        Some(c as int - 'a' as int + 10)
    } else if 'A' <= c && c <= 'F' {
        Some(c as int - 'A' as int + 10)
    } else {
        None
    }
}

/// The value of a hexadecimal digit.
pub(crate) fn hex_digit(c: char) -> (r: Option<u8>)
    ensures
        match r {
            Some(v) => v < 16 && hex_value(c) == Some(v as int),
            None => hex_value(c) is None,
        },
{
    if '0' <= c && c <= '9' {
        Some((c as u32 - '0' as u32) as u8)
    } else if 'a' <= c && c <= 'f' {
        Some((c as u32 - 'a' as u32 + 10) as u8)
    } else if 'A' <= c && c <= 'F' {
        Some((c as u32 - 'A' as u32 + 10) as u8)
    } else {
        None
    }
}

/// Whether the characters from `at` on begin with `prefix`.
pub open spec fn begins(s: Seq<char>, prefix: Seq<char>) -> bool {
    prefix.len() <= s.len() && s.take(prefix.len() as int) == prefix
}

/// Whether a text begins with another.
pub(crate) fn begins_with(s: &str, prefix: &str) -> (r: bool)
    ensures
        r == begins(s@, prefix@),
{
    let n: usize = prefix.unicode_len();
    if s.unicode_len() < n {
        return false;
    }
    let mut i: usize = 0;
    while i < n
        invariant
            i <= n,
            n == prefix@.len(),
            n <= s@.len(),
            s@.take(i as int) =~= prefix@.take(i as int),
        decreases n - i,
    {
        if s.get_char(i) != prefix.get_char(i) {
            proof {
                assert(s@.take(n as int)[i as int] != prefix@[i as int]);
            }
            return false;
        }
        proof {
            assert(s@.take(i + 1) =~= s@.take(i as int).push(s@[i as int]));
            assert(prefix@.take(i + 1) =~= prefix@.take(i as int).push(prefix@[i as int]));
        }
        i = i + 1;
    }
    assert(prefix@.take(n as int) =~= prefix@);
    true
}

/// Whether two texts are the same.
pub(crate) fn same_text(a: &str, b: &str) -> (r: bool)
    ensures
        r == (a@ == b@),
{
    let same: bool = a.unicode_len() == b.unicode_len() && begins_with(a, b);
    proof {
        if a@.len() == b@.len() {
            assert(a@.take(b@.len() as int) =~= a@);
        }
    }
    same
}

/// The text that bytes encode, by the standard library's `String::from_utf8`: it is there
/// exactly where the bytes are valid UTF-8, and it is what they encode.
#[verifier::external_body]
pub(crate) fn decode_text(bytes: &[u8]) -> (r: Option<String>)
    ensures
        match r {
            Some(s) => vstd::utf8::valid_utf8(bytes@) && s@ == vstd::utf8::decode_utf8(bytes@),
            None => !vstd::utf8::valid_utf8(bytes@),
        },
{
    String::from_utf8(bytes.to_vec()).ok()
}

/// A text occurs in another from place `i` on.
pub open spec fn occurs_at(s: Seq<char>, part: Seq<char>, i: int) -> bool {
    0 <= i && i + part.len() <= s.len() && s.subrange(i, i + part.len()) == part
}

/// A text occurs in another.
pub open spec fn occurs(s: Seq<char>, part: Seq<char>) -> bool {
    exists|i: int| #[trigger] occurs_at(s, part, i)
}

/// Whether a text occurs in another.
pub(crate) fn contains_text(s: &Vec<char>, part: &Vec<char>) -> (r: bool)
    ensures
        r == occurs(s@, part@),
{
    if part.len() > s.len() {
        return false;
    }
    let count: usize = s.len();
    let last: usize = count - part.len();
    let mut i: usize = 0;
    while i <= last
        invariant
            count == s@.len(),
            last == count - part@.len(),
            i <= last + 1,
            forall|k: int| 0 <= k < i ==> !#[trigger] occurs_at(s@, part@, k),
        decreases last + 1 - i,
    {
        let mut k: usize = 0;
        while k < part.len() && s[i + k] == part[k]
            invariant
                count == s@.len(),
                last == count - part@.len(),
                i <= last,
                k <= part@.len(),
                forall|j: int| 0 <= j < k ==> s@[i + j] == #[trigger] part@[j],
            decreases part.len() - k,
        {
            k = k + 1;
        }
        if k == part.len() {
            assert(s@.subrange(i as int, i + part@.len()) =~= part@);
            assert(occurs_at(s@, part@, i as int));
            return true;
        }
        proof {
            if occurs_at(s@, part@, i as int) {
                assert(s@.subrange(i as int, i + part@.len())[k as int] == part@[k as int]);
            }
        }
        if i == last {
            assert forall|k: int| !#[trigger] occurs_at(s@, part@, k) by {}
            return false;
        }
        i = i + 1;
    }
    assert forall|k: int| !#[trigger] occurs_at(s@, part@, k) by {}
    false
}

} // verus!
