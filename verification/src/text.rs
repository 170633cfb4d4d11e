//! Character classes, searching and splitting of character sequences, and
//! canonical decimal and hexadecimal numerals, as used by the host and port
//! grammars.

use vstd::prelude::*;

verus! {

// ---------------------------------------------------------------------------
// Character classes
// ---------------------------------------------------------------------------

/// An ASCII decimal digit.
pub open spec fn is_digit_char(c: char) -> bool {
    '0' <= c && c <= '9'
}

/// The numeric value of a decimal digit.
pub open spec fn digit_val(c: char) -> int {
    c as int - '0' as int
}

/// An ASCII hexadecimal digit, either case.
pub open spec fn is_hex_char(c: char) -> bool {
    ('0' <= c && c <= '9') || ('a' <= c && c <= 'f') || ('A' <= c && c <= 'F')
}

/// The numeric value of a hexadecimal digit.
pub open spec fn hex_val(c: char) -> int {
    if '0' <= c && c <= '9' {
        c as int - '0' as int
    } else if 'a' <= c && c <= 'f' {
        10 + c as int - 'a' as int
    } else {
        10 + c as int - 'A' as int
    }
}

/// The complete alphabet a domain name may use: ASCII letters, ASCII digits,
/// `-`, `.` and `_`.
pub open spec fn is_domain_char(c: char) -> bool {
    ('0' <= c && c <= '9') || ('a' <= c && c <= 'z') || ('A' <= c && c <= 'Z') || c == '-' || c
        == '.' || c == '_'
}

/// Every character of `s` is in the domain alphabet.
pub open spec fn domain_ok(s: Seq<char>) -> bool {
    forall|i: int| 0 <= i < s.len() ==> is_domain_char(#[trigger] s[i])
}

/// The digit value of a decimal digit character, or `None` when `c` is no
/// decimal digit.
pub fn digit_of(c: char) -> (r: Option<u8>)
    ensures
        match r {
            Some(d) => is_digit_char(c) && d == digit_val(c),
            None => !is_digit_char(c),
        },
{
    match c {
        '0' => Some(0),
        '1' => Some(1),
        '2' => Some(2),
        '3' => Some(3),
        '4' => Some(4),
        '5' => Some(5),
        '6' => Some(6),
        '7' => Some(7),
        '8' => Some(8),
        '9' => Some(9),
        _ => None,
    }
}

/// The digit value of a hexadecimal digit character, or `None` when `c` is no
/// hexadecimal digit.
pub fn hex_of(c: char) -> (r: Option<u8>)
    ensures
        match r {
            Some(d) => is_hex_char(c) && d == hex_val(c),
            None => !is_hex_char(c),
        },
{
    match c {
        '0' => Some(0),
        '1' => Some(1),
        '2' => Some(2),
        '3' => Some(3),
        '4' => Some(4),
        '5' => Some(5),
        '6' => Some(6),
        '7' => Some(7),
        '8' => Some(8),
        '9' => Some(9),
        'a' | 'A' => Some(10),
        'b' | 'B' => Some(11),
        'c' | 'C' => Some(12),
        'd' | 'D' => Some(13),
        'e' | 'E' => Some(14),
        'f' | 'F' => Some(15),
        _ => None,
    }
}

/// Whether `c` is in the domain alphabet.
pub fn domain_char(c: char) -> (r: bool)
    ensures
        r == is_domain_char(c),
{
    ('0' <= c && c <= '9') || ('a' <= c && c <= 'z') || ('A' <= c && c <= 'Z') || c == '-' || c
        == '.' || c == '_'
}

// ---------------------------------------------------------------------------
// Searching and splitting
// ---------------------------------------------------------------------------

/// The least index at which `c` occurs in `s`, or `-1` when it does not.
pub open spec fn find_char(s: Seq<char>, c: char) -> int
    decreases s.len(),
{
    if s.len() == 0 {
        -1
    } else if s[0] == c {
        0
    } else {
        let r = find_char(s.skip(1), c);
        if r < 0 {
            -1
        } else {
            r + 1
        }
    }
}

/// The greatest index at which `c` occurs in `s`, or `-1` when it does not.
pub open spec fn rfind_char(s: Seq<char>, c: char) -> int
    decreases s.len(),
{
    if s.len() == 0 {
        -1
    } else if s[s.len() - 1] == c {
        s.len() - 1
    } else {
        rfind_char(s.take(s.len() - 1), c)
    }
}

/// The least index at which two consecutive colons occur, or `-1`.
pub open spec fn find_colon2(s: Seq<char>) -> int
    decreases s.len(),
{
    if s.len() < 2 {
        -1
    } else if s[0] == ':' && s[1] == ':' {
        0
    } else {
        let r = find_colon2(s.skip(1));
        if r < 0 {
            -1
        } else {
            r + 1
        }
    }
}

/// `find_char` returns the least occurrence, or `-1` when there is none.
pub proof fn lemma_find_char(s: Seq<char>, c: char)
    ensures
        find_char(s, c) == -1 ==> (forall|i: int| 0 <= i < s.len() ==> s[i] != c),
        find_char(s, c) != -1 ==> 0 <= find_char(s, c) < s.len() && s[find_char(s, c)] == c && (
        forall|i: int| 0 <= i < find_char(s, c) ==> s[i] != c),
    decreases s.len(),
{
    if s.len() > 0 && s[0] != c {
        lemma_find_char(s.skip(1), c);
        assert(forall|i: int| 1 <= i < s.len() ==> s[i] == s.skip(1)[i - 1]);
    }
}

/// The index with the first-occurrence properties is `find_char`'s result.
pub proof fn lemma_find_char_is(s: Seq<char>, c: char, k: int)
    requires
        0 <= k < s.len(),
        s[k] == c,
        forall|i: int| 0 <= i < k ==> s[i] != c,
    ensures
        find_char(s, c) == k,
{
    lemma_find_char(s, c);
}

/// `rfind_char` returns the greatest occurrence, or `-1` when there is none.
pub proof fn lemma_rfind_char(s: Seq<char>, c: char)
    ensures
        rfind_char(s, c) == -1 ==> (forall|i: int| 0 <= i < s.len() ==> s[i] != c),
        rfind_char(s, c) != -1 ==> 0 <= rfind_char(s, c) < s.len() && s[rfind_char(s, c)] == c && (
        forall|i: int| rfind_char(s, c) < i < s.len() ==> s[i] != c),
    decreases s.len(),
{
    if s.len() > 0 && s[s.len() - 1] != c {
        lemma_rfind_char(s.take(s.len() - 1), c);
        assert(forall|i: int| 0 <= i < s.len() - 1 ==> s[i] == s.take(s.len() - 1)[i]);
    }
}

/// The index with the last-occurrence properties is `rfind_char`'s result.
pub proof fn lemma_rfind_char_is(s: Seq<char>, c: char, k: int)
    requires
        0 <= k < s.len(),
        s[k] == c,
        forall|i: int| k < i < s.len() ==> s[i] != c,
    ensures
        rfind_char(s, c) == k,
{
    lemma_rfind_char(s, c);
}

/// `find_colon2` returns the least index of a `::`, or `-1` when there is none.
pub proof fn lemma_find_colon2(s: Seq<char>)
    ensures
        find_colon2(s) == -1 ==> (forall|i: int|
            0 <= i < s.len() - 1 ==> !(s[i] == ':' && #[trigger] s[i + 1] == ':')),
        find_colon2(s) != -1 ==> 0 <= find_colon2(s) < s.len() - 1 && s[find_colon2(s)] == ':'
            && s[find_colon2(s) + 1] == ':' && (forall|i: int|
            0 <= i < find_colon2(s) ==> !(s[i] == ':' && #[trigger] s[i + 1] == ':')),
    decreases s.len(),
{
    if s.len() >= 2 && !(s[0] == ':' && s[1] == ':') {
        lemma_find_colon2(s.skip(1));
        assert(forall|i: int| 1 <= i < s.len() ==> s[i] == s.skip(1)[i - 1]);
    }
}

/// The fields of `s` between occurrences of `c`; always at least one field.
pub open spec fn split_on(s: Seq<char>, c: char) -> Seq<Seq<char>>
    decreases s.len(),
{
    let i = find_char(s, c);
    if 0 <= i < s.len() {
        seq![s.take(i)] + split_on(s.skip(i + 1), c)
    } else {
        seq![s]
    }
}

/// A sequence without the separator splits into itself alone.
pub proof fn lemma_split_single(s: Seq<char>, c: char)
    requires
        forall|i: int| 0 <= i < s.len() ==> s[i] != c,
    ensures
        split_on(s, c) == seq![s],
{
    lemma_find_char(s, c);
    if find_char(s, c) >= 0 {
        assert(s[find_char(s, c)] == c);
    }
}

/// Splitting `x + c + y` when `x` is free of `c` yields `x` before the split
/// of `y`.
pub proof fn lemma_split_prepend(x: Seq<char>, y: Seq<char>, c: char)
    requires
        forall|i: int| 0 <= i < x.len() ==> x[i] != c,
    ensures
        split_on(x + seq![c] + y, c) == seq![x] + split_on(y, c),
{
    let s = x + seq![c] + y;
    assert(s[x.len() as int] == c);
    assert(forall|i: int| 0 <= i < x.len() ==> s[i] == x[i] && s[i] != c);
    lemma_find_char_is(s, c, x.len() as int);
    assert(s.take(x.len() as int) =~= x);
    assert(s.skip(x.len() as int + 1) =~= y);
}

/// Exec search for the least occurrence of `c` in `s`.
pub fn find_char_str(s: &str, c: char) -> (r: Option<usize>)
    ensures
        match r {
            Some(i) => find_char(s@, c) == i,
            None => find_char(s@, c) == -1,
        },
{
    let n = s.unicode_len();
    let mut i: usize = 0;
    while i < n
        invariant
            i <= n,
            n == s@.len(),
            forall|j: int| 0 <= j < i ==> s@[j] != c,
        decreases n - i,
    {
        if s.get_char(i) == c {
            proof {
                lemma_find_char_is(s@, c, i as int);
            }
            return Some(i);
        }
        i += 1;
    }
    proof {
        lemma_find_char(s@, c);
        if find_char(s@, c) >= 0 {
            assert(s@[find_char(s@, c)] == c);
        }
    }
    None
}

/// Exec search for the greatest occurrence of `c` in `s`.
pub fn rfind_char_str(s: &str, c: char) -> (r: Option<usize>)
    ensures
        match r {
            Some(i) => rfind_char(s@, c) == i,
            None => rfind_char(s@, c) == -1,
        },
{
    let n = s.unicode_len();
    let mut i: usize = n;
    while i > 0
        invariant
            i <= n,
            n == s@.len(),
            forall|j: int| i <= j < n ==> s@[j] != c,
        decreases i,
    {
        i -= 1;
        if s.get_char(i) == c {
            proof {
                lemma_rfind_char_is(s@, c, i as int);
            }
            return Some(i);
        }
    }
    proof {
        lemma_rfind_char(s@, c);
        if rfind_char(s@, c) >= 0 {
            assert(s@[rfind_char(s@, c)] == c);
        }
    }
    None
}

/// Exec search for the least occurrence of `::` in `s`.
pub fn find_colon2_str(s: &str) -> (r: Option<usize>)
    ensures
        match r {
            Some(i) => find_colon2(s@) == i,
            None => find_colon2(s@) == -1,
        },
{
    let n = s.unicode_len();
    if n < 2 {
        proof {
            lemma_find_colon2(s@);
        }
        return None;
    }
    let mut i: usize = 0;
    while i < n - 1
        invariant
            i <= n - 1,
            2 <= n == s@.len(),
            forall|j: int| 0 <= j < i ==> !(s@[j] == ':' && #[trigger] s@[j + 1] == ':'),
        decreases n - i,
    {
        if s.get_char(i) == ':' && s.get_char(i + 1) == ':' {
            proof {
                lemma_find_colon2(s@);
                if find_colon2(s@) != i {
                    assert(false);
                }
            }
            return Some(i);
        }
        i += 1;
    }
    proof {
        lemma_find_colon2(s@);
        if find_colon2(s@) >= 0 {
            assert(s@[find_colon2(s@)] == ':' && s@[find_colon2(s@) + 1] == ':');
        }
    }
    None
}

/// Exec split of `s` on the separator `c`.
pub fn split_str(s: &str, c: char) -> (r: Vec<String>)
    ensures
        r@.map_values(|t: String| t@) == split_on(s@, c),
        r@.len() >= 1,
    decreases s@.len(),
{
    let n = s.unicode_len();
    match find_char_str(s, c) {
        None => {
            let mut v: Vec<String> = Vec::new();
            v.push(String::from_str(s));
            proof {
                assert(v@.map_values(|t: String| t@) =~= seq![s@]);
            }
            v
        },
        Some(i) => {
            proof {
                lemma_find_char(s@, c);
            }
            let head = s.substring_char(0, i);
            let rest = s.substring_char(i + 1, n);
            proof {
                assert(rest@ == s@.skip(i + 1));
            }
            let mut v = split_str(rest, c);
            v.insert(0, String::from_str(head));
            proof {
                assert(head@ == s@.take(i as int));
                assert(v@.map_values(|t: String| t@) =~= seq![s@.take(i as int)] + split_on(
                    s@.skip(i + 1),
                    c,
                ));
            }
            v
        },
    }
}

// ---------------------------------------------------------------------------
// Decimal and hexadecimal numerals
// ---------------------------------------------------------------------------

/// Every character of `s` is a decimal digit.
pub open spec fn all_digits(s: Seq<char>) -> bool {
    forall|i: int| 0 <= i < s.len() ==> is_digit_char(#[trigger] s[i])
}

/// Every character of `s` is a hexadecimal digit.
pub open spec fn all_hex(s: Seq<char>) -> bool {
    forall|i: int| 0 <= i < s.len() ==> is_hex_char(#[trigger] s[i])
}

/// The value of a decimal digit string, most significant digit first.
pub open spec fn dec_value(s: Seq<char>) -> int
    decreases s.len(),
{
    if s.len() == 0 {
        0
    } else {
        dec_value(s.drop_last()) * 10 + digit_val(s.last())
    }
}

/// The value of a hexadecimal digit string, most significant digit first.
pub open spec fn hex_value(s: Seq<char>) -> int
    decreases s.len(),
{
    if s.len() == 0 {
        0
    } else {
        hex_value(s.drop_last()) * 16 + hex_val(s.last())
    }
}

/// A canonical decimal numeral: nonempty, digits only, and no leading zero.
pub open spec fn is_dec_text(s: Seq<char>) -> bool {
    s.len() >= 1 && all_digits(s) && (s[0] == '0' ==> s.len() == 1)
}

/// A hexadecimal group as IPv6 text uses: one to four hexadecimal digits.
pub open spec fn is_hex_group(s: Seq<char>) -> bool {
    1 <= s.len() <= 4 && all_hex(s)
}

/// The character for the digit value `d`, hexadecimal digits in lower case.
pub open spec fn digit_char(d: int) -> char {
    if d == 0 {
        '0'
    } else if d == 1 {
        '1'
    } else if d == 2 {
        '2'
    } else if d == 3 {
        '3'
    } else if d == 4 {
        '4'
    } else if d == 5 {
        '5'
    } else if d == 6 {
        '6'
    } else if d == 7 {
        '7'
    } else if d == 8 {
        '8'
    } else if d == 9 {
        '9'
    } else if d == 10 {
        'a'
    } else if d == 11 {
        'b'
    } else if d == 12 {
        'c'
    } else if d == 13 {
        'd'
    } else if d == 14 {
        'e'
    } else {
        'f'
    }
}

/// The canonical decimal numeral of `n`.
pub open spec fn dec_text(n: int) -> Seq<char>
    decreases n,
{
    if n <= 9 {
        seq![digit_char(n)]
    } else {
        dec_text(n / 10) + seq![digit_char(n % 10)]
    }
}

/// The canonical hexadecimal numeral of `n`, lower case.
pub open spec fn hex_text(n: int) -> Seq<char>
    decreases n,
{
    if n <= 15 {
        seq![digit_char(n)]
    } else {
        hex_text(n / 16) + seq![digit_char(n % 16)]
    }
}

/// Powers of ten.
pub open spec fn pow10(k: int) -> int
    decreases k,
{
    if k <= 0 {
        1
    } else {
        10 * pow10(k - 1)
    }
}

/// A digit string's value lies below the power of ten of its length; a
/// string without a leading zero reaches the power of ten below it.
pub proof fn lemma_dec_value_bounds(s: Seq<char>)
    requires
        all_digits(s),
    ensures
        0 <= dec_value(s) < pow10(s.len() as int),
        s.len() >= 1 && s[0] != '0' ==> dec_value(s) >= pow10(s.len() - 1),
    decreases s.len(),
{
    if s.len() > 0 {
        lemma_dec_value_bounds(s.drop_last());
        assert(s.drop_last().len() == s.len() - 1);
        if s.len() >= 2 {
            assert(s.drop_last()[0] == s[0]);
        }
    }
}

/// The canonical decimal numeral of `n` is a canonical numeral whose value
/// is `n`.
pub proof fn lemma_dec_text_props(n: int)
    requires
        n >= 0,
    ensures
        is_dec_text(dec_text(n)),
        dec_value(dec_text(n)) == n,
        n <= 9 ==> dec_text(n).len() == 1,
        n >= 10 ==> dec_text(n)[0] == dec_text(n / 10)[0] && dec_text(n).len() >= 2,
    decreases n,
{
    if n <= 9 {
        let w = dec_text(n);
        assert(w == seq![digit_char(n)]);
        assert(w.drop_last().len() == 0);
        assert(dec_value(w.drop_last()) == 0);
        assert(dec_value(w) == digit_val(digit_char(n)));
    } else {
        lemma_dec_text_props(n / 10);
        let t = dec_text(n / 10);
        let w = dec_text(n);
        assert(w == t + seq![digit_char(n % 10)]);
        assert(w.drop_last() =~= t);
        assert(w.last() == digit_char(n % 10));
        assert(forall|i: int| 0 <= i < t.len() ==> w[i] == t[i]);
        assert(dec_value(w) == dec_value(t) * 10 + digit_val(w.last()));
        assert(digit_val(digit_char(n % 10)) == n % 10);
        assert(n == (n / 10) * 10 + n % 10) by (nonlinear_arith);
    }
}

/// A hexadecimal digit string's value is bounded by sixteen to its length.
pub proof fn lemma_hex_value_bounds(s: Seq<char>)
    requires
        all_hex(s),
        s.len() <= 4,
    ensures
        0 <= hex_value(s) <= 0xffff,
        s.len() <= 3 ==> hex_value(s) <= 0xfff,
        s.len() <= 2 ==> hex_value(s) <= 0xff,
        s.len() <= 1 ==> hex_value(s) <= 0xf,
    decreases s.len(),
{
    if s.len() > 0 {
        lemma_hex_value_bounds(s.drop_last());
    }
}

// ---------------------------------------------------------------------------
// Port numerals
// ---------------------------------------------------------------------------

/// Why a port segment was rejected: empty, a character that is no decimal
/// digit, a leading zero, or a value above 65535.
#[derive(Clone, Copy, Debug, PartialEq, Eq, Structural)]
pub enum PortParseError {
    Empty,
    InvalidDigit,
    LeadingZero,
    Overflow,
}

/// The port grammar: a canonical decimal numeral whose value fits in 16 bits.
/// Rejections are told apart in this order: empty, then a bad digit, then a
/// leading zero, then overflow.
pub open spec fn spec_parse_port(s: Seq<char>) -> Result<u16, PortParseError> {
    if s.len() == 0 {
        Err(PortParseError::Empty)
    } else if !all_digits(s) {
        Err(PortParseError::InvalidDigit)
    } else if s[0] == '0' && s.len() > 1 {
        Err(PortParseError::LeadingZero)
    } else if dec_value(s) > 65535 {
        Err(PortParseError::Overflow)
    } else {
        Ok(dec_value(s) as u16)
    }
}

/// Powers of ten do not decrease.
pub proof fn lemma_pow10_mono(a: int, b: int)
    requires
        0 <= a <= b,
    ensures
        1 <= pow10(a) <= pow10(b),
    decreases b,
{
    if b > 0 {
        if a == b {
            lemma_pow10_mono(0, b - 1);
        } else {
            lemma_pow10_mono(a, b - 1);
        }
    }
}

/// Parse a port segment against the strict decimal grammar.
pub fn parse_port(s: &str) -> (r: Result<u16, PortParseError>)
    ensures
        r == spec_parse_port(s@),
{
    let n = s.unicode_len();
    if n == 0 {
        return Err(PortParseError::Empty);
    }
    let mut i: usize = 0;
    while i < n
        invariant
            i <= n,
            n == s@.len(),
            forall|j: int| 0 <= j < i ==> is_digit_char(#[trigger] s@[j]),
        decreases n - i,
    {
        if digit_of(s.get_char(i)).is_none() {
            assert(!is_digit_char(s@[i as int]));
            return Err(PortParseError::InvalidDigit);
        }
        i += 1;
    }
    assert(all_digits(s@));
    if s.get_char(0) == '0' && n > 1 {
        return Err(PortParseError::LeadingZero);
    }
    proof {
        lemma_dec_value_bounds(s@);
    }
    if n > 5 {
        proof {
            assert(pow10(0) == 1);
            assert(pow10(1) == 10);
            assert(pow10(2) == 100);
            assert(pow10(3) == 1000);
            assert(pow10(4) == 10000);
            assert(pow10(5) == 100000);
            lemma_pow10_mono(5, n as int - 1);
        }
        return Err(PortParseError::Overflow);
    }
    let mut v: u32 = 0;
    let mut i: usize = 0;
    while i < n
        invariant
            i <= n <= 5,
            n == s@.len(),
            all_digits(s@),
            v == dec_value(s@.take(i as int)),
            v < pow10(i as int),
        decreases n - i,
    {
        proof {
            assert(pow10(0) == 1);
            assert(pow10(1) == 10);
            assert(pow10(2) == 100);
            assert(pow10(3) == 1000);
            assert(pow10(4) == 10000);
            assert(pow10(5) == 100000);
        }
        let d = match digit_of(s.get_char(i)) {
            Some(d) => d,
            None => {
                proof {
                    assert(false);
                }
                0
            },
        };
        v = v * 10 + d as u32;
        proof {
            assert(s@.take(i + 1).drop_last() =~= s@.take(i as int));
            assert(s@.take(i + 1).last() == s@[i as int]);
        }
        i += 1;
    }
    assert(s@.take(n as int) =~= s@);
    if v > 65535 {
        Err(PortParseError::Overflow)
    } else {
        Ok(v as u16)
    }
}

// ---------------------------------------------------------------------------
// Domain validation
// ---------------------------------------------------------------------------

/// The least index of a character outside the domain alphabet, or `-1` when
/// every character is allowed.
pub open spec fn first_bad_index(s: Seq<char>) -> int
    decreases s.len(),
{
    if s.len() == 0 {
        -1
    } else if !is_domain_char(s[0]) {
        0
    } else {
        let r = first_bad_index(s.skip(1));
        if r < 0 {
            -1
        } else {
            r + 1
        }
    }
}

/// `first_bad_index` finds the least disallowed character, or `-1` when the
/// whole sequence is in the domain alphabet.
pub proof fn lemma_first_bad_index(s: Seq<char>)
    ensures
        first_bad_index(s) == -1 ==> domain_ok(s),
        first_bad_index(s) != -1 ==> 0 <= first_bad_index(s) < s.len() && !is_domain_char(
            s[first_bad_index(s)],
        ) && (forall|i: int| 0 <= i < first_bad_index(s) ==> is_domain_char(#[trigger] s[i])),
    decreases s.len(),
{
    if s.len() > 0 && is_domain_char(s[0]) {
        lemma_first_bad_index(s.skip(1));
        assert(forall|i: int| 1 <= i < s.len() ==> s[i] == s.skip(1)[i - 1]);
    }
}

/// Validate a domain segment, reporting the first disallowed character and
/// its offset.
pub fn check_domain(s: &str) -> (r: Option<(usize, char)>)
    ensures
        match r {
            None => first_bad_index(s@) == -1 && domain_ok(s@),
            Some((i, c)) => first_bad_index(s@) == i && c == s@[i as int] && !is_domain_char(c),
        },
{
    let n = s.unicode_len();
    let mut i: usize = 0;
    while i < n
        invariant
            i <= n,
            n == s@.len(),
            forall|j: int| 0 <= j < i ==> is_domain_char(#[trigger] s@[j]),
        decreases n - i,
    {
        let c = s.get_char(i);
        if !domain_char(c) {
            proof {
                lemma_first_bad_index(s@);
                if first_bad_index(s@) != i {
                    assert(false);
                }
            }
            return Some((i, c));
        }
        i += 1;
    }
    proof {
        lemma_first_bad_index(s@);
        if first_bad_index(s@) != -1 {
            assert(!is_domain_char(s@[first_bad_index(s@)]));
        }
    }
    None
}

// ---------------------------------------------------------------------------
// Numeral formatting
// ---------------------------------------------------------------------------

/// The one-character string for the digit value `d`.
pub fn digit_str(d: u8) -> (r: &'static str)
    requires
        d < 16,
    ensures
        r@ == seq![digit_char(d as int)],
{
    proof {
        reveal_strlit("0");
        reveal_strlit("1");
        reveal_strlit("2");
        reveal_strlit("3");
        reveal_strlit("4");
        reveal_strlit("5");
        reveal_strlit("6");
        reveal_strlit("7");
        reveal_strlit("8");
        reveal_strlit("9");
        reveal_strlit("a");
        reveal_strlit("b");
        reveal_strlit("c");
        reveal_strlit("d");
        reveal_strlit("e");
        reveal_strlit("f");
    }
    match d {
        0 => "0",
        1 => "1",
        2 => "2",
        3 => "3",
        4 => "4",
        5 => "5",
        6 => "6",
        7 => "7",
        8 => "8",
        9 => "9",
        10 => "a",
        11 => "b",
        12 => "c",
        13 => "d",
        14 => "e",
        _ => {
            assert(d == 15);
            "f"
        },
    }
}

/// Format `n` as its canonical decimal numeral.
pub fn format_dec(n: u16) -> (r: String)
    ensures
        r@ == dec_text(n as int),
    decreases n,
{
    if n <= 9 {
        String::from_str(digit_str(n as u8))
    } else {
        let mut r = format_dec(n / 10);
        r.append(digit_str((n % 10) as u8));
        r
    }
}

/// Format `n` as its canonical lower-case hexadecimal numeral.
pub fn format_hex(n: u16) -> (r: String)
    ensures
        r@ == hex_text(n as int),
    decreases n,
{
    if n <= 15 {
        String::from_str(digit_str(n as u8))
    } else {
        let mut r = format_hex(n / 16);
        r.append(digit_str((n % 16) as u8));
        r
    }
}

} // verus!

