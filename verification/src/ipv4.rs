//! IPv4 addresses: four octets, parsed from and formatted to the dotted
//! decimal form. The accepted texts are exactly the canonical ones: each
//! octet a decimal numeral without a leading zero, value at most 255.

use vstd::prelude::*;

use crate::text::{
    all_digits, dec_text, dec_value, digit_of, is_dec_text, is_digit_char,
    lemma_dec_text_props, lemma_dec_value_bounds, lemma_pow10_mono, lemma_split_prepend,
    lemma_split_single, pow10, split_on, split_str, format_dec,
};

verus! {

/// An IPv4 address, one field for each octet of the dotted form.
#[derive(Clone, Copy, Debug, PartialEq, Eq, Hash, Structural)]
pub struct Ipv4Address {
    pub a: u8,
    pub b: u8,
    pub c: u8,
    pub d: u8,
}

/// An octet of IPv4 text: a canonical decimal numeral of value at most 255.
pub open spec fn is_octet_text(s: Seq<char>) -> bool {
    is_dec_text(s) && dec_value(s) <= 255
}

/// The IPv4 grammar: four octet numerals separated by dots.
pub open spec fn spec_parse_v4(s: Seq<char>) -> Option<Ipv4Address> {
    let fs = split_on(s, '.');
    if fs.len() == 4 && is_octet_text(fs[0]) && is_octet_text(fs[1]) && is_octet_text(fs[2])
        && is_octet_text(fs[3]) {
        Some(
            Ipv4Address {
                a: dec_value(fs[0]) as u8,
                b: dec_value(fs[1]) as u8,
                c: dec_value(fs[2]) as u8,
                d: dec_value(fs[3]) as u8,
            },
        )
    } else {
        None
    }
}

/// The dotted decimal text of an address.
pub open spec fn v4_text(x: Ipv4Address) -> Seq<char> {
    dec_text(x.a as int) + seq!['.'] + dec_text(x.b as int) + seq!['.'] + dec_text(x.c as int)
        + seq!['.'] + dec_text(x.d as int)
}

/// Parse one octet numeral.
pub fn parse_octet(s: &str) -> (r: Option<u8>)
    ensures
        match r {
            Some(v) => is_octet_text(s@) && v == dec_value(s@),
            None => !is_octet_text(s@),
        },
{
    let n = s.unicode_len();
    if n == 0 {
        return None;
    }
    let mut i: usize = 0;
    while i < n
        invariant
            i <= n,
            n == s@.len(),
            forall|j: int| 0 <= j < i ==> is_digit_char(#[trigger] s@[j]),
        decreases n - i,
    {
        if digit_of(s.get_char(i)).is_none() {
            assert(!is_digit_char(s@[i as int]));
            return None;
        }
        i += 1;
    }
    assert(all_digits(s@));
    if s.get_char(0) == '0' && n > 1 {
        return None;
    }
    proof {
        lemma_dec_value_bounds(s@);
        assert(pow10(0) == 1);
        assert(pow10(1) == 10);
        assert(pow10(2) == 100);
        assert(pow10(3) == 1000);
    }
    if n > 3 {
        proof {
            lemma_pow10_mono(3, n as int - 1);
        }
        return None;
    }
    let mut v: u32 = 0;
    let mut i: usize = 0;
    while i < n
        invariant
            i <= n <= 3,
            n == s@.len(),
            all_digits(s@),
            v == dec_value(s@.take(i as int)),
            v < pow10(i as int),
        decreases n - i,
    {
        proof {
            assert(pow10(0) == 1);
            assert(pow10(1) == 10);
            assert(pow10(2) == 100);
            assert(pow10(3) == 1000);
        }
        let d = match digit_of(s.get_char(i)) {
            Some(d) => d,
            None => {
                proof {
                    assert(false);
                }
                0
            },
        };
        v = v * 10 + d as u32;
        proof {
            assert(s@.take(i + 1).drop_last() =~= s@.take(i as int));
            assert(s@.take(i + 1).last() == s@[i as int]);
        }
        i += 1;
    }
    assert(s@.take(n as int) =~= s@);
    if v > 255 {
        None
    } else {
        Some(v as u8)
    }
}

/// Parse dotted decimal IPv4 text.
pub fn parse_v4(s: &str) -> (r: Option<Ipv4Address>)
    ensures
        r == spec_parse_v4(s@),
{
    let fs = split_str(s, '.');
    let ghost gs = split_on(s@, '.');
    if fs.len() != 4 {
        return None;
    }
    assert(fs@.map_values(|t: String| t@)[0] == gs[0]);
    assert(fs@.map_values(|t: String| t@)[1] == gs[1]);
    assert(fs@.map_values(|t: String| t@)[2] == gs[2]);
    assert(fs@.map_values(|t: String| t@)[3] == gs[3]);
    let a = match parse_octet(fs[0].as_str()) {
        Some(v) => v,
        None => {
            return None;
        },
    };
    let b = match parse_octet(fs[1].as_str()) {
        Some(v) => v,
        None => {
            return None;
        },
    };
    let c = match parse_octet(fs[2].as_str()) {
        Some(v) => v,
        None => {
            return None;
        },
    };
    let d = match parse_octet(fs[3].as_str()) {
        Some(v) => v,
        None => {
            return None;
        },
    };
    Some(Ipv4Address { a, b, c, d })
}

/// Format an address as dotted decimal text.
pub fn format_v4(x: &Ipv4Address) -> (r: String)
    ensures
        r@ == v4_text(*x),
{
    proof {
        reveal_strlit(".");
    }
    let mut r = format_dec(x.a as u16);
    r.append(".");
    let tb = format_dec(x.b as u16);
    r.append(tb.as_str());
    r.append(".");
    let tc = format_dec(x.c as u16);
    r.append(tc.as_str());
    r.append(".");
    let td = format_dec(x.d as u16);
    r.append(td.as_str());
    r
}

/// The text of an address parses back to that address, and uses only digits
/// and dots.
pub proof fn lemma_v4_text_parses(x: Ipv4Address)
    ensures
        spec_parse_v4(v4_text(x)) == Some(x),
        forall|i: int|
            0 <= i < v4_text(x).len() ==> (is_digit_char(#[trigger] v4_text(x)[i]) || v4_text(
                x,
            )[i] == '.'),
        v4_text(x).len() >= 1,
        is_digit_char(v4_text(x)[0]),
{
    let ta = dec_text(x.a as int);
    let tb = dec_text(x.b as int);
    let tc = dec_text(x.c as int);
    let td = dec_text(x.d as int);
    lemma_dec_text_props(x.a as int);
    lemma_dec_text_props(x.b as int);
    lemma_dec_text_props(x.c as int);
    lemma_dec_text_props(x.d as int);
    lemma_dec_value_bounds(ta);
    lemma_dec_value_bounds(tb);
    lemma_dec_value_bounds(tc);
    lemma_dec_value_bounds(td);
    let t = v4_text(x);
    let y1 = tb + seq!['.'] + tc + seq!['.'] + td;
    let y2 = tc + seq!['.'] + td;
    assert(t =~= ta + seq!['.'] + y1);
    assert(y1 =~= tb + seq!['.'] + y2);
    lemma_split_prepend(ta, y1, '.');
    lemma_split_prepend(tb, y2, '.');
    lemma_split_prepend(tc, td, '.');
    lemma_split_single(td, '.');
    assert(split_on(t, '.') =~= seq![ta, tb, tc, td]);
    assert(split_on(t, '.')[0] == ta);
    assert(dec_value(ta) == x.a as int);
    assert(forall|i: int| 0 <= i < t.len() ==> (is_digit_char(#[trigger] t[i]) || t[i] == '.'))
        by {
        assert(forall|i: int|
            0 <= i < t.len() ==> {
                ||| (0 <= i < ta.len() && t[i] == ta[i])
                ||| t[i] == '.'
                ||| (0 <= i - ta.len() - 1 < tb.len() && t[i] == tb[i - ta.len() - 1])
                ||| (0 <= i - ta.len() - tb.len() - 2 < tc.len() && t[i] == tc[i - ta.len()
                    - tb.len() - 2])
                ||| (0 <= i - ta.len() - tb.len() - tc.len() - 3 < td.len() && t[i] == td[i
                    - ta.len() - tb.len() - tc.len() - 3])
            });
    }
    assert(t[0] == ta[0]);
}

} // verus!
