//! IPv6 addresses: eight 16-bit segments, parsed from colon-separated
//! hexadecimal text with at most one `::` compression and an optional
//! embedded dotted-decimal IPv4 tail, and formatted canonically: lower-case
//! hexadecimal, the leftmost longest run of two or more zero segments
//! compressed to `::`, and the IPv4-mapped form printed as `::ffff:a.b.c.d`.

use vstd::prelude::*;

use crate::text::{
    find_colon2, find_colon2_str, format_hex, hex_of, hex_text, hex_value, is_hex_char,
    is_hex_group, lemma_find_colon2, lemma_hex_value_bounds, split_on, split_str,
};
use crate::ipv4::{format_v4, parse_v4, spec_parse_v4, v4_text, Ipv4Address};

verus! {

/// An IPv6 address, one field for each 16-bit segment.
#[derive(Clone, Copy, Debug, PartialEq, Eq, Hash, Structural)]
pub struct Ipv6Address {
    pub s0: u16,
    pub s1: u16,
    pub s2: u16,
    pub s3: u16,
    pub s4: u16,
    pub s5: u16,
    pub s6: u16,
    pub s7: u16,
}

impl Ipv6Address {
    /// The segments as a sequence, most significant first.
    pub open spec fn segments(&self) -> Seq<u16> {
        seq![self.s0, self.s1, self.s2, self.s3, self.s4, self.s5, self.s6, self.s7]
    }

    /// The segment at index `i`.
    pub fn seg(&self, i: usize) -> (r: u16)
        requires
            i < 8,
        ensures
            r == self.segments()[i as int],
    {
        match i {
            0 => self.s0,
            1 => self.s1,
            2 => self.s2,
            3 => self.s3,
            4 => self.s4,
            5 => self.s5,
            6 => self.s6,
            _ => self.s7,
        }
    }
}

/// The address with the given eight segments.
pub open spec fn v6_from_groups(g: Seq<u16>) -> Ipv6Address
    recommends
        g.len() == 8,
{
    Ipv6Address {
        s0: g[0],
        s1: g[1],
        s2: g[2],
        s3: g[3],
        s4: g[4],
        s5: g[5],
        s6: g[6],
        s7: g[7],
    }
}

/// Every field is a hexadecimal group.
pub open spec fn all_hex_groups(fs: Seq<Seq<char>>) -> bool {
    forall|i: int| 0 <= i < fs.len() ==> is_hex_group(#[trigger] fs[i])
}

/// The segment values of a sequence of hexadecimal groups.
pub open spec fn groups_of(fs: Seq<Seq<char>>) -> Seq<u16> {
    fs.map_values(|f: Seq<char>| hex_value(f) as u16)
}

/// The two segments an embedded IPv4 address stands for.
pub open spec fn v4_groups(x: Ipv4Address) -> Seq<u16> {
    seq![
        ((x.a as int) * 256 + (x.b as int)) as u16,
        ((x.c as int) * 256 + (x.d as int)) as u16,
    ]
}

/// `n` zero segments.
pub open spec fn zero_groups(n: int) -> Seq<u16> {
    Seq::new(n as nat, |i: int| 0u16)
}

/// The segments denoted by the text after a `::`: empty, or colon-separated
/// hexadecimal groups, the last of which may instead be an embedded IPv4
/// address.
pub open spec fn spec_right_groups(r: Seq<char>) -> Option<Seq<u16>> {
    if r.len() == 0 {
        Some(Seq::<u16>::empty())
    } else {
        let fs = split_on(r, ':');
        let k = fs.len() as int;
        if all_hex_groups(fs) {
            Some(groups_of(fs))
        } else if all_hex_groups(fs.take(k - 1)) && spec_parse_v4(fs[k - 1]) is Some {
            Some(groups_of(fs.take(k - 1)) + v4_groups(spec_parse_v4(fs[k - 1]).unwrap()))
        } else {
            None
        }
    }
}

/// The IPv6 grammar. Without `::` the text is eight hexadecimal groups, or
/// six and an embedded IPv4 address. With one `::`, the groups on both sides
/// total at most seven, and the omitted middle is zero; an embedded IPv4
/// address may end the right side only.
pub open spec fn spec_parse_v6(s: Seq<char>) -> Option<Ipv6Address> {
    let i = find_colon2(s);
    if i < 0 {
        let fs = split_on(s, ':');
        if fs.len() == 8 && all_hex_groups(fs) {
            Some(v6_from_groups(groups_of(fs)))
        } else if fs.len() == 7 && all_hex_groups(fs.take(6)) && spec_parse_v4(fs[6]) is Some {
            Some(v6_from_groups(groups_of(fs.take(6)) + v4_groups(spec_parse_v4(fs[6]).unwrap())))
        } else {
            None
        }
    } else {
        let l = s.take(i);
        let r = s.skip(i + 2);
        let lf = if l.len() == 0 {
            Seq::<Seq<char>>::empty()
        } else {
            split_on(l, ':')
        };
        if all_hex_groups(lf) {
            match spec_right_groups(r) {
                Some(rg) => {
                    let lg = groups_of(lf);
                    if lg.len() + rg.len() <= 7 {
                        Some(
                            v6_from_groups(
                                lg + zero_groups(8 - lg.len() - rg.len()) + rg,
                            ),
                        )
                    } else {
                        None
                    }
                },
                None => None,
            }
        } else {
            None
        }
    }
}

/// Parse one hexadecimal group of one to four digits.
pub fn parse_hex_group(s: &str) -> (r: Option<u16>)
    ensures
        match r {
            Some(v) => is_hex_group(s@) && v == hex_value(s@),
            None => !is_hex_group(s@),
        },
{
    let n = s.unicode_len();
    if n == 0 || n > 4 {
        return None;
    }
    let mut v: u32 = 0;
    let mut i: usize = 0;
    while i < n
        invariant
            i <= n <= 4,
            n == s@.len(),
            forall|j: int| 0 <= j < i ==> is_hex_char(#[trigger] s@[j]),
            v == hex_value(s@.take(i as int)),
            v <= 0xffff,
        decreases n - i,
    {
        let d = match hex_of(s.get_char(i)) {
            Some(d) => d,
            None => {
                assert(!is_hex_char(s@[i as int]));
                return None;
            },
        };
        proof {
            assert(s@.take(i as int).len() == i);
            lemma_hex_value_bounds(s@.take(i as int));
            if i == 4 {
                assert(false);
            }
        }
        v = v * 16 + d as u32;
        proof {
            assert(s@.take(i + 1).drop_last() =~= s@.take(i as int));
            assert(s@.take(i + 1).last() == s@[i as int]);
            lemma_hex_value_bounds(s@.take(i + 1));
        }
        i += 1;
    }
    assert(s@.take(n as int) =~= s@);
    Some(v as u16)
}

/// Parse the fields `from` up to `to` as hexadecimal groups, yielding their
/// segment values.
fn hex_fields(fs: &Vec<String>, from: usize, to: usize) -> (r: Option<Vec<u16>>)
    requires
        from <= to <= fs@.len(),
    ensures
        match r {
            Some(v) => all_hex_groups(fs@.map_values(|t: String| t@).subrange(from as int, to as int))
                && v@ == groups_of(fs@.map_values(|t: String| t@).subrange(from as int, to as int)),
            None => !all_hex_groups(
                fs@.map_values(|t: String| t@).subrange(from as int, to as int),
            ),
        },
{
    let ghost sub = fs@.map_values(|t: String| t@).subrange(from as int, to as int);
    let mut v: Vec<u16> = Vec::new();
    let mut i: usize = from;
    while i < to
        invariant
            from <= i <= to <= fs@.len(),
            sub == fs@.map_values(|t: String| t@).subrange(from as int, to as int),
            forall|j: int| 0 <= j < i - from ==> is_hex_group(#[trigger] sub[j]),
            v@.len() == i - from,
            forall|j: int| 0 <= j < i - from ==> v@[j] == (hex_value(sub[j]) as u16),
        decreases to - i,
    {
        assert(sub[i - from] == fs@[i as int]@);
        match parse_hex_group(fs[i].as_str()) {
            Some(g) => {
                v.push(g);
            },
            None => {
                assert(!is_hex_group(sub[i - from]));
                return None;
            },
        }
        i += 1;
    }
    proof {
        assert(v@ =~= groups_of(sub));
    }
    Some(v)
}

/// The two segment values of an embedded IPv4 address.
fn v4_groups_exec(x: &Ipv4Address) -> (r: (u16, u16))
    ensures
        seq![r.0, r.1] == v4_groups(*x),
{
    ((x.a as u16) * 256 + (x.b as u16), (x.c as u16) * 256 + (x.d as u16))
}

/// The address with the eight segments of `g`.
fn from_groups_vec(g: &Vec<u16>) -> (r: Ipv6Address)
    requires
        g@.len() == 8,
    ensures
        r == v6_from_groups(g@),
{
    Ipv6Address {
        s0: g[0],
        s1: g[1],
        s2: g[2],
        s3: g[3],
        s4: g[4],
        s5: g[5],
        s6: g[6],
        s7: g[7],
    }
}

/// Parse the text after a `::`.
fn right_groups(s: &str) -> (r: Option<Vec<u16>>)
    ensures
        match r {
            Some(v) => spec_right_groups(s@) == Some(v@),
            None => spec_right_groups(s@) is None,
        },
{
    let n = s.unicode_len();
    if n == 0 {
        let v: Vec<u16> = Vec::new();
        assert(v@ =~= Seq::<u16>::empty());
        return Some(v);
    }
    let fs = split_str(s, ':');
    let ghost gfs = fs@.map_values(|t: String| t@);
    let k = fs.len();
    proof {
        assert(gfs.subrange(0, k as int) =~= gfs);
        assert(gfs.subrange(0, k as int - 1) =~= gfs.take(k as int - 1));
    }
    match hex_fields(&fs, 0, k) {
        Some(v) => Some(v),
        None => {
            match hex_fields(&fs, 0, k - 1) {
                None => None,
                Some(mut v) => {
                    assert(gfs[k - 1] == fs@[k - 1]@);
                    match parse_v4(fs[k - 1].as_str()) {
                        None => None,
                        Some(x) => {
                            let (g6, g7) = v4_groups_exec(&x);
                            v.push(g6);
                            v.push(g7);
                            proof {
                                assert(v@ =~= groups_of(gfs.take(k as int - 1)) + v4_groups(x));
                            }
                            Some(v)
                        },
                    }
                },
            }
        },
    }
}

/// Parse IPv6 text.
pub fn parse_v6(s: &str) -> (r: Option<Ipv6Address>)
    ensures
        r == spec_parse_v6(s@),
{
    let n = s.unicode_len();
    match find_colon2_str(s) {
        None => {
            let fs = split_str(s, ':');
            let ghost gfs = fs@.map_values(|t: String| t@);
            if fs.len() == 8 {
                proof {
                    assert(gfs.subrange(0, 8) =~= gfs);
                }
                match hex_fields(&fs, 0, 8) {
                    Some(v) => Some(from_groups_vec(&v)),
                    None => None,
                }
            } else if fs.len() == 7 {
                proof {
                    assert(gfs.subrange(0, 6) =~= gfs.take(6));
                }
                match hex_fields(&fs, 0, 6) {
                    Some(mut v) => {
                        assert(gfs[6] == fs@[6]@);
                        match parse_v4(fs[6].as_str()) {
                            Some(x) => {
                                let (g6, g7) = v4_groups_exec(&x);
                                v.push(g6);
                                v.push(g7);
                                proof {
                                    assert(v@ =~= groups_of(gfs.take(6)) + v4_groups(x));
                                }
                                Some(from_groups_vec(&v))
                            },
                            None => None,
                        }
                    },
                    None => None,
                }
            } else {
                None
            }
        },
        Some(i) => {
            proof {
                lemma_find_colon2(s@);
            }
            let l = s.substring_char(0, i);
            let rest = s.substring_char(i + 2, n);
            assert(l@ == s@.take(i as int));
            assert(rest@ == s@.skip(i + 2));
            let lf: Vec<String> = if l.unicode_len() == 0 {
                Vec::new()
            } else {
                split_str(l, ':')
            };
            let ghost glf = if l@.len() == 0 {
                Seq::<Seq<char>>::empty()
            } else {
                split_on(l@, ':')
            };
            proof {
                assert(lf@.map_values(|t: String| t@) =~= glf);
                assert(glf.subrange(0, glf.len() as int) =~= glf);
            }
            match hex_fields(&lf, 0, lf.len()) {
                None => None,
                Some(lg) => {
                    match right_groups(rest) {
                        None => None,
                        Some(rg) => {
                            if lg.len() <= 7 && rg.len() <= 7 - lg.len() {
                                let z = 8 - lg.len() - rg.len();
                                let mut g: Vec<u16> = Vec::new();
                                let mut i2: usize = 0;
                                while i2 < lg.len()
                                    invariant
                                        i2 <= lg@.len(),
                                        g@ == lg@.take(i2 as int),
                                    decreases lg@.len() - i2,
                                {
                                    g.push(lg[i2]);
                                    assert(g@ =~= lg@.take(i2 + 1));
                                    i2 += 1;
                                }
                                assert(g@ =~= lg@);
                                let mut i3: usize = 0;
                                while i3 < z
                                    invariant
                                        i3 <= z,
                                        g@ == lg@ + zero_groups(i3 as int),
                                    decreases z - i3,
                                {
                                    g.push(0);
                                    assert(g@ =~= lg@ + zero_groups(i3 + 1));
                                    i3 += 1;
                                }
                                let mut i4: usize = 0;
                                while i4 < rg.len()
                                    invariant
                                        i4 <= rg@.len(),
                                        g@ == lg@ + zero_groups(z as int) + rg@.take(i4 as int),
                                    decreases rg@.len() - i4,
                                {
                                    g.push(rg[i4]);
                                    assert(g@ =~= lg@ + zero_groups(z as int) + rg@.take(
                                        i4 + 1,
                                    ));
                                    i4 += 1;
                                }
                                assert(g@ =~= lg@ + zero_groups(z as int) + rg@);
                                Some(from_groups_vec(&g))
                            } else {
                                None
                            }
                        },
                    }
                },
            }
        },
    }
}

// ---------------------------------------------------------------------------
// Canonical formatting
// ---------------------------------------------------------------------------

/// The length of the run of zero segments starting at `i`.
pub open spec fn zrun(g: Seq<u16>, i: int) -> int
    decreases 8 - i,
{
    if i < 0 || i >= 8 || g.len() != 8 || g[i] != 0 {
        0
    } else {
        1 + zrun(g, i + 1)
    }
}

/// The start of the leftmost longest zero run among the starts `0..=i`.
pub open spec fn best_start(g: Seq<u16>, i: int) -> int
    decreases i,
{
    if i <= 0 {
        0
    } else {
        let b = best_start(g, i - 1);
        if zrun(g, i) > zrun(g, b) {
            i
        } else {
            b
        }
    }
}

/// Hexadecimal group texts joined with colons.
pub open spec fn join_hex(g: Seq<u16>) -> Seq<char>
    decreases g.len(),
{
    if g.len() == 0 {
        Seq::<char>::empty()
    } else if g.len() == 1 {
        hex_text(g[0] as int)
    } else {
        hex_text(g[0] as int) + seq![':'] + join_hex(g.skip(1))
    }
}

/// The IPv4 address an IPv4-mapped IPv6 address embeds.
pub open spec fn mapped_v4(x: Ipv6Address) -> Ipv4Address {
    Ipv4Address {
        a: (x.s6 / 256) as u8,
        b: (x.s6 % 256) as u8,
        c: (x.s7 / 256) as u8,
        d: (x.s7 % 256) as u8,
    }
}

/// Whether `x` is an IPv4-mapped address, `::ffff:a.b.c.d`.
pub open spec fn is_v4_mapped(x: Ipv6Address) -> bool {
    x.s0 == 0 && x.s1 == 0 && x.s2 == 0 && x.s3 == 0 && x.s4 == 0 && x.s5 == 0xffff
}

/// The canonical text of an IPv6 address: the IPv4-mapped form when it
/// applies; otherwise the groups in lower-case hexadecimal, with the
/// leftmost longest run of two or more zero segments compressed to `::`.
pub open spec fn v6_text(x: Ipv6Address) -> Seq<char> {
    let g = x.segments();
    if is_v4_mapped(x) {
        seq![':', ':', 'f', 'f', 'f', 'f', ':'] + v4_text(mapped_v4(x))
    } else {
        let b = best_start(g, 7);
        let z = zrun(g, b);
        if z >= 2 {
            join_hex(g.subrange(0, b)) + seq![':', ':'] + join_hex(g.subrange(b + z, 8))
        } else {
            join_hex(g)
        }
    }
}

/// The zero run starting at `i`.
fn zrun_exec(x: &Ipv6Address, i: usize) -> (r: usize)
    requires
        i <= 8,
    ensures
        r == zrun(x.segments(), i as int),
        i + r <= 8,
    decreases 8 - i,
{
    if i >= 8 {
        0
    } else if x.seg(i) != 0 {
        0
    } else {
        1 + zrun_exec(x, i + 1)
    }
}

/// The texts of the segments `from..to` joined with colons.
fn join_exec(x: &Ipv6Address, from: usize, to: usize) -> (r: String)
    requires
        from <= to <= 8,
    ensures
        r@ == join_hex(x.segments().subrange(from as int, to as int)),
    decreases to - from,
{
    let ghost sub = x.segments().subrange(from as int, to as int);
    if from >= to {
        let r = String::new();
        assert(sub =~= Seq::<u16>::empty());
        r
    } else if from + 1 == to {
        assert(sub[0] == x.segments()[from as int]);
        format_hex(x.seg(from))
    } else {
        proof {
            reveal_strlit(":");
        }
        let mut r = format_hex(x.seg(from));
        r.append(":");
        let t = join_exec(x, from + 1, to);
        r.append(t.as_str());
        proof {
            assert(sub[0] == x.segments()[from as int]);
            assert(sub.skip(1) =~= x.segments().subrange(from + 1, to as int));
        }
        r
    }
}

/// Format an IPv6 address canonically.
pub fn format_v6(x: &Ipv6Address) -> (r: String)
    ensures
        r@ == v6_text(*x),
{
    let ghost g = x.segments();
    if x.s0 == 0 && x.s1 == 0 && x.s2 == 0 && x.s3 == 0 && x.s4 == 0 && x.s5 == 0xffff {
        proof {
            reveal_strlit("::ffff:");
        }
        let mut r = String::from_str("::ffff:");
        assert(r@ =~= seq![':', ':', 'f', 'f', 'f', 'f', ':']);
        let v4 = Ipv4Address {
            a: (x.s6 / 256) as u8,
            b: (x.s6 % 256) as u8,
            c: (x.s7 / 256) as u8,
            d: (x.s7 % 256) as u8,
        };
        let t = format_v4(&v4);
        r.append(t.as_str());
        r
    } else {
        let mut b: usize = 0;
        let mut i: usize = 1;
        while i < 8
            invariant
                1 <= i <= 8,
                b < i,
                b == best_start(g, i as int - 1),
                g == x.segments(),
            decreases 8 - i,
        {
            if zrun_exec(x, i) > zrun_exec(x, b) {
                b = i;
            }
            i += 1;
        }
        let z = zrun_exec(x, b);
        if z >= 2 {
            proof {
                reveal_strlit("::");
            }
            let mut r = join_exec(x, 0, b);
            r.append("::");
            let t = join_exec(x, b + z, 8);
            r.append(t.as_str());
            assert("::"@ =~= seq![':', ':']);
            r
        } else {
            let r = join_exec(x, 0, 8);
            assert(g.subrange(0, 8) =~= g);
            r
        }
    }
}

} // verus!
